//! Segment file names.
//!
//! A segment file is named `<id>.rumdb.log`: during recovery any directory
//! entry whose name, split at the first `.`, parses as an unsigned 32-bit
//! integer of decimal digits, and whose extension — the part after the last
//! `.` — is `log`, is treated as a segment.

use vstd::prelude::*;

verus! {

/// Whether a byte is a decimal digit.
pub open spec fn spec_is_digit(c: u8) -> bool {
    48 <= c <= 57
}

/// The value of a string of decimal digits.
pub open spec fn spec_decimal_value(s: Seq<u8>) -> int
    decreases s.len(),
{
    if s.len() == 0 {
        0
    } else {
        spec_decimal_value(s.drop_last()) * 10 + (s.last() - 48)
    }
}

/// The position of the first `.`, or the length when there is none.
pub open spec fn spec_first_dot(s: Seq<u8>) -> int
    decreases s.len(),
{
    if s.len() == 0 {
        0
    } else if s[0] == 46 {
        0
    } else {
        1 + spec_first_dot(s.subrange(1, s.len() as int))
    }
}

/// The segment id a file name denotes, if any: the digits before the first
/// `.` as a 32-bit value, provided the extension after the last `.` is
/// `log`.
pub open spec fn spec_parse_log_file_name(name: Seq<u8>) -> Option<u32> {
    let d = spec_first_dot(name);
    if d >= name.len() {
        None
    } else if !(exists|e: int|
        d <= e < name.len() && name[e] == 46 && name.subrange(e + 1, name.len() as int)
            =~= seq![108u8, 111u8, 103u8]) {
        None
    } else if d == 0 {
        None
    } else if !(forall|i: int| 0 <= i < d ==> spec_is_digit(#[trigger] name[i])) {
        None
    } else if spec_decimal_value(name.subrange(0, d)) > u32::MAX {
        None
    } else {
        Some(spec_decimal_value(name.subrange(0, d)) as u32)
    }
}

/// A string of digits is worth at least any of its prefixes.
proof fn lemma_decimal_prefix_bound(s: Seq<u8>, i: int)
    requires
        0 <= i <= s.len(),
        forall|j: int| 0 <= j < s.len() ==> spec_is_digit(#[trigger] s[j]),
    ensures
        0 <= spec_decimal_value(s.subrange(0, i)),
        spec_decimal_value(s.subrange(0, i)) <= spec_decimal_value(s.subrange(0, s.len() as int)),
    decreases s.len() - i,
{
    lemma_decimal_nonneg(s.subrange(0, i));
    if i < s.len() {
        lemma_decimal_prefix_bound(s, i + 1);
        assert(s.subrange(0, i + 1).drop_last() =~= s.subrange(0, i));
        assert(s.subrange(0, i + 1).last() == s[i]);
        lemma_decimal_nonneg(s.subrange(0, i));
    } else {
        assert(s.subrange(0, i) =~= s.subrange(0, s.len() as int));
    }
}

/// The value of a digit string is never negative.
proof fn lemma_decimal_nonneg(s: Seq<u8>)
    ensures
        spec_decimal_value(s) * 10 <= spec_decimal_value(s.push(48)),
        0 <= spec_decimal_value(s) ==> 0 <= spec_decimal_value(s) * 10,
        s.len() == 0 ==> spec_decimal_value(s) == 0,
        (forall|j: int| 0 <= j < s.len() ==> spec_is_digit(#[trigger] s[j])) ==> 0
            <= spec_decimal_value(s),
    decreases s.len(),
{
    assert(s.push(48).drop_last() =~= s);
    if s.len() > 0 {
        lemma_decimal_nonneg(s.drop_last());
    }
}

/// Parses a segment file name. Returns the decimal segment id before the
/// first `.` when the extension after the last `.` is `log`; `None` for
/// every other name.
pub fn parse_log_file_name(name: &[u8]) -> (r: Option<u32>)
    ensures
        r == spec_parse_log_file_name(name@),
{
    let n = name.len();
    // find the first dot
    let mut d: usize = 0;
    while d < n && name[d] != 46
        invariant
            d <= n,
            n == name@.len(),
            forall|j: int| 0 <= j < d ==> name@[j] != 46,
        decreases n - d,
    {
        d = d + 1;
    }
    proof {
        lemma_first_dot_at(name@, d as int);
    }
    if d >= n {
        return None;
    }
    // find the last dot and check the extension
    let mut e: usize = n - 1;
    while name[e] != 46
        invariant
            d <= e < n,
            n == name@.len(),
            name@[d as int] == 46,
            forall|j: int| e < j < n ==> name@[j] != 46,
        decreases e,
    {
        e = e - 1;
    }
    proof {
        assert(name@[e as int] == 46);
    }
    let ext_ok = n - e == 4 && name[e + 1] == 108 && name[e + 2] == 111 && name[e + 3] == 103;
    if !ext_ok {
        proof {
            assert forall|e2: int|
                d <= e2 < n && name@[e2] == 46 implies !(name@.subrange(e2 + 1, n as int)
                =~= seq![108u8, 111u8, 103u8]) by {
                if e2 > e {
                    assert(name@[e2] != 46);
                } else if e2 == e {
                    if name@.subrange(e2 + 1, n as int) =~= seq![108u8, 111u8, 103u8] {
                        assert(n - e == 4);
                        assert(name@[e as int + 1] == 108);
                        assert(name@[e as int + 2] == 111);
                        assert(name@[e as int + 3] == 103);
                    }
                } else {
                    if name@.subrange(e2 + 1, n as int) =~= seq![108u8, 111u8, 103u8] {
                        assert(name@.subrange(e2 + 1, n as int).len() == 3);
                        let x = e - e2 - 1;
                        assert(0 <= x < 3);
                        assert(name@.subrange(e2 + 1, n as int)[x] == name@[e as int]);
                        assert(seq![108u8, 111u8, 103u8][x] != 46) by {
                            assert(x == 0 || x == 1 || x == 2);
                        }
                        assert(false);
                    }
                }
            }
        }
        return None;
    }
    proof {
        assert(name@.subrange(e as int + 1, n as int) =~= seq![108u8, 111u8, 103u8]);
        assert(d <= e < n && (#[trigger] name@[e as int]) == 46);
        assert(exists|e2: int|
            d <= e2 < n && (#[trigger] name@[e2]) == 46 && name@.subrange(e2 + 1, n as int)
                =~= seq![108u8, 111u8, 103u8]);
    }
    if d == 0 {
        return None;
    }
    // parse the decimal digits before the first dot
    let mut value: u64 = 0;
    let mut i: usize = 0;
    while i < d
        invariant
            i <= d,
            0 < d < n,
            n == name@.len(),
            spec_first_dot(name@) == d,
            exists|e2: int|
                d <= e2 < n && (#[trigger] name@[e2]) == 46 && name@.subrange(e2 + 1, n as int)
                    =~= seq![108u8, 111u8, 103u8],
            forall|j: int| 0 <= j < i ==> spec_is_digit(#[trigger] name@[j]),
            value == spec_decimal_value(name@.subrange(0, i as int)),
            value <= u32::MAX,
        decreases d - i,
    {
        let c = name[i];
        if c < 48 || c > 57 {
            proof {
                assert(!spec_is_digit(name@[i as int]));
            }
            return None;
        }
        let next = value * 10 + ((c - 48) as u64);
        proof {
            assert(name@.subrange(0, i as int + 1).drop_last() =~= name@.subrange(0, i as int));
            assert(name@.subrange(0, i as int + 1).last() == name@[i as int]);
        }
        if next > u32::MAX as u64 {
            proof {
                if forall|j: int| 0 <= j < d ==> spec_is_digit(#[trigger] name@[j]) {
                    lemma_decimal_prefix_bound(name@.subrange(0, d as int), i as int + 1);
                    assert(name@.subrange(0, d as int).subrange(0, i as int + 1)
                        =~= name@.subrange(0, i as int + 1));
                    assert(name@.subrange(0, d as int).subrange(0, d as int) =~= name@.subrange(
                        0,
                        d as int,
                    ));
                }
            }
            return None;
        }
        value = next;
        i = i + 1;
    }
    proof {
        assert(name@.subrange(0, i as int) =~= name@.subrange(0, d as int));
    }
    Some(value as u32)
}

/// Where a scan stopped is where the first dot sits.
proof fn lemma_first_dot_at(s: Seq<u8>, d: int)
    requires
        0 <= d <= s.len(),
        forall|j: int| 0 <= j < d ==> s[j] != 46,
        d < s.len() ==> s[d] == 46,
    ensures
        spec_first_dot(s) == d,
    decreases s.len(),
{
    if s.len() > 0 {
        if d == 0 {
        } else {
            let t = s.subrange(1, s.len() as int);
            lemma_first_dot_at(t, d - 1);
        }
    }
}

/// The decimal digits of a number, most significant first.
pub open spec fn spec_decimal_digits(n: int) -> Seq<u8>
    decreases n,
    when 0 <= n
{
    if n < 10 {
        seq![(n + 48) as u8]
    } else {
        spec_decimal_digits(n / 10).push((n % 10 + 48) as u8)
    }
}

/// The decimal digits of a number are digits and are worth the number.
proof fn lemma_decimal_digits(n: int)
    requires
        0 <= n,
    ensures
        spec_decimal_digits(n).len() >= 1,
        forall|j: int|
            0 <= j < spec_decimal_digits(n).len() ==> spec_is_digit(
                #[trigger] spec_decimal_digits(n)[j],
            ),
        spec_decimal_value(spec_decimal_digits(n)) == n,
    decreases n,
{
    if n < 10 {
        assert(spec_decimal_digits(n).drop_last() =~= Seq::<u8>::empty());
        assert((n + 48) as u8 == n + 48);
        assert(spec_decimal_value(Seq::<u8>::empty()) == 0);
    } else {
        lemma_decimal_digits(n / 10);
        assert(spec_decimal_digits(n).drop_last() =~= spec_decimal_digits(n / 10));
        assert(spec_decimal_digits(n).last() == (n % 10 + 48) as u8);
        assert((n % 10 + 48) as u8 == n % 10 + 48);
        assert(n / 10 * 10 + n % 10 == n);
        assert(spec_decimal_value(spec_decimal_digits(n)) == spec_decimal_value(
            spec_decimal_digits(n / 10),
        ) * 10 + n % 10);
    }
}

/// Appends the decimal digits of a number to a buffer.
fn push_decimal(n: u32, out: &mut Vec<u8>)
    ensures
        final(out)@ == old(out)@ + spec_decimal_digits(n as int),
    decreases n,
{
    if n >= 10 {
        push_decimal(n / 10, out);
        let d = (n % 10) as u8 + 48;
        out.push(d);
        proof {
            assert(final(out)@ =~= old(out)@ + spec_decimal_digits(n as int));
        }
    } else {
        let d = n as u8 + 48;
        out.push(d);
        proof {
            assert(final(out)@ =~= old(out)@ + spec_decimal_digits(n as int));
        }
    }
}

/// Formats a segment file name, `<id>.rumdb.log` in bytes: the exact
/// inverse of the parser, which reads the id back out of it.
pub fn format_log_file_name(file_id: u32) -> (r: Vec<u8>)
    ensures
        r@ == spec_decimal_digits(file_id as int) + seq![
            46u8,
            114u8,
            117u8,
            109u8,
            100u8,
            98u8,
            46u8,
            108u8,
            111u8,
            103u8,
        ],
        spec_parse_log_file_name(r@) == Some(file_id),
{
    let mut out: Vec<u8> = Vec::new();
    push_decimal(file_id, &mut out);
    let d = out.len();
    out.push(46);
    out.push(114);
    out.push(117);
    out.push(109);
    out.push(100);
    out.push(98);
    out.push(46);
    out.push(108);
    out.push(111);
    out.push(103);
    proof {
        lemma_decimal_digits(file_id as int);
        let digits = spec_decimal_digits(file_id as int);
        assert(out@ =~= digits + seq![
            46u8,
            114u8,
            117u8,
            109u8,
            100u8,
            98u8,
            46u8,
            108u8,
            111u8,
            103u8,
        ]);
        let n = out@.len() as int;
        assert(n == d + 10);
        assert forall|j: int| 0 <= j < d implies out@[j] != 46 by {
            assert(out@[j] == digits[j]);
            assert(spec_is_digit(digits[j]));
        }
        assert(out@[d as int] == 46);
        lemma_first_dot_at(out@, d as int);
        let e = d as int + 6;
        assert(out@[e] == 46);
        assert(out@.subrange(e + 1, n) =~= seq![108u8, 111u8, 103u8]);
        assert(exists|e2: int|
            d <= e2 < n && (#[trigger] out@[e2]) == 46 && out@.subrange(e2 + 1, n)
                =~= seq![108u8, 111u8, 103u8]);
        assert(out@.subrange(0, d as int) =~= digits);
        assert forall|j: int| 0 <= j < d implies spec_is_digit(#[trigger] out@[j]) by {
            assert(out@[j] == digits[j]);
        }
        assert(spec_decimal_value(out@.subrange(0, d as int)) == file_id);
    }
    out
}

} // verus!
