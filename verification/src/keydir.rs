//! Keydir implementation.
//!
//! The keydir is the in-memory index that maps every live key to the
//! location of its most recent value on disk. The engine depends only on
//! the capability set of the [`Keydir`] trait; its contracts speak of the
//! mathematical map that an implementation represents.

use vstd::prelude::*;

use crate::format::KeydirEntry;

verus! {

/// Compares two byte strings for equality.
pub fn bytes_eq(a: &[u8], b: &[u8]) -> (r: bool)
    ensures
        r == (a@ == b@),
{
    if a.len() != b.len() {
        return false;
    }
    let mut i: usize = 0;
    while i < a.len()
        invariant
            i <= a@.len(),
            a@.len() == b@.len(),
            forall|j: int| 0 <= j < i ==> a@[j] == b@[j],
        decreases a@.len() - i,
    {
        if a[i] != b[i] {
            return false;
        }
        i = i + 1;
    }
    proof {
        assert(a@ =~= b@);
    }
    true
}

/// Whether the key views of an association list are pairwise distinct.
pub open spec fn keys_unique(s: Seq<(Vec<u8>, KeydirEntry)>) -> bool {
    forall|i: int, j: int| 0 <= i < j < s.len() ==> s[i].0@ != s[j].0@
}

/// The mathematical map that an association list represents; later pairs
/// win over earlier ones.
pub open spec fn pairs_map(s: Seq<(Vec<u8>, KeydirEntry)>) -> Map<Seq<u8>, KeydirEntry>
    decreases s.len(),
{
    if s.len() == 0 {
        Map::empty()
    } else {
        pairs_map(s.drop_last()).insert(s.last().0@, s.last().1)
    }
}

/// A key is in the map exactly when some pair of the list holds it, and the
/// map's domain is finite.
pub proof fn lemma_pairs_map_dom(s: Seq<(Vec<u8>, KeydirEntry)>)
    ensures
        pairs_map(s).dom().finite(),
        forall|k: Seq<u8>|
            pairs_map(s).contains_key(k) <==> exists|i: int| 0 <= i < s.len() && s[i].0@ == k,
    decreases s.len(),
{
    if s.len() > 0 {
        lemma_pairs_map_dom(s.drop_last());
        assert forall|k: Seq<u8>| pairs_map(s).contains_key(k) implies exists|i: int|
            0 <= i < s.len() && s[i].0@ == k by {
            if k == s.last().0@ {
                assert(s[s.len() - 1].0@ == k);
            } else {
                let i = choose|i: int| 0 <= i < s.drop_last().len() && s.drop_last()[i].0@ == k;
                assert(s[i].0@ == k);
            }
        }
        assert forall|k: Seq<u8>|
            (exists|i: int| 0 <= i < s.len() && s[i].0@ == k) implies pairs_map(s).contains_key(
            k,
        ) by {
            let i = choose|i: int| 0 <= i < s.len() && s[i].0@ == k;
            if i < s.len() - 1 {
                assert(s.drop_last()[i].0@ == k);
            }
        }
    }
}

/// With pairwise distinct keys, the map sends each listed key to its listed
/// entry.
pub proof fn lemma_pairs_map_index(s: Seq<(Vec<u8>, KeydirEntry)>, i: int)
    requires
        keys_unique(s),
        0 <= i < s.len(),
    ensures
        pairs_map(s).contains_key(s[i].0@),
        pairs_map(s)[s[i].0@] == s[i].1,
    decreases s.len(),
{
    lemma_pairs_map_dom(s);
    if i < s.len() - 1 {
        lemma_pairs_map_index(s.drop_last(), i);
        assert(s.drop_last()[i] == s[i]);
        assert(s[i].0@ != s.last().0@);
    }
}

/// With pairwise distinct keys, the list and the map have the same size.
pub proof fn lemma_pairs_map_len(s: Seq<(Vec<u8>, KeydirEntry)>)
    requires
        keys_unique(s),
    ensures
        pairs_map(s).dom().len() == s.len(),
    decreases s.len(),
{
    lemma_pairs_map_dom(s);
    if s.len() > 0 {
        lemma_pairs_map_len(s.drop_last());
        lemma_pairs_map_dom(s.drop_last());
        assert(!pairs_map(s.drop_last()).contains_key(s.last().0@)) by {
            if pairs_map(s.drop_last()).contains_key(s.last().0@) {
                let i = choose|i: int|
                    0 <= i < s.drop_last().len() && s.drop_last()[i].0@ == s.last().0@;
                assert(s[i].0@ == s[s.len() - 1].0@);
            }
        }
        assert(pairs_map(s).dom() =~= pairs_map(s.drop_last()).dom().insert(s.last().0@));
    }
}

/// Appending a pair inserts its binding into the map.
pub proof fn lemma_pairs_map_push(s: Seq<(Vec<u8>, KeydirEntry)>, p: (Vec<u8>, KeydirEntry))
    ensures
        pairs_map(s.push(p)) == pairs_map(s).insert(p.0@, p.1),
{
    assert(s.push(p).drop_last() =~= s);
    assert(s.push(p).last() == p);
}

/// Removing the pair at `i` removes its key from the map, when keys are
/// pairwise distinct.
pub proof fn lemma_pairs_map_remove(s: Seq<(Vec<u8>, KeydirEntry)>, i: int)
    requires
        keys_unique(s),
        0 <= i < s.len(),
    ensures
        pairs_map(s.remove(i)) == pairs_map(s).remove(s[i].0@),
    decreases s.len(),
{
    lemma_pairs_map_dom(s.drop_last());
    if i == s.len() - 1 {
        assert(s.remove(i) =~= s.drop_last());
        assert(!pairs_map(s.drop_last()).contains_key(s[i].0@)) by {
            if pairs_map(s.drop_last()).contains_key(s[i].0@) {
                let j = choose|j: int|
                    0 <= j < s.drop_last().len() && s.drop_last()[j].0@ == s[i].0@;
                assert(s[j].0@ == s[i].0@);
            }
        }
        assert(pairs_map(s).remove(s[i].0@) =~= pairs_map(s.drop_last()));
    } else {
        lemma_pairs_map_remove(s.drop_last(), i);
        assert(s.remove(i).drop_last() =~= s.drop_last().remove(i));
        assert(s.remove(i).last() == s.last());
        assert(s.drop_last()[i] == s[i]);
        assert(s[i].0@ != s.last().0@);
        assert(pairs_map(s.remove(i)) == pairs_map(s.drop_last().remove(i)).insert(
            s.last().0@,
            s.last().1,
        ));
        assert(pairs_map(s).remove(s[i].0@) =~= pairs_map(s.drop_last()).remove(s[i].0@).insert(
            s.last().0@,
            s.last().1,
        ));
    }
}

/// Distinctness of keys survives removing a pair.
pub proof fn lemma_keys_unique_remove(s: Seq<(Vec<u8>, KeydirEntry)>, i: int)
    requires
        keys_unique(s),
        0 <= i < s.len(),
    ensures
        keys_unique(s.remove(i)),
{
    assert forall|a: int, b: int| 0 <= a < b < s.remove(i).len() implies s.remove(i)[a].0@
        != s.remove(i)[b].0@ by {
        let a0 = if a < i { a } else { a + 1 };
        let b0 = if b < i { b } else { b + 1 };
        assert(s.remove(i)[a] == s[a0]);
        assert(s.remove(i)[b] == s[b0]);
    }
}

/// The capability set the engine requires of an index: lookup, insert with
/// the previous entry handed back, removal, and one full walk.
pub trait Keydir: Sized {
    /// The implementation's internal invariant.
    spec fn inv(&self) -> bool;

    /// The mathematical map this index represents.
    spec fn model(&self) -> Map<Seq<u8>, KeydirEntry>;

    /// The represented map binds finitely many keys.
    proof fn lemma_model_finite(&self)
        requires
            self.inv(),
        ensures
            self.model().dom().finite(),
    ;

    /// Returns a reference to the corresponding entry.
    fn get(&self, k: &[u8]) -> (r: Option<&KeydirEntry>)
        requires
            self.inv(),
        ensures
            (match r {
                Some(e) => self.model().contains_key(k@) && *e == self.model()[k@],
                None => !self.model().contains_key(k@),
            }),
    ;

    /// Puts a key and entry into the keydir.
    ///
    /// If the keydir did not have this key present, `None` is returned.
    /// If it did, the binding is updated and the old entry is returned.
    fn put(&mut self, k: Vec<u8>, v: KeydirEntry) -> (prev: Option<KeydirEntry>)
        requires
            old(self).inv(),
        ensures
            final(self).inv(),
            final(self).model() == old(self).model().insert(k@, v),
            final(self).model().dom().len() <= usize::MAX,
            (match prev {
                Some(e) => old(self).model().contains_key(k@) && e == old(self).model()[k@],
                None => !old(self).model().contains_key(k@),
            }),
    ;

    /// Removes an entry from the keydir.
    fn remove(&mut self, k: &[u8])
        requires
            old(self).inv(),
        ensures
            final(self).inv(),
            final(self).model() == old(self).model().remove(k@),
    ;

    /// Lists all (key, entry) pairs, each key once, in arbitrary order.
    fn iter(&self) -> (v: Vec<(Vec<u8>, KeydirEntry)>)
        requires
            self.inv(),
        ensures
            v@.len() == self.model().dom().len(),
            forall|i: int|
                0 <= i < v@.len() ==> #[trigger] self.model().contains_key(v@[i].0@)
                    && self.model()[v@[i].0@] == v@[i].1,
            forall|i: int, j: int| 0 <= i < j < v@.len() ==> v@[i].0@ != v@[j].0@,
    ;
}

/// An index that can be created empty.
pub trait KeydirDefault: Keydir {
    /// Creates an empty index.
    fn default_keydir() -> (r: Self)
        ensures
            r.inv(),
            r.model() == Map::<Seq<u8>, KeydirEntry>::empty(),
    ;
}

/// The default keydir realization: a flat association list keyed by owned
/// byte strings.
#[derive(Debug)]
pub struct HashmapKeydir {
    mapping: Vec<(Vec<u8>, KeydirEntry)>,
}

impl HashmapKeydir {
    /// The index of the pair holding `k`, if any.
    fn find(&self, k: &[u8]) -> (r: Option<usize>)
        ensures
            (match r {
                Some(i) => i < self.mapping@.len() && self.mapping@[i as int].0@ == k@,
                None => forall|j: int| 0 <= j < self.mapping@.len() ==> self.mapping@[j].0@ != k@,
            }),
    {
        let mut i: usize = 0;
        while i < self.mapping.len()
            invariant
                i <= self.mapping@.len(),
                forall|j: int| 0 <= j < i ==> self.mapping@[j].0@ != k@,
            decreases self.mapping@.len() - i,
        {
            if bytes_eq(self.mapping[i].0.as_slice(), k) {
                return Some(i);
            }
            i = i + 1;
        }
        None
    }
}

impl Keydir for HashmapKeydir {
    closed spec fn inv(&self) -> bool {
        keys_unique(self.mapping@)
    }

    closed spec fn model(&self) -> Map<Seq<u8>, KeydirEntry> {
        pairs_map(self.mapping@)
    }

    proof fn lemma_model_finite(&self) {
        lemma_pairs_map_dom(self.mapping@);
    }

    fn get(&self, k: &[u8]) -> (r: Option<&KeydirEntry>) {
        proof {
            lemma_pairs_map_dom(self.mapping@);
        }
        match self.find(k) {
            Some(i) => {
                proof {
                    lemma_pairs_map_index(self.mapping@, i as int);
                }
                Some(&self.mapping[i].1)
            },
            None => None,
        }
    }

    fn put(&mut self, k: Vec<u8>, v: KeydirEntry) -> (prev: Option<KeydirEntry>) {
        proof {
            lemma_pairs_map_dom(self.mapping@);
        }
        let found = self.find(k.as_slice());
        match found {
            Some(i) => {
                let prev_entry = self.mapping[i].1;
                proof {
                    lemma_pairs_map_index(self.mapping@, i as int);
                    lemma_pairs_map_remove(self.mapping@, i as int);
                    lemma_keys_unique_remove(self.mapping@, i as int);
                }
                let ghost s_removed = self.mapping@.remove(i as int);
                self.mapping.remove(i);
                proof {
                    lemma_pairs_map_push(s_removed, (k, v));
                    assert(pairs_map(old(self).mapping@).remove(k@).insert(k@, v) =~= pairs_map(
                        old(self).mapping@,
                    ).insert(k@, v));
                    lemma_pairs_map_dom(s_removed);
                }
                self.mapping.push((k, v));
                // reading the length bounds the map's domain by usize::MAX
                let _n = self.mapping.len();
                proof {
                    lemma_pairs_map_len(self.mapping@);
                }
                Some(prev_entry)
            },
            None => {
                proof {
                    lemma_pairs_map_push(self.mapping@, (k, v));
                }
                self.mapping.push((k, v));
                // reading the length bounds the map's domain by usize::MAX
                let _n = self.mapping.len();
                proof {
                    lemma_pairs_map_len(self.mapping@);
                }
                None
            },
        }
    }

    fn remove(&mut self, k: &[u8]) {
        proof {
            lemma_pairs_map_dom(self.mapping@);
        }
        match self.find(k) {
            Some(i) => {
                proof {
                    lemma_pairs_map_remove(self.mapping@, i as int);
                    lemma_keys_unique_remove(self.mapping@, i as int);
                }
                self.mapping.remove(i);
            },
            None => {
                proof {
                    assert(pairs_map(self.mapping@).remove(k@) =~= pairs_map(self.mapping@));
                }
            },
        }
    }

    fn iter(&self) -> (v: Vec<(Vec<u8>, KeydirEntry)>) {
        let mut out: Vec<(Vec<u8>, KeydirEntry)> = Vec::new();
        let mut i: usize = 0;
        while i < self.mapping.len()
            invariant
                i <= self.mapping@.len(),
                out@.len() == i,
                forall|j: int|
                    0 <= j < i ==> (#[trigger] out@[j]).0@ == self.mapping@[j].0@ && out@[j].1
                        == self.mapping@[j].1,
            decreases self.mapping@.len() - i,
        {
            let key_copy = vstd::slice::slice_to_vec(self.mapping[i].0.as_slice());
            let entry = self.mapping[i].1;
            out.push((key_copy, entry));
            i = i + 1;
        }
        proof {
            lemma_pairs_map_len(self.mapping@);
            assert forall|j: int| 0 <= j < out@.len() implies #[trigger] pairs_map(
                self.mapping@,
            ).contains_key(out@[j].0@) && pairs_map(self.mapping@)[out@[j].0@] == out@[j].1 by {
                lemma_pairs_map_index(self.mapping@, j);
            }
        }
        out
    }
}

impl KeydirDefault for HashmapKeydir {
    fn default_keydir() -> (r: Self) {
        HashmapKeydir { mapping: Vec::new() }
    }
}

impl Default for HashmapKeydir {
    /// Creates an empty index.
    fn default() -> (r: Self)
        ensures
            r.inv(),
            r.model() == Map::<Seq<u8>, KeydirEntry>::empty(),
    {
        HashmapKeydir { mapping: Vec::new() }
    }
}

} // verus!
