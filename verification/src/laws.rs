//! Laws of the store: properties that relate several operations, stated
//! over the same models that the operations' own contracts use.

use vstd::prelude::*;

use crate::format::KeydirEntry;
use crate::storage::live_keys;

verus! {

/// Read-your-write: after a put of `v` under `k` — which, by `put`'s
/// contract, turns the logical mapping `pre` into `pre.insert(k, v)` — a
/// get of `k` finds exactly `v`, and every other key keeps its binding.
pub proof fn lemma_read_your_write(
    pre: Map<Seq<u8>, Seq<u8>>,
    post: Map<Seq<u8>, Seq<u8>>,
    k: Seq<u8>,
    v: Seq<u8>,
)
    requires
        post == pre.insert(k, v),
    ensures
        post.contains_key(k),
        post[k] == v,
        forall|k2: Seq<u8>|
            k2 != k ==> (#[trigger] post.contains_key(k2) <==> pre.contains_key(k2)),
        forall|k2: Seq<u8>| k2 != k && pre.contains_key(k2) ==> #[trigger] post[k2] == pre[k2],
{
}

/// Tombstone hides: after a remove of `k` — which, by `remove`'s contract,
/// turns the logical mapping `pre` into `pre.remove(k)` — a get of `k`
/// finds nothing, whatever was bound before, until a later put of `k`;
/// every other key keeps its binding.
pub proof fn lemma_tombstone_hides(
    pre: Map<Seq<u8>, Seq<u8>>,
    post: Map<Seq<u8>, Seq<u8>>,
    k: Seq<u8>,
)
    requires
        post == pre.remove(k),
    ensures
        !post.contains_key(k),
        forall|k2: Seq<u8>|
            k2 != k ==> (#[trigger] post.contains_key(k2) <==> pre.contains_key(k2)),
        forall|k2: Seq<u8>| k2 != k && pre.contains_key(k2) ==> #[trigger] post[k2] == pre[k2],
{
}

/// The sum of the live-key counts of the listed segments.
pub open spec fn sum_live(ids: Seq<u32>, m: Map<Seq<u8>, KeydirEntry>) -> int
    decreases ids.len(),
{
    if ids.len() == 0 {
        0
    } else {
        sum_live(ids.drop_last(), m) + live_keys(m, ids.last()).len()
    }
}

/// Two maps whose live-key sets agree on every listed segment contribute
/// the same sum.
proof fn lemma_sum_live_congruent(
    ids: Seq<u32>,
    m1: Map<Seq<u8>, KeydirEntry>,
    m2: Map<Seq<u8>, KeydirEntry>,
)
    requires
        forall|i: int| 0 <= i < ids.len() ==> live_keys(m1, #[trigger] ids[i]) == live_keys(
            m2,
            ids[i],
        ),
    ensures
        sum_live(ids, m1) == sum_live(ids, m2),
    decreases ids.len(),
{
    if ids.len() > 0 {
        lemma_sum_live_congruent(ids.drop_last(), m1, m2);
        assert(ids[ids.len() - 1] == ids.last());
    }
}

/// Segment count invariant: with pairwise distinct segment ids that cover
/// every key's segment, the per-segment live-key counts add up to the
/// number of live keys.
pub proof fn lemma_live_counts_partition(ids: Seq<u32>, m: Map<Seq<u8>, KeydirEntry>)
    requires
        forall|i: int, j: int| 0 <= i < j < ids.len() ==> ids[i] != ids[j],
        m.dom().finite(),
        forall|k: Seq<u8>| #[trigger] m.contains_key(k) ==> ids.contains(m[k].file_id),
    ensures
        sum_live(ids, m) == m.dom().len(),
    decreases ids.len(),
{
    if ids.len() == 0 {
        assert(m.dom() =~= Set::<Seq<u8>>::empty()) by {
            if exists|k: Seq<u8>| m.dom().contains(k) {
                let k = choose|k: Seq<u8>| m.dom().contains(k);
                assert(m.contains_key(k));
            }
        }
    } else {
        let s = ids.last();
        let live = live_keys(m, s);
        let m2 = m.remove_keys(live);
        m.dom().lemma_len_filter(|k: Seq<u8>| m[k].file_id == s);
        m.lemma_remove_keys_len(live);
        assert forall|k: Seq<u8>| #[trigger] m2.contains_key(k) implies ids.drop_last().contains(
            m2[k].file_id,
        ) by {
            assert(m.contains_key(k));
            assert(m2[k] == m[k]);
            assert(m[k].file_id != s);
            let i = choose|i: int| 0 <= i < ids.len() && ids[i] == m[k].file_id;
            assert(i < ids.len() - 1);
            assert(ids.drop_last()[i] == m[k].file_id);
        }
        assert(m2.dom().finite()) by {
            assert(m2.dom() =~= m.dom().difference(live));
            vstd::set_lib::lemma_len_intersect(m.dom(), live.complement());
            assert(m.dom().difference(live) =~= m.dom().intersect(live.complement()));
        }
        lemma_live_counts_partition(ids.drop_last(), m2);
        assert forall|i: int|
            0 <= i < ids.drop_last().len() implies live_keys(
            m2,
            #[trigger] ids.drop_last()[i],
        ) == live_keys(m, ids.drop_last()[i]) by {
            let sid = ids.drop_last()[i];
            assert(ids[i] == sid);
            assert(sid != s);
            assert(live_keys(m2, sid) =~= live_keys(m, sid));
        }
        lemma_sum_live_congruent(ids.drop_last(), m2, m);
    }
}

} // verus!
