//! The storage engine.
//!
//! The engine keeps an append-only log of records split across segments,
//! an in-memory keydir that locates the most recent value of every live
//! key, and per-segment counts of live keys that drive garbage collection.
//! It works over in-memory segment buffers: a file-backed shell reads each
//! log file into a buffer at open time and mirrors appended bytes back to
//! its file after every write.

use vstd::prelude::*;
use vstd::slice::{slice_subrange, slice_to_vec};

use crate::errors::StorageError;
use crate::format::{spec_header_ts, spec_record_bytes, DiskEntry, KeydirEntry, HEADER_SIZE};
use vstd::bytes::u32_from_le_bytes;
use crate::keydir::{Keydir, KeydirDefault};
use crate::replay::{can_parse, lemma_replay_all_entries, lemma_replay_append, replay_all, replay_map, LogSegment};
use crate::DbOptions;

verus! {

/// Storage event.
pub enum StorageEvent {
    KeydirPut { new_log_id: u32, old_log_id: Option<u32> },
}

/// Whether the ids of a count list are strictly increasing.
pub open spec fn ids_increasing(s: Seq<(u32, usize)>) -> bool {
    forall|i: int, j: int| 0 <= i < j < s.len() ==> s[i].0 < s[j].0
}

/// The mathematical map that a count list represents.
pub open spec fn counts_map(s: Seq<(u32, usize)>) -> Map<u32, usize>
    decreases s.len(),
{
    if s.len() == 0 {
        Map::empty()
    } else {
        counts_map(s.drop_last()).insert(s.last().0, s.last().1)
    }
}

/// An id is in the map exactly when some pair of the list holds it, and the
/// map's domain is finite.
pub proof fn lemma_counts_map_dom(s: Seq<(u32, usize)>)
    ensures
        counts_map(s).dom().finite(),
        forall|k: u32|
            counts_map(s).contains_key(k) <==> exists|i: int| 0 <= i < s.len() && s[i].0 == k,
    decreases s.len(),
{
    if s.len() > 0 {
        lemma_counts_map_dom(s.drop_last());
        assert forall|k: u32| counts_map(s).contains_key(k) implies exists|i: int|
            0 <= i < s.len() && s[i].0 == k by {
            if k == s.last().0 {
                assert(s[s.len() - 1].0 == k);
            } else {
                let i = choose|i: int| 0 <= i < s.drop_last().len() && s.drop_last()[i].0 == k;
                assert(s[i].0 == k);
            }
        }
        assert forall|k: u32|
            (exists|i: int| 0 <= i < s.len() && s[i].0 == k) implies counts_map(s).contains_key(
            k,
        ) by {
            let i = choose|i: int| 0 <= i < s.len() && s[i].0 == k;
            if i < s.len() - 1 {
                assert(s.drop_last()[i].0 == k);
            }
        }
    }
}

/// With strictly increasing ids, the map sends each listed id to its listed
/// count.
pub proof fn lemma_counts_map_index(s: Seq<(u32, usize)>, i: int)
    requires
        ids_increasing(s),
        0 <= i < s.len(),
    ensures
        counts_map(s).contains_key(s[i].0),
        counts_map(s)[s[i].0] == s[i].1,
    decreases s.len(),
{
    lemma_counts_map_dom(s);
    if i < s.len() - 1 {
        lemma_counts_map_index(s.drop_last(), i);
        assert(s.drop_last()[i] == s[i]);
        assert(s[i].0 != s.last().0);
    }
}

/// Replacing the count at `i` updates that id's binding.
pub proof fn lemma_counts_map_update(s: Seq<(u32, usize)>, i: int, c: usize)
    requires
        ids_increasing(s),
        0 <= i < s.len(),
    ensures
        counts_map(s.update(i, (s[i].0, c))) == counts_map(s).insert(s[i].0, c),
    decreases s.len(),
{
    let t = s.update(i, (s[i].0, c));
    if i == s.len() - 1 {
        assert(t.drop_last() =~= s.drop_last());
        assert(t.last() == (s[i].0, c));
        assert(counts_map(s.drop_last()).insert(s[i].0, s[i].1).insert(s[i].0, c)
            =~= counts_map(s.drop_last()).insert(s[i].0, c));
    } else {
        lemma_counts_map_update(s.drop_last(), i, c);
        assert(t.drop_last() =~= s.drop_last().update(i, (s[i].0, c)));
        assert(t.last() == s.last());
        assert(s.drop_last()[i] == s[i]);
        assert(s[i].0 != s.last().0);
        assert(counts_map(s.drop_last()).insert(s[i].0, c).insert(s.last().0, s.last().1)
            =~= counts_map(s.drop_last()).insert(s.last().0, s.last().1).insert(s[i].0, c));
    }
}

/// Inserting a pair with a fresh id at any position inserts its binding.
pub proof fn lemma_counts_map_insert(s: Seq<(u32, usize)>, i: int, p: (u32, usize))
    requires
        ids_increasing(s),
        0 <= i <= s.len(),
        forall|j: int| 0 <= j < s.len() ==> s[j].0 != p.0,
    ensures
        counts_map(s.insert(i, p)) == counts_map(s).insert(p.0, p.1),
    decreases s.len(),
{
    let t = s.insert(i, p);
    if i == s.len() {
        assert(t.drop_last() =~= s);
        assert(t.last() == p);
    } else {
        lemma_counts_map_insert(s.drop_last(), i, p);
        assert(t.drop_last() =~= s.drop_last().insert(i, p));
        assert(t.last() == s.last());
        assert(s[s.len() - 1].0 != p.0);
        assert(counts_map(s.drop_last()).insert(p.0, p.1).insert(s.last().0, s.last().1)
            =~= counts_map(s.drop_last()).insert(s.last().0, s.last().1).insert(p.0, p.1));
    }
}

/// Removing the pair at `i` removes its id from the map.
pub proof fn lemma_counts_map_remove(s: Seq<(u32, usize)>, i: int)
    requires
        ids_increasing(s),
        0 <= i < s.len(),
    ensures
        counts_map(s.remove(i)) == counts_map(s).remove(s[i].0),
    decreases s.len(),
{
    lemma_counts_map_dom(s.drop_last());
    if i == s.len() - 1 {
        assert(s.remove(i) =~= s.drop_last());
        assert(!counts_map(s.drop_last()).contains_key(s[i].0)) by {
            if counts_map(s.drop_last()).contains_key(s[i].0) {
                let j = choose|j: int|
                    0 <= j < s.drop_last().len() && s.drop_last()[j].0 == s[i].0;
                assert(s[j].0 == s[i].0);
            }
        }
        assert(counts_map(s).remove(s[i].0) =~= counts_map(s.drop_last()));
    } else {
        lemma_counts_map_remove(s.drop_last(), i);
        assert(s.remove(i).drop_last() =~= s.drop_last().remove(i));
        assert(s.remove(i).last() == s.last());
        assert(s.drop_last()[i] == s[i]);
        assert(s[i].0 != s.last().0);
        assert(counts_map(s.drop_last()).remove(s[i].0).insert(s.last().0, s.last().1)
            =~= counts_map(s.drop_last()).insert(s.last().0, s.last().1).remove(s[i].0));
    }
}

/// Strictly increasing ids survive removing a pair.
pub proof fn lemma_ids_increasing_remove(s: Seq<(u32, usize)>, i: int)
    requires
        ids_increasing(s),
        0 <= i < s.len(),
    ensures
        ids_increasing(s.remove(i)),
{
    assert forall|a: int, b: int| 0 <= a < b < s.remove(i).len() implies s.remove(i)[a].0
        < s.remove(i)[b].0 by {
        let a0 = if a < i { a } else { a + 1 };
        let b0 = if b < i { b } else { b + 1 };
        assert(s.remove(i)[a] == s[a0]);
        assert(s.remove(i)[b] == s[b0]);
    }
}

/// Disk storage stats: the number of live key entries per log segment,
/// kept in ascending id order.
#[derive(Debug)]
pub struct DiskStorageStats {
    alive_log_keys: Vec<(u32, usize)>,
}

impl DiskStorageStats {
    /// The internal invariant: ids are strictly increasing.
    pub closed spec fn inv(&self) -> bool {
        ids_increasing(self.alive_log_keys@)
    }

    /// The mathematical map from segment id to live-key count.
    pub closed spec fn model(&self) -> Map<u32, usize> {
        counts_map(self.alive_log_keys@)
    }

    /// Creates an empty stats table.
    pub fn new() -> (r: Self)
        ensures
            r.inv(),
            r.model() == Map::<u32, usize>::empty(),
    {
        DiskStorageStats { alive_log_keys: Vec::new() }
    }

    /// The stats map binds finitely many ids.
    pub proof fn lemma_model_finite(&self)
        ensures
            self.model().dom().finite(),
    {
        lemma_counts_map_dom(self.alive_log_keys@);
    }

    /// The position of the pair holding `log_id`, if any.
    fn find(&self, log_id: u32) -> (r: Option<usize>)
        requires
            self.inv(),
        ensures
            (match r {
                Some(i) => i < self.alive_log_keys@.len() && self.alive_log_keys@[i as int].0
                    == log_id,
                None => !self.model().contains_key(log_id),
            }),
    {
        proof {
            lemma_counts_map_dom(self.alive_log_keys@);
        }
        let mut i: usize = 0;
        while i < self.alive_log_keys.len()
            invariant
                i <= self.alive_log_keys@.len(),
                forall|j: int| 0 <= j < i ==> self.alive_log_keys@[j].0 != log_id,
            decreases self.alive_log_keys@.len() - i,
        {
            if self.alive_log_keys[i].0 == log_id {
                return Some(i);
            }
            i = i + 1;
        }
        None
    }

    /// The live-key count recorded for a segment, if the segment is known.
    pub fn live_count(&self, log_id: u32) -> (r: Option<usize>)
        requires
            self.inv(),
        ensures
            (match r {
                Some(c) => self.model().contains_key(log_id) && c == self.model()[log_id],
                None => !self.model().contains_key(log_id),
            }),
    {
        match self.find(log_id) {
            Some(i) => {
                proof {
                    lemma_counts_map_index(self.alive_log_keys@, i as int);
                }
                Some(self.alive_log_keys[i].1)
            },
            None => None,
        }
    }

    /// Registers a freshly created segment with a live count of zero.
    pub fn new_log_entry(&mut self, log_id: u32)
        requires
            old(self).inv(),
            !old(self).model().contains_key(log_id),
        ensures
            final(self).inv(),
            final(self).model() == old(self).model().insert(log_id, 0usize),
    {
        proof {
            lemma_counts_map_dom(self.alive_log_keys@);
        }
        let mut i: usize = 0;
        while i < self.alive_log_keys.len() && self.alive_log_keys[i].0 < log_id
            invariant
                i <= self.alive_log_keys@.len(),
                forall|j: int| 0 <= j < i ==> self.alive_log_keys@[j].0 < log_id,
                forall|j: int|
                    0 <= j < self.alive_log_keys@.len() ==> self.alive_log_keys@[j].0 != log_id,
                ids_increasing(self.alive_log_keys@),
            decreases self.alive_log_keys@.len() - i,
        {
            i = i + 1;
        }
        proof {
            let s = self.alive_log_keys@;
            lemma_counts_map_insert(s, i as int, (log_id, 0usize));
            if i < s.len() {
                assert(s[i as int].0 > log_id);
            }
            let t = s.insert(i as int, (log_id, 0usize));
            assert forall|a: int, b: int| 0 <= a < b < t.len() implies t[a].0 < t[b].0 by {
                if b < i {
                    assert(t[a] == s[a]);
                    assert(t[b] == s[b]);
                } else if b == i {
                    assert(t[a] == s[a]);
                } else if a == i {
                    assert(t[b] == s[b - 1]);
                    assert(s[b - 1].0 >= s[i as int].0);
                } else if a < i {
                    assert(t[a] == s[a]);
                    assert(t[b] == s[b - 1]);
                    assert(s[b - 1].0 >= s[i as int].0);
                } else {
                    assert(t[a] == s[a - 1]);
                    assert(t[b] == s[b - 1]);
                }
            }
        }
        self.alive_log_keys.insert(i, (log_id, 0));
    }

    /// Raises a registered segment's live count by one.
    pub fn inc_alive_log_count(&mut self, log_id: u32)
        requires
            old(self).inv(),
            old(self).model().contains_key(log_id),
            old(self).model()[log_id] < usize::MAX,
        ensures
            final(self).inv(),
            final(self).model() == old(self).model().insert(
                log_id,
                (old(self).model()[log_id] + 1) as usize,
            ),
    {
        let found = self.find(log_id);
        match found {
            Some(i) => {
                proof {
                    lemma_counts_map_index(self.alive_log_keys@, i as int);
                    lemma_counts_map_update(
                        self.alive_log_keys@,
                        i as int,
                        (self.alive_log_keys@[i as int].1 + 1) as usize,
                    );
                }
                let c = self.alive_log_keys[i].1;
                self.alive_log_keys[i] = (log_id, c + 1);
                proof {
                    assert(final(self).alive_log_keys@ =~= old(self).alive_log_keys@.update(
                        i as int,
                        (log_id, (c + 1) as usize),
                    ));
                    assert forall|a: int, b: int|
                        0 <= a < b < final(self).alive_log_keys@.len() implies final(self).alive_log_keys@[a].0 < final(self).alive_log_keys@[b].0 by {
                        assert(old(self).alive_log_keys@[a].0 < old(self).alive_log_keys@[b].0);
                    }
                }
            },
            None => {
                proof {
                    assert(false);
                }
            },
        }
    }

    /// Lowers a registered segment's live count by one; unknown ids are
    /// left untouched.
    pub fn dec_alive_log_count(&mut self, log_id: u32)
        requires
            old(self).inv(),
            old(self).model().contains_key(log_id) ==> old(self).model()[log_id] > 0,
        ensures
            final(self).inv(),
            old(self).model().contains_key(log_id) ==> final(self).model() == old(self).model().insert(log_id, (old(self).model()[log_id] - 1) as usize),
            !old(self).model().contains_key(log_id) ==> final(self).model() == old(self).model(),
    {
        let found = self.find(log_id);
        match found {
            Some(i) => {
                proof {
                    lemma_counts_map_index(self.alive_log_keys@, i as int);
                    lemma_counts_map_update(
                        self.alive_log_keys@,
                        i as int,
                        (self.alive_log_keys@[i as int].1 - 1) as usize,
                    );
                }
                let c = self.alive_log_keys[i].1;
                self.alive_log_keys[i] = (log_id, c - 1);
                proof {
                    assert(final(self).alive_log_keys@ =~= old(self).alive_log_keys@.update(
                        i as int,
                        (log_id, (c - 1) as usize),
                    ));
                    assert forall|a: int, b: int|
                        0 <= a < b < final(self).alive_log_keys@.len() implies final(self).alive_log_keys@[a].0 < final(self).alive_log_keys@[b].0 by {
                        assert(old(self).alive_log_keys@[a].0 < old(self).alive_log_keys@[b].0);
                    }
                }
            },
            None => {},
        }
    }

    /// Applies one storage event to the counts: a put either lands in the
    /// same segment as the key's previous value (no change), moves the key
    /// between segments, or adds a fresh key.
    pub fn handle_storage_event(&mut self, event: StorageEvent)
        requires
            old(self).inv(),
            (match event {
                StorageEvent::KeydirPut { new_log_id, old_log_id } => {
                    &&& (match old_log_id {
                        Some(o) => o != new_log_id ==> {
                            &&& old(self).model().contains_key(new_log_id)
                            &&& old(self).model()[new_log_id] < usize::MAX
                            &&& (old(self).model().contains_key(o) ==> old(self).model()[o] > 0)
                        },
                        None => {
                            &&& old(self).model().contains_key(new_log_id)
                            &&& old(self).model()[new_log_id] < usize::MAX
                        },
                    })
                },
            }),
        ensures
            final(self).inv(),
            (match event {
                StorageEvent::KeydirPut { new_log_id, old_log_id } => {
                    (match old_log_id {
                        Some(o) => if o == new_log_id {
                            final(self).model() == old(self).model()
                        } else {
                            {
                                let bumped = old(self).model().insert(
                                    new_log_id,
                                    (old(self).model()[new_log_id] + 1) as usize,
                                );
                                if old(self).model().contains_key(o) {
                                    final(self).model() == bumped.insert(
                                        o,
                                        (old(self).model()[o] - 1) as usize,
                                    )
                                } else {
                                    final(self).model() == bumped
                                }
                            }
                        },
                        None => final(self).model() == old(self).model().insert(
                            new_log_id,
                            (old(self).model()[new_log_id] + 1) as usize,
                        ),
                    })
                },
            }),
    {
        match event {
            StorageEvent::KeydirPut { new_log_id, old_log_id } => {
                match old_log_id {
                    Some(old_file_id) => {
                        if new_log_id != old_file_id {
                            self.inc_alive_log_count(new_log_id);
                            proof {
                                if old(self).model().contains_key(old_file_id) {
                                    assert(old_file_id != new_log_id);
                                }
                            }
                            self.dec_alive_log_count(old_file_id);
                        }
                    },
                    None => {
                        self.inc_alive_log_count(new_log_id);
                    },
                }
            },
        }
    }

    /// The ids of the segments with no live keys, the greatest id excluded.
    pub fn stale_log_entries(&self) -> (r: Vec<u32>)
        requires
            self.inv(),
        ensures
            forall|id: u32|
                r@.contains(id) <==> (self.model().contains_key(id) && self.model()[id] == 0
                    && exists|o: u32| #[trigger] self.model().contains_key(o) && o > id),
            forall|x: int, y: int| 0 <= x < y < r@.len() ==> r@[x] < r@[y],
    {
        proof {
            lemma_counts_map_dom(self.alive_log_keys@);
        }
        let mut r: Vec<u32> = Vec::new();
        if self.alive_log_keys.len() == 0 {
            return r;
        }
        let n = self.alive_log_keys.len() - 1;
        let mut i: usize = 0;
        while i < n
            invariant
                self.inv(),
                n == self.alive_log_keys@.len() - 1,
                i <= n,
                forall|j: int|
                    0 <= j < i && (#[trigger] self.alive_log_keys@[j]).1 == 0 ==> r@.contains(
                        self.alive_log_keys@[j].0,
                    ),
                forall|id: u32|
                    r@.contains(id) ==> exists|j: int|
                        0 <= j < i && (#[trigger] self.alive_log_keys@[j]).0 == id
                            && self.alive_log_keys@[j].1 == 0,
                forall|x: int, y: int| 0 <= x < y < r@.len() ==> r@[x] < r@[y],
            decreases n - i,
        {
            let ghost r_pre = r@;
            if self.alive_log_keys[i].1 == 0 {
                r.push(self.alive_log_keys[i].0);
                proof {
                    assert(r@ == r_pre.push(self.alive_log_keys@[i as int].0));
                    assert(r@[r@.len() - 1] == self.alive_log_keys@[i as int].0);
                    assert forall|id: u32| r@.contains(id) implies r_pre.contains(id) || id
                        == self.alive_log_keys@[i as int].0 by {
                        let x = choose|x: int| 0 <= x < r@.len() && r@[x] == id;
                        if x < r@.len() - 1 {
                            assert(r_pre[x] == id);
                        }
                    }
                    assert forall|id: u32| r_pre.contains(id) implies r@.contains(id) by {
                        let x = choose|x: int| 0 <= x < r_pre.len() && r_pre[x] == id;
                        assert(r@[x] == id);
                    }
                    assert forall|x: int, y: int|
                        0 <= x < y < r@.len() implies r@[x] < r@[y] by {
                        if y == r@.len() - 1 {
                            assert(r_pre.contains(r_pre[x]));
                            let j = choose|j: int|
                                0 <= j < i && (#[trigger] self.alive_log_keys@[j]).0 == r_pre[x]
                                    && self.alive_log_keys@[j].1 == 0;
                            assert(self.alive_log_keys@[j].0 < self.alive_log_keys@[i as int].0);
                        } else {
                            assert(r@[x] == r_pre[x]);
                            assert(r@[y] == r_pre[y]);
                        }
                    }
                }
            }
            proof {
                let s = self.alive_log_keys@;
                assert forall|id: u32| r@.contains(id) implies exists|j: int|
                    0 <= j < i + 1 && (#[trigger] s[j]).0 == id && s[j].1 == 0 by {
                    if r_pre.contains(id) {
                        let j = choose|j: int|
                            0 <= j < i && (#[trigger] s[j]).0 == id && s[j].1 == 0;
                        assert(0 <= j < i + 1 && s[j].0 == id && s[j].1 == 0);
                    } else {
                        assert(id == s[i as int].0 && s[i as int].1 == 0);
                        assert(0 <= i < i + 1 && s[i as int].0 == id && s[i as int].1 == 0);
                    }
                }
            }
            i = i + 1;
        }
        proof {
            let s = self.alive_log_keys@;
            assert forall|id: u32|
                r@.contains(id) implies (self.model().contains_key(id) && self.model()[id] == 0
                && exists|o: u32| #[trigger] self.model().contains_key(o) && o > id) by {
                let j = choose|j: int| 0 <= j < n && (#[trigger] s[j]).0 == id && s[j].1 == 0;
                lemma_counts_map_index(s, j);
                lemma_counts_map_index(s, s.len() - 1);
                assert(s[j].0 < s[s.len() - 1].0);
                assert(self.model().contains_key(s[s.len() - 1].0) && s[s.len() - 1].0 > id);
            }
            assert forall|id: u32|
                (self.model().contains_key(id) && self.model()[id] == 0 && exists|o: u32|
                    #[trigger] self.model().contains_key(o) && o > id) implies r@.contains(id) by {
                let j = choose|j: int| 0 <= j < s.len() && (#[trigger] s[j]).0 == id;
                lemma_counts_map_index(s, j);
                if j == s.len() - 1 {
                    let o = choose|o: u32| #[trigger] self.model().contains_key(o) && o > id;
                    let jo = choose|jo: int| 0 <= jo < s.len() && (#[trigger] s[jo]).0 == o;
                    assert(s[jo].0 <= s[s.len() - 1].0);
                    assert(false);
                } else {
                    assert(r@.contains(s[j].0));
                }
            }
        }
        r
    }

    /// The (segment id, live count) pairs, in ascending id order.
    pub fn entries(&self) -> (r: Vec<(u32, usize)>)
        requires
            self.inv(),
        ensures
            forall|i: int|
                0 <= i < r@.len() ==> #[trigger] self.model().contains_key(r@[i].0)
                    && self.model()[r@[i].0] == r@[i].1,
            forall|i: int, j: int| 0 <= i < j < r@.len() ==> r@[i].0 < r@[j].0,
            forall|sid: u32| #[trigger]
                self.model().contains_key(sid) ==> exists|i: int|
                    0 <= i < r@.len() && (#[trigger] r@[i]).0 == sid,
    {
        proof {
            lemma_counts_map_dom(self.alive_log_keys@);
        }
        let mut r: Vec<(u32, usize)> = Vec::new();
        let mut i: usize = 0;
        while i < self.alive_log_keys.len()
            invariant
                i <= self.alive_log_keys@.len(),
                r@ == self.alive_log_keys@.subrange(0, i as int),
                self.inv(),
            decreases self.alive_log_keys@.len() - i,
        {
            let p = self.alive_log_keys[i];
            r.push(p);
            proof {
                assert(self.alive_log_keys@.subrange(0, i as int + 1) =~= self.alive_log_keys@.subrange(
                    0,
                    i as int,
                ).push(self.alive_log_keys@[i as int]));
            }
            i = i + 1;
        }
        proof {
            assert(r@ =~= self.alive_log_keys@);
            assert forall|x: int| 0 <= x < r@.len() implies #[trigger] self.model().contains_key(
                r@[x].0,
            ) && self.model()[r@[x].0] == r@[x].1 by {
                lemma_counts_map_index(self.alive_log_keys@, x);
            }
            assert forall|sid: u32| #[trigger] self.model().contains_key(sid) implies exists|x: int|
                0 <= x < r@.len() && (#[trigger] r@[x]).0 == sid by {
                let x = choose|x: int|
                    0 <= x < self.alive_log_keys@.len() && self.alive_log_keys@[x].0 == sid;
                assert(r@[x].0 == sid);
            }
        }
        r
    }

    /// Forgets the given segment ids.
    pub fn drop_log_entries(&mut self, entries: &[u32])
        requires
            old(self).inv(),
        ensures
            final(self).inv(),
            forall|id: u32|
                #![trigger final(self).model().contains_key(id)]
                final(self).model().contains_key(id) <==> (old(self).model().contains_key(id)
                    && !entries@.contains(id)),
            forall|id: u32|
                #![trigger final(self).model().contains_key(id)]
                final(self).model().contains_key(id) ==> final(self).model()[id] == old(
                    self,
                ).model()[id],
    {
        let mut k: usize = 0;
        while k < entries.len()
            invariant
                k <= entries@.len(),
                self.inv(),
                forall|id: u32|
                    self.model().contains_key(id) <==> (old(self).model().contains_key(id)
                        && !entries@.subrange(0, k as int).contains(id)),
                forall|id: u32|
                    self.model().contains_key(id) ==> self.model()[id] == old(self).model()[id],
            decreases entries@.len() - k,
        {
            let ghost pre = self.model();
            let ghost pre_seq = self.alive_log_keys@;
            let found = self.find(entries[k]);
            match found {
                Some(i) => {
                    proof {
                        lemma_counts_map_remove(pre_seq, i as int);
                        lemma_ids_increasing_remove(pre_seq, i as int);
                    }
                    self.alive_log_keys.remove(i);
                },
                None => {},
            }
            proof {
                let sub_k = entries@.subrange(0, k as int);
                let sub_k1 = entries@.subrange(0, k as int + 1);
                assert(sub_k1 =~= sub_k.push(entries@[k as int]));
                assert forall|id: u32| sub_k1.contains(id) implies sub_k.contains(id) || id
                    == entries@[k as int] by {
                    let x = choose|x: int| 0 <= x < sub_k1.len() && sub_k1[x] == id;
                    if x < sub_k1.len() - 1 {
                        assert(sub_k[x] == id);
                    }
                }
                assert forall|id: u32| sub_k.contains(id) implies sub_k1.contains(id) by {
                    let x = choose|x: int| 0 <= x < sub_k.len() && sub_k[x] == id;
                    assert(sub_k1[x] == id);
                }
                assert(sub_k1.contains(entries@[k as int])) by {
                    assert(sub_k1[sub_k1.len() - 1] == entries@[k as int]);
                }
            }
            k = k + 1;
        }
        proof {
            assert(entries@.subrange(0, entries@.len() as int) =~= entries@);
        }
    }
}

} // verus!

verus! {

/// The keys of `m` whose entry lives in segment `sid`.
pub open spec fn live_keys(m: Map<Seq<u8>, KeydirEntry>, sid: u32) -> Set<Seq<u8>> {
    m.dom().filter(|k: Seq<u8>| m[k].file_id == sid)
}

/// How inserting a binding changes each segment's live-key set.
pub proof fn lemma_live_keys_insert(
    m: Map<Seq<u8>, KeydirEntry>,
    k: Seq<u8>,
    e: KeydirEntry,
    sid: u32,
)
    ensures
        sid == e.file_id ==> live_keys(m.insert(k, e), sid) == live_keys(m, sid).insert(k),
        sid != e.file_id ==> live_keys(m.insert(k, e), sid) == live_keys(m, sid).remove(k),
{
    if sid == e.file_id {
        assert(live_keys(m.insert(k, e), sid) =~= live_keys(m, sid).insert(k));
    } else {
        assert(live_keys(m.insert(k, e), sid) =~= live_keys(m, sid).remove(k));
    }
}

/// How removing a binding changes each segment's live-key set.
pub proof fn lemma_live_keys_remove(m: Map<Seq<u8>, KeydirEntry>, k: Seq<u8>, sid: u32)
    ensures
        live_keys(m.remove(k), sid) == live_keys(m, sid).remove(k),
{
    assert(live_keys(m.remove(k), sid) =~= live_keys(m, sid).remove(k));
}

/// A finite domain keeps every live-key set finite and no larger than the
/// whole key set.
pub proof fn lemma_live_keys_finite(m: Map<Seq<u8>, KeydirEntry>, sid: u32)
    requires
        m.dom().finite(),
    ensures
        live_keys(m, sid).finite(),
        live_keys(m, sid).len() <= m.dom().len(),
{
    m.dom().lemma_len_filter(|k: Seq<u8>| m[k].file_id == sid);
}

/// Appends the bytes of a slice to a buffer.
fn append_bytes(dst: &mut Vec<u8>, src: &[u8])
    ensures
        final(dst)@ == old(dst)@ + src@,
{
    let mut i: usize = 0;
    while i < src.len()
        invariant
            i <= src@.len(),
            dst@ == old(dst)@ + src@.subrange(0, i as int),
        decreases src@.len() - i,
    {
        let b = src[i];
        dst.push(b);
        proof {
            assert(old(dst)@ + src@.subrange(0, i + 1) =~= (old(dst)@ + src@.subrange(
                0,
                i as int,
            )).push(src@[i as int]));
        }
        i = i + 1;
    }
    proof {
        assert(src@.subrange(0, src@.len() as int) =~= src@);
    }
}

/// Storage trait.
pub trait Storage: Sized {
    /// The engine's invariant.
    spec fn inv(&self) -> bool;

    /// The logical key-to-value mapping the store represents.
    spec fn logical(&self) -> Map<Seq<u8>, Seq<u8>>;

    /// Gets an entry from the storage.
    fn get(&self, k: &[u8]) -> (r: Result<Option<Vec<u8>>, StorageError>)
        requires
            self.inv(),
        ensures
            (match r {
                Ok(Some(v)) => self.logical().contains_key(k@) && v@ == self.logical()[k@],
                Ok(None) => !self.logical().contains_key(k@),
                Err(_) => false,
            }),
    ;

    /// Puts an entry into the storage. An empty value writes a tombstone
    /// and so removes the key.
    fn put(&mut self, k: Vec<u8>, v: Vec<u8>) -> (r: Result<(), StorageError>)
        requires
            old(self).inv(),
            k@.len() <= u32::MAX,
            v@.len() <= u32::MAX,
        ensures
            final(self).inv(),
            r is Ok,
            v@.len() > 0 ==> final(self).logical() == old(self).logical().insert(k@, v@),
            v@.len() == 0 ==> final(self).logical() == old(self).logical().remove(k@),
    ;

    /// Removes an entry from the storage.
    fn remove(&mut self, k: &[u8]) -> (r: Result<(), StorageError>)
        requires
            old(self).inv(),
            k@.len() <= u32::MAX,
        ensures
            final(self).inv(),
            r is Ok,
            final(self).logical() == old(self).logical().remove(k@),
    ;
}

/// Disk storage: the Bitcask-style engine over in-memory segment buffers.
#[derive(Debug)]
pub struct DiskStorage<K: Keydir> {
    keydir: K,
    /// The log segments, in ascending id order; the last is active.
    log_files: Vec<LogSegment>,
    storage_stats: DiskStorageStats,
    opts: DbOptions,
}

impl<K: Keydir> DiskStorage<K> {
    /// The segments as the recovery model sees them.
    pub closed spec fn segs(&self) -> Seq<LogSegment> {
        self.log_files@
    }

    /// The segment ids, in position order.
    pub closed spec fn seg_ids(&self) -> Seq<u32> {
        Seq::new(self.log_files@.len(), |i: int| self.log_files@[i].id)
    }

    /// The keydir's mathematical map.
    pub closed spec fn kd(&self) -> Map<Seq<u8>, KeydirEntry> {
        self.keydir.model()
    }

    /// The stats' mathematical map.
    pub closed spec fn stats_model(&self) -> Map<u32, usize> {
        self.storage_stats.model()
    }

    /// The rotation threshold this store was opened with.
    pub closed spec fn spec_max_log_file_size(&self) -> usize {
        self.opts.max_log_file_size
    }

    /// Whether a segment with this id is in the segment set.
    pub closed spec fn has_seg(&self, sid: u32) -> bool {
        exists|i: int|
            0 <= i < self.log_files@.len() && (#[trigger] self.log_files@[i]).id == sid
    }

    /// The position of the segment with this id.
    pub closed spec fn seg_index(&self, sid: u32) -> int {
        choose|i: int|
            0 <= i < self.log_files@.len() && (#[trigger] self.log_files@[i]).id == sid
    }

    /// The bytes of the segment with this id.
    pub closed spec fn seg_data(&self, sid: u32) -> Seq<u8> {
        self.log_files@[self.seg_index(sid)].data@
    }

    /// The id of the active segment: the greatest one.
    pub closed spec fn active_id(&self) -> u32 {
        self.log_files@.last().id
    }

    /// Whether the segment ids are strictly increasing.
    pub closed spec fn ids_sorted(&self) -> bool {
        forall|i: int, j: int|
            0 <= i < j < self.log_files@.len() ==> (#[trigger] self.log_files@[i]).id < (
            #[trigger] self.log_files@[j]).id
    }

    /// Whether a keydir entry points at a whole, non-empty value inside a
    /// known segment.
    pub closed spec fn entry_ok(&self, e: KeydirEntry) -> bool {
        &&& self.has_seg(e.file_id)
        &&& e.value_size > 0
        &&& e.value_size <= u32::MAX
        &&& e.value_pos + e.value_size <= self.seg_data(e.file_id).len()
    }

    /// The value bytes a keydir entry points at.
    pub closed spec fn value_at(&self, e: KeydirEntry) -> Seq<u8> {
        self.seg_data(e.file_id).subrange(
            e.value_pos as int,
            e.value_pos as int + e.value_size as int,
        )
    }

    /// Whether every segment's bytes split into whole records.
    pub open spec fn segs_parse(&self) -> bool {
        forall|i: int|
            0 <= i < self.segs().len() ==> can_parse((#[trigger] self.segs()[i]).data@, 0)
    }

    /// The engine's well-formedness: at least one segment, ids strictly
    /// increasing, every keydir entry whole inside a known segment, and the
    /// stats holding exactly the live-key count of every known segment.
    pub closed spec fn wf(&self) -> bool {
        &&& self.log_files@.len() > 0
        &&& self.ids_sorted()
        &&& self.keydir.inv()
        &&& self.storage_stats.inv()
        &&& (forall|k: Seq<u8>| #[trigger]
            self.kd().contains_key(k) ==> self.entry_ok(self.kd()[k]))
        &&& (forall|sid: u32| #[trigger]
            self.storage_stats.model().contains_key(sid) <==> self.has_seg(sid))
        &&& (forall|sid: u32|
            self.has_seg(sid) ==> #[trigger] self.storage_stats.model()[sid] == live_keys(
                self.kd(),
                sid,
            ).len())
    }

    /// The logical mapping: each live key to the bytes its entry points at.
    pub closed spec fn logical_map(&self) -> Map<Seq<u8>, Seq<u8>> {
        Map::new(
            |k: Seq<u8>| self.kd().contains_key(k),
            |k: Seq<u8>| self.value_at(self.kd()[k]),
        )
    }

    /// With sorted ids, each position is found again by its id.
    proof fn lemma_seg_at(&self, i: int)
        requires
            self.ids_sorted(),
            0 <= i < self.log_files@.len(),
        ensures
            self.has_seg(self.log_files@[i].id),
            self.seg_index(self.log_files@[i].id) == i,
            self.seg_data(self.log_files@[i].id) == self.log_files@[i].data@,
    {
        let sid = self.log_files@[i].id;
        assert(self.has_seg(sid));
        let j = self.seg_index(sid);
        if j < i {
            assert(self.log_files@[j].id < self.log_files@[i].id);
        } else if j > i {
            assert(self.log_files@[i].id < self.log_files@[j].id);
        }
    }

    /// The public bridge from the segment list to the store's spec model:
    /// the active segment is the last and greatest, and each listed segment
    /// is found again under its id.
    pub proof fn lemma_segments_model(&self)
        requires
            self.wf(),
        ensures
            self.segs().len() > 0,
            self.active_id() == self.segs().last().id,
            forall|i: int, j: int|
                0 <= i < j < self.segs().len() ==> (#[trigger] self.segs()[i]).id < (
                #[trigger] self.segs()[j]).id,
            forall|i: int|
                0 <= i < self.segs().len() ==> #[trigger] self.has_seg(self.segs()[i].id)
                    && self.seg_data(self.segs()[i].id) == self.segs()[i].data@,
            forall|sid: u32| #[trigger]
                self.has_seg(sid) ==> exists|i: int|
                    0 <= i < self.segs().len() && (#[trigger] self.segs()[i]).id == sid,
    {
        assert forall|i: int|
            0 <= i < self.segs().len() implies #[trigger] self.has_seg(self.segs()[i].id)
            && self.seg_data(self.segs()[i].id) == self.segs()[i].data@ by {
            self.lemma_seg_at(i);
        }
        assert forall|sid: u32| #[trigger] self.has_seg(sid) implies exists|i: int|
            0 <= i < self.segs().len() && (#[trigger] self.segs()[i]).id == sid by {
            let i = choose|i: int|
                0 <= i < self.log_files@.len() && (#[trigger] self.log_files@[i]).id == sid;
            assert(self.segs()[i].id == sid);
        }
    }

    /// The position of the segment with the given id, if any.
    fn find_segment(&self, sid: u32) -> (r: Option<usize>)
        ensures
            (match r {
                Some(i) => i < self.log_files@.len() && self.log_files@[i as int].id == sid,
                None => !self.has_seg(sid),
            }),
    {
        let mut i: usize = 0;
        while i < self.log_files.len()
            invariant
                i <= self.log_files@.len(),
                forall|j: int| 0 <= j < i ==> (#[trigger] self.log_files@[j]).id != sid,
            decreases self.log_files@.len() - i,
        {
            if self.log_files[i].id == sid {
                return Some(i);
            }
            i = i + 1;
        }
        None
    }

    /// The per-segment live-key counts.
    pub fn storage_stats(&self) -> (r: &DiskStorageStats)
        ensures
            r.model() == self.stats_model(),
            self.wf() ==> r.inv(),
    {
        &self.storage_stats
    }

    /// The active segment: the one with the greatest id.
    pub fn active_segment(&self) -> (r: &LogSegment)
        requires
            self.wf(),
        ensures
            r.id == self.active_id(),
            r.data@ == self.seg_data(self.active_id()),
    {
        proof {
            self.lemma_seg_at(self.log_files@.len() - 1);
        }
        let last = self.log_files.len() - 1;
        &self.log_files[last]
    }

    /// The segments themselves, in ascending id order.
    pub fn segments(&self) -> (r: &Vec<LogSegment>)
        ensures
            r@ == self.segs(),
    {
        &self.log_files
    }

    /// The ids of all segments, in ascending order.
    pub fn segment_ids(&self) -> (r: Vec<u32>)
        ensures
            r@.len() == self.segs().len(),
            forall|i: int| 0 <= i < r@.len() ==> r@[i] == (#[trigger] self.segs()[i]).id,
    {
        let mut r: Vec<u32> = Vec::new();
        let mut i: usize = 0;
        while i < self.log_files.len()
            invariant
                i <= self.log_files@.len(),
                r@.len() == i,
                forall|j: int| 0 <= j < i ==> r@[j] == (#[trigger] self.log_files@[j]).id,
            decreases self.log_files@.len() - i,
        {
            r.push(self.log_files[i].id);
            i = i + 1;
        }
        r
    }

    /// Collect garbage.
    ///
    /// Removes logs without alive entries. The active segment is never
    /// removed, whatever its count.
    fn gc(&mut self)
        requires
            old(self).wf(),
        ensures
            final(self).wf(),
            final(self).kd() == old(self).kd(),
            final(self).logical_map() == old(self).logical_map(),
            final(self).active_id() == old(self).active_id(),
            final(self).spec_max_log_file_size() == old(self).spec_max_log_file_size(),
            forall|sid: u32| #[trigger]
                final(self).has_seg(sid) ==> old(self).has_seg(sid) && final(self).seg_data(sid)
                    == old(self).seg_data(sid),
            forall|sid: u32|
                old(self).has_seg(sid) && !(#[trigger] final(self).has_seg(sid)) ==> live_keys(
                    old(self).kd(),
                    sid,
                ).len() == 0 && sid != old(self).active_id(),
            forall|sid: u32| #[trigger]
                final(self).has_seg(sid) && sid != final(self).active_id() ==> live_keys(
                    final(self).kd(),
                    sid,
                ).len() > 0,
    {
        let ghost orig = *old(self);
        let stale_logs = self.storage_stats.stale_log_entries();
        let ghost stale_seq = stale_logs@;
        proof {
            orig.lemma_seg_at(orig.log_files@.len() - 1);
        }
        let mut idx: usize = 0;
        while idx < stale_logs.len()
            invariant
                idx <= stale_seq.len(),
                stale_logs@ == stale_seq,
                self.keydir == orig.keydir,
                self.storage_stats == orig.storage_stats,
                self.opts == orig.opts,
                orig.wf(),
                forall|id: u32|
                    stale_seq.contains(id) <==> (orig.storage_stats.model().contains_key(id)
                        && orig.storage_stats.model()[id] == 0 && exists|o: u32| #[trigger]
                        orig.storage_stats.model().contains_key(o) && o > id),
                self.log_files@.len() > 0,
                self.ids_sorted(),
                self.log_files@.last() == orig.log_files@.last(),
                forall|j: int|
                    0 <= j < self.log_files@.len() ==> exists|i: int|
                        0 <= i < orig.log_files@.len() && orig.log_files@[i] == (
                        #[trigger] self.log_files@[j]),
                forall|sid: u32|
                    orig.has_seg(sid) && !stale_seq.subrange(0, idx as int).contains(sid)
                        ==> #[trigger] self.has_seg(sid),
                forall|sid: u32| #[trigger]
                    self.has_seg(sid) ==> !stale_seq.subrange(0, idx as int).contains(sid),
            decreases stale_seq.len() - idx,
        {
            let sid = stale_logs[idx];
            let found = self.find_segment(sid);
            let ghost pre = self.log_files@;
            match found {
                Some(i) => {
                    proof {
                        // The stale id is below the greatest id, so it is
                        // not the last position.
                        assert(stale_seq.contains(sid)) by {
                            assert(stale_seq[idx as int] == sid);
                        }
                        let o = choose|o: u32| #[trigger]
                            orig.storage_stats.model().contains_key(o) && o > sid;
                        assert(orig.has_seg(o));
                        let io = choose|io: int|
                            0 <= io < orig.log_files@.len() && (#[trigger] orig.log_files@[io]).id
                                == o;
                        assert(orig.log_files@.last() == orig.log_files@[orig.log_files@.len()
                            - 1]);
                        if io < orig.log_files@.len() - 1 {
                            assert(orig.log_files@[io].id < orig.log_files@[orig.log_files@.len()
                                - 1].id);
                        }
                        assert(orig.log_files@.last().id > sid);
                        assert(pre[i as int].id == sid);
                        assert(pre[pre.len() - 1] == orig.log_files@.last());
                        assert(i < pre.len() - 1);
                        // Bridge the per-id facts onto the plain sequence
                        // before the element is removed.
                        assert forall|s2: u32|
                            orig.has_seg(s2) && !stale_seq.subrange(0, idx as int).contains(
                                s2,
                            ) implies exists|x: int|
                            0 <= x < pre.len() && (#[trigger] pre[x]).id == s2 by {
                            assert(self.has_seg(s2));
                        }
                        assert forall|x: int| 0 <= x < pre.len() implies !stale_seq.subrange(
                            0,
                            idx as int,
                        ).contains((#[trigger] pre[x]).id) by {
                            assert(self.has_seg(pre[x].id));
                        }
                    }
                    self.log_files.remove(i);
                    proof {
                        assert(self.log_files@ == pre.remove(i as int));
                        assert forall|a: int, b: int|
                            0 <= a < b < self.log_files@.len() implies (
                        #[trigger] self.log_files@[a]).id < (#[trigger] self.log_files@[b]).id by {
                            let a0 = if a < i { a } else { a + 1 };
                            let b0 = if b < i { b } else { b + 1 };
                            assert(self.log_files@[a] == pre[a0]);
                            assert(self.log_files@[b] == pre[b0]);
                        }
                        assert(self.log_files@[self.log_files@.len() - 1] == pre[pre.len() - 1]);
                        assert forall|j: int| 0 <= j < self.log_files@.len() implies exists|x: int|
                            0 <= x < pre.len() && pre[x] == (#[trigger] self.log_files@[j]) by {
                            let j0 = if j < i { j } else { j + 1 };
                            assert(pre[j0] == self.log_files@[j]);
                        }
                        assert forall|s2: u32|
                            orig.has_seg(s2) && !stale_seq.subrange(0, idx as int + 1).contains(
                                s2,
                            ) implies #[trigger] self.has_seg(s2) by {
                            assert(stale_seq.subrange(0, idx as int + 1) =~= stale_seq.subrange(
                                0,
                                idx as int,
                            ).push(sid));
                            assert(stale_seq.subrange(0, idx as int + 1)[idx as int] == sid);
                            assert(s2 != sid);
                            assert(!stale_seq.subrange(0, idx as int).contains(s2)) by {
                                if stale_seq.subrange(0, idx as int).contains(s2) {
                                    let x = choose|x: int|
                                        0 <= x < idx && (#[trigger] stale_seq.subrange(
                                            0,
                                            idx as int,
                                        )[x]) == s2;
                                    assert(stale_seq.subrange(0, idx as int + 1)[x] == s2);
                                }
                            }
                            let jw = choose|jw: int|
                                0 <= jw < pre.len() && (#[trigger] pre[jw]).id == s2;
                            assert(pre[jw].id != pre[i as int].id);
                            assert(jw != i);
                            if jw < i {
                                assert(self.log_files@[jw] == pre[jw]);
                            } else {
                                assert(self.log_files@[jw - 1] == pre[jw]);
                            }
                        }
                        assert forall|s2: u32| #[trigger]
                            self.has_seg(s2) implies !stale_seq.subrange(0, idx as int + 1).contains(
                            s2,
                        ) by {
                            let j = choose|j: int|
                                0 <= j < self.log_files@.len() && (#[trigger] self.log_files@[j]).id
                                    == s2;
                            let j0 = if j < i { j } else { j + 1 };
                            assert(pre[j0] == self.log_files@[j]);
                            assert(s2 != sid) by {
                                if s2 == sid {
                                    assert(pre[j0].id == pre[i as int].id);
                                    assert(j0 != i);
                                    if j0 < i {
                                        assert(pre[j0].id < pre[i as int].id);
                                    } else {
                                        assert(pre[i as int].id < pre[j0].id);
                                    }
                                }
                            }
                            if stale_seq.subrange(0, idx as int + 1).contains(s2) {
                                let x = choose|x: int|
                                    0 <= x <= idx && (#[trigger] stale_seq.subrange(0, idx as int + 1)[x]) == s2;
                                if x < idx {
                                    assert(stale_seq.subrange(0, idx as int)[x] == s2);
                                    assert(stale_seq.subrange(0, idx as int).contains(s2));
                                    assert(!stale_seq.subrange(0, idx as int).contains(
                                        pre[j0].id,
                                    ));
                                    assert(false);
                                } else {
                                    assert(s2 == sid);
                                }
                            }
                        }
                    }
                },
                None => {
                    proof {
                        assert forall|s2: u32|
                            orig.has_seg(s2) && !stale_seq.subrange(0, idx as int + 1).contains(
                                s2,
                            ) implies #[trigger] self.has_seg(s2) by {
                            assert(stale_seq.subrange(0, idx as int + 1) =~= stale_seq.subrange(
                                0,
                                idx as int,
                            ).push(sid));
                            assert(!stale_seq.subrange(0, idx as int).contains(s2)) by {
                                if stale_seq.subrange(0, idx as int).contains(s2) {
                                    let x = choose|x: int|
                                        0 <= x < idx && stale_seq.subrange(0, idx as int)[x] == s2;
                                    assert(stale_seq.subrange(0, idx as int + 1)[x] == s2);
                                }
                            }
                        }
                        assert forall|s2: u32| #[trigger]
                            self.has_seg(s2) implies !stale_seq.subrange(0, idx as int + 1).contains(
                            s2,
                        ) by {
                            assert(s2 != sid);
                            if stale_seq.subrange(0, idx as int + 1).contains(s2) {
                                let x = choose|x: int|
                                    0 <= x <= idx && (#[trigger] stale_seq.subrange(0, idx as int + 1)[x]) == s2;
                                if x < idx {
                                    assert(stale_seq.subrange(0, idx as int)[x] == s2);
                                } else {
                                    assert(s2 == sid);
                                }
                            }
                        }
                    }
                },
            }
            idx = idx + 1;
        }
        proof {
            assert(stale_seq.subrange(0, stale_seq.len() as int) =~= stale_seq);
        }
        let ghost post_loop = *self;
        let stale_slice = stale_logs.as_slice();
        self.storage_stats.drop_log_entries(stale_slice);
        proof {
            let fin = *self;
            assert(stale_slice@ == stale_seq);
            assert forall|id: u32| #[trigger]
                stale_seq.contains(id) == stale_slice@.contains(id) by {}
            assert(fin.log_files@ == post_loop.log_files@);
            assert forall|sid: u32| #[trigger] fin.has_seg(sid) <==> post_loop.has_seg(sid) by {
                if post_loop.has_seg(sid) {
                    let i = choose|i: int|
                        0 <= i < post_loop.log_files@.len() && (#[trigger] post_loop.log_files@[i]).id
                            == sid;
                    assert(fin.log_files@[i].id == sid);
                }
                if fin.has_seg(sid) {
                    let i = choose|i: int|
                        0 <= i < fin.log_files@.len() && (#[trigger] fin.log_files@[i]).id == sid;
                    assert(post_loop.log_files@[i].id == sid);
                }
            }
            self.keydir.lemma_model_finite();
            fin.lemma_seg_at(fin.log_files@.len() - 1);
            orig.lemma_seg_at(orig.log_files@.len() - 1);
            // Kept segments keep their bytes.
            assert forall|sid: u32| #[trigger] fin.has_seg(sid) implies orig.has_seg(sid)
                && fin.seg_data(sid) == orig.seg_data(sid) by {
                let j = fin.seg_index(sid);
                fin.lemma_seg_at(j);
                let x = choose|x: int|
                    0 <= x < orig.log_files@.len() && orig.log_files@[x] == (
                    #[trigger] fin.log_files@[j]);
                orig.lemma_seg_at(x);
            }
            // A key's own segment is never dropped.
            assert(fin.kd() == orig.kd());
            assert forall|k: Seq<u8>| #[trigger] fin.kd().contains_key(k) implies fin.entry_ok(
                fin.kd()[k],
            ) by {
                assert(orig.kd().contains_key(k));
                let e = fin.kd()[k];
                assert(orig.entry_ok(e));
                lemma_live_keys_finite(orig.kd(), e.file_id);
                let live = live_keys(orig.kd(), e.file_id);
                assert(live.contains(k));
                assert(live.remove(k).len() == live.len() - 1);
                assert(orig.storage_stats.model()[e.file_id] > 0);
                assert(!stale_seq.contains(e.file_id));
                assert(orig.has_seg(e.file_id));
                assert(post_loop.has_seg(e.file_id));
                assert(fin.has_seg(e.file_id));
                let j = fin.seg_index(e.file_id);
                fin.lemma_seg_at(j);
            }
            // Dropped segments had no live keys and were not active.
            assert forall|sid: u32|
                orig.has_seg(sid) && !(#[trigger] fin.has_seg(sid)) implies live_keys(
                orig.kd(),
                sid,
            ).len() == 0 && sid != orig.active_id() by {
                assert(!post_loop.has_seg(sid));
                assert(stale_seq.contains(sid));
                assert(orig.storage_stats.model()[sid] == 0);
                assert(orig.active_id() == orig.log_files@.last().id);
                let jo = orig.seg_index(sid);
                orig.lemma_seg_at(jo);
                if sid == orig.active_id() {
                    let o = choose|o: u32| #[trigger]
                        orig.storage_stats.model().contains_key(o) && o > sid;
                    assert(orig.has_seg(o));
                    let io = choose|io: int|
                        0 <= io < orig.log_files@.len() && (#[trigger] orig.log_files@[io]).id
                            == o;
                    assert(orig.log_files@.last() == orig.log_files@[orig.log_files@.len() - 1]);
                    if io < orig.log_files@.len() - 1 {
                        assert(orig.log_files@[io].id < orig.log_files@[orig.log_files@.len()
                            - 1].id);
                    }
                    assert(false);
                }
            }
            // Stats and segment set agree again.
            assert forall|sid: u32| #[trigger]
                fin.storage_stats.model().contains_key(sid) <==> fin.has_seg(sid) by {
                if fin.storage_stats.model().contains_key(sid) {
                    assert(self.storage_stats.model().contains_key(sid));
                    assert(stale_slice@.contains(sid) || !stale_slice@.contains(sid));
                    assert(post_loop.storage_stats == orig.storage_stats);
                    assert(stale_logs@ == stale_seq);
                    assert(post_loop.storage_stats.model().contains_key(sid));
                    assert(orig.storage_stats.model().contains_key(sid));
                    assert(!stale_seq.contains(sid));
                    assert(orig.has_seg(sid));
                    assert(post_loop.has_seg(sid));
                }
                if fin.has_seg(sid) {
                    assert(post_loop.has_seg(sid));
                    let j = choose|j: int|
                        0 <= j < post_loop.log_files@.len() && (
                        #[trigger] post_loop.log_files@[j]).id == sid;
                    let x = choose|x: int|
                        0 <= x < orig.log_files@.len() && orig.log_files@[x] == (
                        #[trigger] post_loop.log_files@[j]);
                    assert(orig.log_files@[x].id == sid);
                    assert(orig.has_seg(sid));
                    assert(!stale_seq.contains(sid));
                    assert(!stale_slice@.contains(sid));
                    assert(self.storage_stats.model().contains_key(sid));
                }
            }
            assert(fin.log_files@.len() > 0);
            assert(fin.ids_sorted()) by {
                assert forall|a: int, b: int|
                    0 <= a < b < fin.log_files@.len() implies (#[trigger] fin.log_files@[a]).id < (
                #[trigger] fin.log_files@[b]).id by {
                    assert((#[trigger] post_loop.log_files@[a]).id < (
                    #[trigger] post_loop.log_files@[b]).id);
                }
            }
            assert forall|sid: u32|
                fin.has_seg(sid) implies #[trigger] fin.storage_stats.model()[sid] == live_keys(
                fin.kd(),
                sid,
            ).len() by {
                assert(fin.storage_stats.model().contains_key(sid));
                assert(self.storage_stats.model().contains_key(sid));
                assert(self.storage_stats.model()[sid] == post_loop.storage_stats.model()[sid]);
                assert(orig.has_seg(sid));
                assert(orig.storage_stats.model()[sid] == live_keys(orig.kd(), sid).len());
                assert(fin.kd() == orig.kd());
            }
            assert(fin.keydir.inv());
            assert(fin.storage_stats.inv());
            assert(fin.wf());
            assert(fin.active_id() == orig.active_id());
            assert(fin.logical_map() =~= orig.logical_map()) by {
                assert forall|kk: Seq<u8>| orig.kd().contains_key(kk) implies fin.value_at(
                    orig.kd()[kk],
                ) == orig.value_at(orig.kd()[kk]) by {
                    assert(orig.entry_ok(orig.kd()[kk]));
                    assert(fin.has_seg(orig.kd()[kk].file_id));
                }
            }
            // What stayed and is not active still has live keys.
            assert forall|sid: u32| #[trigger]
                fin.has_seg(sid) && sid != fin.active_id() implies live_keys(
                fin.kd(),
                sid,
            ).len() > 0 by {
                if live_keys(fin.kd(), sid).len() == 0 {
                    let j = fin.seg_index(sid);
                    fin.lemma_seg_at(j);
                    assert(orig.has_seg(sid));
                    assert(orig.storage_stats.model()[sid] == 0);
                    assert(orig.storage_stats.model().contains_key(orig.active_id()));
                    let jo = orig.seg_index(sid);
                    orig.lemma_seg_at(jo);
                    if jo < orig.log_files@.len() - 1 {
                        assert(orig.log_files@[jo].id < orig.log_files@.last().id);
                    }
                    assert(orig.active_id() > sid);
                    assert(stale_seq.contains(sid));
                    assert(false);
                }
            }
        }
    }

    /// Rotates the active log when the next record would push it past the
    /// size threshold, then runs a garbage-collection pass. Segment ids are
    /// 32-bit; at the very top of the id space no rotation happens and the
    /// active segment keeps growing.
    fn rotate_log(&mut self, k_size: usize, v_size: usize)
        requires
            old(self).wf(),
        ensures
            final(self).wf(),
            final(self).kd() == old(self).kd(),
            final(self).logical_map() == old(self).logical_map(),
            final(self).spec_max_log_file_size() == old(self).spec_max_log_file_size(),
            final(self).active_id() >= old(self).active_id(),
            ({
                let full = old(self).seg_data(old(self).active_id()).len() + HEADER_SIZE + k_size
                    + v_size > old(self).spec_max_log_file_size();
                if full && old(self).active_id() < u32::MAX {
                    final(self).active_id() == old(self).active_id() + 1 && final(self).seg_data(
                        final(self).active_id(),
                    ).len() == 0
                } else {
                    final(self).active_id() == old(self).active_id() && final(self).seg_data(
                        final(self).active_id(),
                    ) == old(self).seg_data(old(self).active_id())
                }
            }),
            forall|sid: u32| #[trigger]
                final(self).has_seg(sid) && old(self).has_seg(sid) ==> final(self).seg_data(sid)
                    == old(self).seg_data(sid),
            forall|sid: u32|
                old(self).has_seg(sid) && !(#[trigger] final(self).has_seg(sid)) ==> live_keys(
                    old(self).kd(),
                    sid,
                ).len() == 0,
            forall|sid: u32| #[trigger]
                final(self).has_seg(sid) && sid != final(self).active_id() ==> live_keys(
                    final(self).kd(),
                    sid,
                ).len() > 0,
            forall|sid: u32| #[trigger]
                final(self).has_seg(sid) ==> old(self).has_seg(sid) || sid
                    == final(self).active_id(),
    {
        proof {
            self.lemma_seg_at(self.log_files@.len() - 1);
        }
        let last = self.log_files.len() - 1;
        let active_file_id = self.log_files[last].id;
        let current = self.log_files[last].data.len();
        let over = (current as u128) + (HEADER_SIZE as u128) + (k_size as u128) + (
        v_size as u128) > (self.opts.max_log_file_size as u128);
        if over && active_file_id < u32::MAX {
            let new_active_file_id = active_file_id + 1;
            proof {
                assert forall|sid: u32| #[trigger] old(self).has_seg(sid) implies sid
                    <= active_file_id by {
                    let i = choose|i: int|
                        0 <= i < old(self).log_files@.len() && (#[trigger] old(
                            self,
                        ).log_files@[i]).id == sid;
                    if i < old(self).log_files@.len() - 1 {
                        assert(old(self).log_files@[i].id < old(self).log_files@.last().id);
                    }
                }
                assert(!self.storage_stats.model().contains_key(new_active_file_id));
            }
            self.storage_stats.new_log_entry(new_active_file_id);
            self.log_files.push(LogSegment { id: new_active_file_id, data: Vec::new() });
            proof {
                let mid = *self;
                self.keydir.lemma_model_finite();
                assert(mid.log_files@.drop_last() =~= old(self).log_files@);
                assert forall|a: int, b: int|
                    0 <= a < b < mid.log_files@.len() implies (#[trigger] mid.log_files@[a]).id < (
                #[trigger] mid.log_files@[b]).id by {
                    if b < mid.log_files@.len() - 1 {
                        assert(mid.log_files@[a] == old(self).log_files@[a]);
                        assert(mid.log_files@[b] == old(self).log_files@[b]);
                    } else {
                        assert(mid.log_files@[a] == old(self).log_files@[a]);
                        assert(old(self).has_seg(old(self).log_files@[a].id));
                    }
                }
                assert(mid.ids_sorted());
                assert forall|sid: u32| #[trigger]
                    mid.has_seg(sid) <==> (old(self).has_seg(sid) || sid == new_active_file_id) by {
                    if old(self).has_seg(sid) {
                        let i = choose|i: int|
                            0 <= i < old(self).log_files@.len() && (#[trigger] old(
                                self,
                            ).log_files@[i]).id == sid;
                        assert(mid.log_files@[i].id == sid);
                    }
                    if sid == new_active_file_id {
                        assert(mid.log_files@[mid.log_files@.len() - 1].id == sid);
                    }
                    if mid.has_seg(sid) {
                        let i = choose|i: int|
                            0 <= i < mid.log_files@.len() && (#[trigger] mid.log_files@[i]).id
                                == sid;
                        if i < mid.log_files@.len() - 1 {
                            assert(old(self).log_files@[i].id == sid);
                        }
                    }
                }
                assert forall|sid: u32|
                    old(self).has_seg(sid) implies mid.seg_data(sid) == #[trigger] old(
                    self,
                ).seg_data(sid) by {
                    let i = choose|i: int|
                        0 <= i < old(self).log_files@.len() && (#[trigger] old(
                            self,
                        ).log_files@[i]).id == sid;
                    old(self).lemma_seg_at(i);
                    mid.lemma_seg_at(i);
                    assert(mid.log_files@[i] == old(self).log_files@[i]);
                }
                mid.lemma_seg_at(mid.log_files@.len() - 1);
                assert(mid.active_id() == new_active_file_id);
                assert(mid.seg_data(new_active_file_id) =~= Seq::<u8>::empty());
                assert(live_keys(mid.kd(), new_active_file_id) =~= Set::<Seq<u8>>::empty()) by {
                    assert forall|kk: Seq<u8>| #[trigger] mid.kd().contains_key(kk) implies mid.kd()[kk].file_id
                        != new_active_file_id by {
                        assert(old(self).entry_ok(old(self).kd()[kk]));
                        assert(old(self).has_seg(old(self).kd()[kk].file_id));
                    }
                }
                assert(live_keys(mid.kd(), new_active_file_id).len() == 0) by {
                    assert(Set::<Seq<u8>>::empty().len() == 0);
                }
                assert forall|kk: Seq<u8>| #[trigger] mid.kd().contains_key(kk) implies mid.entry_ok(
                    mid.kd()[kk],
                ) by {
                    assert(old(self).entry_ok(old(self).kd()[kk]));
                }
                assert(mid.wf());
                assert(mid.logical_map() =~= old(self).logical_map()) by {
                    assert forall|kk: Seq<u8>| old(self).kd().contains_key(kk) implies mid.value_at(
                        old(self).kd()[kk],
                    ) == old(self).value_at(old(self).kd()[kk]) by {
                        assert(old(self).entry_ok(old(self).kd()[kk]));
                    }
                }
            }
        }
        let ghost mid2 = *self;
        self.gc();
        proof {
            final(self).lemma_seg_at(final(self).log_files@.len() - 1);
            assert(final(self).has_seg(final(self).active_id()));
            assert(final(self).seg_data(final(self).active_id()) == mid2.seg_data(
                mid2.active_id(),
            ));
            assert(final(self).logical_map() == old(self).logical_map());
            assert forall|sid: u32| #[trigger]
                final(self).has_seg(sid) && old(self).has_seg(sid) implies final(self).seg_data(
                sid,
            ) == old(self).seg_data(sid) by {
                assert(mid2.has_seg(sid));
                assert(final(self).seg_data(sid) == mid2.seg_data(sid));
            }
            assert forall|sid: u32|
                old(self).has_seg(sid) && !(#[trigger] final(self).has_seg(sid)) implies live_keys(
                old(self).kd(),
                sid,
            ).len() == 0 by {
                if mid2.has_seg(sid) {
                    assert(live_keys(mid2.kd(), sid).len() == 0);
                }
            }
            assert forall|sid: u32| #[trigger]
                final(self).has_seg(sid) implies old(self).has_seg(sid) || sid
                == final(self).active_id() by {
                assert(mid2.has_seg(sid));
                if over && active_file_id < u32::MAX {
                    let i = choose|i: int|
                        0 <= i < mid2.log_files@.len() && (#[trigger] mid2.log_files@[i]).id
                            == sid;
                    if i < mid2.log_files@.len() - 1 {
                        assert(old(self).log_files@[i].id == sid);
                        assert(old(self).has_seg(sid));
                    } else {
                        assert(sid == active_file_id + 1);
                        assert(final(self).active_id() == mid2.active_id());
                        assert(mid2.active_id() == active_file_id + 1);
                    }
                } else {
                    assert(mid2.log_files@ == old(self).log_files@);
                    let i = choose|i: int|
                        0 <= i < mid2.log_files@.len() && (#[trigger] mid2.log_files@[i]).id
                            == sid;
                    assert(old(self).log_files@[i].id == sid);
                }
            }
        }
    }
}

impl<K: Keydir + KeydirDefault> DiskStorage<K> {
    /// Ingests one segment's bytes into the keydir: scans whole records in
    /// offset order, installing entries for puts and dropping keys for
    /// tombstones. A short header, key or value at the tail is an error; a
    /// record whose value runs past the end of the segment is treated as
    /// torn too, so that every installed entry points at whole bytes.
    pub fn ingest_log(keydir: &mut K, file_id: u32, data: &[u8]) -> (r: Result<
        (),
        StorageError,
    >)
        requires
            old(keydir).inv(),
        ensures
            final(keydir).inv(),
            r is Ok <==> can_parse(data@, 0),
            r is Ok ==> final(keydir).model() == replay_map(
                old(keydir).model(),
                file_id,
                data@,
                0,
            ),
    {
        let n = data.len();
        let mut off: usize = 0;
        while off < n
            invariant
                off <= n,
                n == data@.len(),
                keydir.inv(),
                replay_map(old(keydir).model(), file_id, data@, 0) == replay_map(
                    keydir.model(),
                    file_id,
                    data@,
                    off as int,
                ),
                can_parse(data@, 0) <==> can_parse(data@, off as int),
            decreases n - off,
        {
            if n - off < 12 {
                proof {
                    assert(!can_parse(data@, off as int));
                }
                return Err(StorageError::IoError("torn record header at log tail".to_owned()));
            }
            let header_slice = slice_subrange(data, off, off + 12);
            let timestamp = u32_from_le_bytes(slice_subrange(header_slice, 0, 4));
            let key_size = u32_from_le_bytes(slice_subrange(header_slice, 4, 8)) as usize;
            let value_size = u32_from_le_bytes(slice_subrange(header_slice, 8, 12)) as usize;
            proof {
                assert(header_slice@ == data@.subrange(off as int, off as int + 12));
                assert(header_slice@.subrange(0, 4) == data@.subrange(off as int, off as int
                    + 12).subrange(0, 4));
            }
            if key_size > n - (off + 12) {
                proof {
                    assert(!can_parse(data@, off as int));
                }
                return Err(StorageError::IoError("torn record key at log tail".to_owned()));
            }
            let key_end = off + 12 + key_size;
            if value_size > n - key_end {
                proof {
                    assert(!can_parse(data@, off as int));
                }
                return Err(StorageError::IoError("torn record value at log tail".to_owned()));
            }
            let key = slice_to_vec(slice_subrange(data, off + 12, key_end));
            let value_pos = key_end as u64;
            let entry = KeydirEntry::new(file_id, value_size, value_pos, timestamp);
            let ghost m_pre = keydir.model();
            if value_size > 0 {
                let _prev = keydir.put(key, entry);
            } else {
                keydir.remove(key.as_slice());
            }
            proof {
                let o = off as int;
                let header = data@.subrange(o, o + 12);
                assert(crate::format::spec_header_ksz(header) == key_size);
                assert(crate::format::spec_header_vsz(header) == value_size);
                assert(crate::format::spec_header_ts(header) == timestamp);
                assert(key@ == data@.subrange(o + 12, o + 12 + key_size as int));
                let m2 = if value_size > 0 {
                    m_pre.insert(
                        key@,
                        KeydirEntry {
                            file_id,
                            value_size: value_size,
                            value_pos: (o + 12 + key_size as int) as u64,
                            timestamp,
                        },
                    )
                } else {
                    m_pre.remove(key@)
                };
                assert(keydir.model() == m2);
                assert(replay_map(m_pre, file_id, data@, o) == replay_map(
                    keydir.model(),
                    file_id,
                    data@,
                    o + 12 + key_size as int + value_size as int,
                ));
                assert(can_parse(data@, o) == can_parse(
                    data@,
                    o + 12 + key_size as int + value_size as int,
                ));
            }
            off = off + 12 + key_size + value_size;
        }
        proof {
            assert(can_parse(data@, n as int));
            assert(replay_map(keydir.model(), file_id, data@, n as int) == keydir.model());
        }
        Ok(())
    }

    /// Rebuilds the keydir and the stats from the segments found on disk,
    /// in ascending id order; creates segment 0 when none were found.
    #[verifier::rlimit(100)]
    #[verifier::spinoff_prover]
    pub fn build_keydir(segments: Vec<LogSegment>) -> (r: Result<
        (K, Vec<LogSegment>, DiskStorageStats),
        StorageError,
    >)
        requires
            forall|i: int, j: int|
                0 <= i < j < segments@.len() ==> (#[trigger] segments@[i]).id < (
                #[trigger] segments@[j]).id,
        ensures
            r is Ok <==> (forall|i: int|
                0 <= i < segments@.len() ==> can_parse((#[trigger] segments@[i]).data@, 0)),
            r matches Ok((kd, segs, stats)) ==> {
                &&& (if segments@.len() > 0 {
                    segs@ == segments@
                } else {
                    segs@.len() == 1 && segs@[0].id == 0 && segs@[0].data@.len() == 0
                })
                &&& segs@.len() > 0
                &&& (forall|i: int, j: int|
                    0 <= i < j < segs@.len() ==> (#[trigger] segs@[i]).id < (
                    #[trigger] segs@[j]).id)
                &&& kd.inv()
                &&& kd.model() == replay_all(segments@)
                &&& kd.model().dom().finite()
                &&& stats.inv()
                &&& (forall|sid: u32| #[trigger]
                    stats.model().contains_key(sid) <==> exists|i: int|
                        0 <= i < segs@.len() && (#[trigger] segs@[i]).id == sid)
                &&& (forall|sid: u32| #[trigger]
                    stats.model().contains_key(sid) ==> stats.model()[sid] == live_keys(
                        kd.model(),
                        sid,
                    ).len())
                &&& (forall|k: Seq<u8>| #[trigger]
                    kd.model().contains_key(k) ==> exists|i: int|
                        0 <= i < segs@.len() && {
                            let e = kd.model()[k];
                            &&& e.file_id == (#[trigger] segs@[i]).id
                            &&& e.value_size > 0
                            &&& e.value_size <= u32::MAX
                            &&& e.value_pos + e.value_size <= segs@[i].data@.len()
                        })
            },
    {
        let ghost segs0 = segments@;
        let mut log_files = segments;
        proof {
            assert(log_files@ == segs0);
        }
        let mut storage_stats = DiskStorageStats::new();
        let mut keydir = K::default_keydir();
        let mut i: usize = 0;
        while i < log_files.len()
            invariant
                i <= log_files@.len(),
                log_files@ == segs0,
                segs0 == segments@,
                forall|a: int, b: int|
                    0 <= a < b < segs0.len() ==> (#[trigger] segs0[a]).id < (
                    #[trigger] segs0[b]).id,
                keydir.inv(),
                storage_stats.inv(),
                keydir.model() == replay_all(segs0.subrange(0, i as int)),
                forall|sid: u32| #[trigger]
                    storage_stats.model().contains_key(sid) <==> exists|a: int|
                        0 <= a < i && (#[trigger] segs0[a]).id == sid,
                forall|sid: u32| #[trigger]
                    storage_stats.model().contains_key(sid) ==> storage_stats.model()[sid] == 0,
                forall|a: int| 0 <= a < i ==> can_parse((#[trigger] segs0[a]).data@, 0),
                forall|a: int| 0 <= a < i ==> (#[trigger] segs0[a]).data@.len() <= u64::MAX,
            decreases log_files@.len() - i,
        {
            let ghost m_pre = keydir.model();
            let sid = log_files[i].id;
            // reading the length bounds the segment's bytes by usize::MAX
            let _dn = log_files[i].data.len();
            let r = Self::ingest_log(&mut keydir, sid, log_files[i].data.as_slice());
            match r {
                Ok(()) => {},
                Err(e) => {
                    proof {
                        assert(!can_parse(segs0[i as int].data@, 0));
                    }
                    return Err(e);
                },
            }
            proof {
                assert(segs0.subrange(0, i as int + 1).drop_last() =~= segs0.subrange(
                    0,
                    i as int,
                ));
                assert(segs0.subrange(0, i as int + 1).last() == segs0[i as int]);
                assert(keydir.model() == replay_all(segs0.subrange(0, i as int + 1)));
                assert(!storage_stats.model().contains_key(sid)) by {
                    if storage_stats.model().contains_key(sid) {
                        let a = choose|a: int| 0 <= a < i && (#[trigger] segs0[a]).id == sid;
                        assert(segs0[a].id < segs0[i as int].id);
                    }
                }
            }
            storage_stats.new_log_entry(sid);
            proof {
                assert forall|s2: u32| #[trigger]
                    storage_stats.model().contains_key(s2) <==> exists|a: int|
                        0 <= a < i + 1 && (#[trigger] segs0[a]).id == s2 by {
                    if storage_stats.model().contains_key(s2) {
                        if s2 == sid {
                            assert(segs0[i as int].id == s2);
                        } else {
                            let a = choose|a: int| 0 <= a < i && (#[trigger] segs0[a]).id == s2;
                            assert(0 <= a < i + 1 && segs0[a].id == s2);
                        }
                    }
                }
            }
            i = i + 1;
        }
        proof {
            assert(segs0.subrange(0, segs0.len() as int) =~= segs0);
            assert(keydir.model() == replay_all(segs0));
            assert forall|a: int|
                0 <= a < segs0.len() implies (#[trigger] segs0[a]).data@.len() <= u64::MAX by {}
            lemma_replay_all_entries(segs0);
        }
        let pairs = keydir.iter();
        let pairs_len = pairs.len();
        let ghost kd_model = keydir.model();
        proof {
            crate::keydir::lemma_pairs_map_dom(pairs@.subrange(0, 0));
            assert(pairs@.subrange(0, 0) =~= Seq::<(Vec<u8>, KeydirEntry)>::empty());
            assert forall|sid: u32| true implies live_keys(
                crate::keydir::pairs_map(pairs@.subrange(0, 0)),
                sid,
            ) =~= Set::<Seq<u8>>::empty() by {}
        }
        let mut j: usize = 0;
        while j < pairs_len
            invariant
                j <= pairs@.len(),
                pairs_len == pairs@.len(),
                kd_model == keydir.model(),
                keydir.inv(),
                storage_stats.inv(),
                pairs@.len() == kd_model.dom().len(),
                kd_model.dom().finite(),
                forall|x: int|
                    0 <= x < pairs@.len() ==> #[trigger] kd_model.contains_key(pairs@[x].0@)
                        && kd_model[pairs@[x].0@] == pairs@[x].1,
                forall|x: int, y: int| 0 <= x < y < pairs@.len() ==> pairs@[x].0@ != pairs@[y].0@,
                forall|k: Seq<u8>| #[trigger]
                    kd_model.contains_key(k) ==> storage_stats.model().contains_key(
                        kd_model[k].file_id,
                    ),
                forall|sid: u32| #[trigger]
                    storage_stats.model().contains_key(sid) <==> exists|a: int|
                        0 <= a < segs0.len() && (#[trigger] segs0[a]).id == sid || (segs0.len()
                            == 0 && sid == u32::MAX && false),
                forall|sid: u32| #[trigger]
                    storage_stats.model().contains_key(sid) ==> storage_stats.model()[sid]
                        == live_keys(
                        crate::keydir::pairs_map(pairs@.subrange(0, j as int)),
                        sid,
                    ).len(),
            decreases pairs_len - j,
        {
            let ghost pm_j = crate::keydir::pairs_map(pairs@.subrange(0, j as int));
            let entry = pairs[j].1;
            proof {
                crate::keydir::lemma_pairs_map_dom(pairs@.subrange(0, j as int));
                assert(kd_model.contains_key(pairs@[j as int].0@));
                assert(entry == kd_model[pairs@[j as int].0@]);
                assert(storage_stats.model().contains_key(entry.file_id));
                // the key is fresh for the prefix map
                assert(!pm_j.contains_key(pairs@[j as int].0@)) by {
                    if pm_j.contains_key(pairs@[j as int].0@) {
                        let x = choose|x: int|
                            0 <= x < pairs@.subrange(0, j as int).len() && (
                            #[trigger] pairs@.subrange(0, j as int)[x]).0@ == pairs@[j as int].0@;
                        assert(pairs@[x].0@ == pairs@[j as int].0@);
                    }
                }
                crate::keydir::lemma_pairs_map_len(pairs@.subrange(0, j as int));
                lemma_live_keys_finite(pm_j, entry.file_id);
                lemma_live_keys_insert(pm_j, pairs@[j as int].0@, entry, entry.file_id);
                let pm_j1 = crate::keydir::pairs_map(pairs@.subrange(0, j as int + 1));
                assert(pairs@.subrange(0, j as int + 1).drop_last() =~= pairs@.subrange(
                    0,
                    j as int,
                ));
                assert(pm_j1 == pm_j.insert(pairs@[j as int].0@, entry));
                crate::keydir::lemma_pairs_map_len(pairs@.subrange(0, j as int + 1));
                assert(pm_j1.dom().len() == j + 1);
                lemma_live_keys_finite(pm_j1, entry.file_id);
                vstd::set_lib::lemma_len_subset(live_keys(pm_j1, entry.file_id), pm_j1.dom());
                assert(live_keys(pm_j1, entry.file_id).len() <= j + 1);
                assert(live_keys(pm_j1, entry.file_id) == live_keys(
                    pm_j,
                    entry.file_id,
                ).insert(pairs@[j as int].0@));
                assert(!live_keys(pm_j, entry.file_id).contains(pairs@[j as int].0@));
                assert(live_keys(pm_j1, entry.file_id).len() == live_keys(
                    pm_j,
                    entry.file_id,
                ).len() + 1);
                assert(storage_stats.model()[entry.file_id] < usize::MAX);
            }
            storage_stats.inc_alive_log_count(entry.file_id);
            proof {
                let pm_j1 = crate::keydir::pairs_map(pairs@.subrange(0, j as int + 1));
                assert forall|sid: u32| #[trigger]
                    storage_stats.model().contains_key(sid) implies storage_stats.model()[sid]
                    == live_keys(pm_j1, sid).len() by {
                    lemma_live_keys_insert(pm_j, pairs@[j as int].0@, entry, sid);
                    lemma_live_keys_finite(pm_j, sid);
                    if sid != entry.file_id {
                        assert(!live_keys(pm_j, sid).contains(pairs@[j as int].0@));
                        assert(live_keys(pm_j1, sid) =~= live_keys(pm_j, sid));
                    }
                }
            }
            j = j + 1;
        }
        proof {
            // The prefix map over all pairs is the keydir's own map.
            let pm = crate::keydir::pairs_map(pairs@.subrange(0, pairs@.len() as int));
            assert(pairs@.subrange(0, pairs@.len() as int) =~= pairs@);
            crate::keydir::lemma_pairs_map_dom(pairs@);
            crate::keydir::lemma_pairs_map_len(pairs@);
            assert(crate::keydir::pairs_map(pairs@).dom().len() == kd_model.dom().len());
            assert(crate::keydir::keys_unique(pairs@));
            assert forall|k: Seq<u8>| #[trigger]
                crate::keydir::pairs_map(pairs@).contains_key(k) implies kd_model.contains_key(k)
                && crate::keydir::pairs_map(pairs@)[k] == kd_model[k] by {
                assert(exists|x: int| 0 <= x < pairs@.len() && (#[trigger] pairs@[x]).0@ == k);
                let x = choose|x: int| 0 <= x < pairs@.len() && (#[trigger] pairs@[x]).0@ == k;
                assert(kd_model.contains_key(pairs@[x].0@));
                crate::keydir::lemma_pairs_map_index(pairs@, x);
                assert(kd_model[pairs@[x].0@] == pairs@[x].1);
            }
            assert(crate::keydir::pairs_map(pairs@).dom() =~= kd_model.dom()) by {
                vstd::set_lib::lemma_len_subset(
                    crate::keydir::pairs_map(pairs@).dom(),
                    kd_model.dom(),
                );
                if exists|k: Seq<u8>| #[trigger]
                    kd_model.dom().contains(k) && !crate::keydir::pairs_map(
                        pairs@,
                    ).dom().contains(k) {
                    let k = choose|k: Seq<u8>| #[trigger]
                        kd_model.dom().contains(k) && !crate::keydir::pairs_map(
                            pairs@,
                        ).dom().contains(k);
                    crate::keydir::pairs_map(pairs@).dom().lemma_subset_not_in_lt(
                        kd_model.dom(),
                        k,
                    );
                }
            }
            assert(crate::keydir::pairs_map(pairs@) =~= kd_model);
        }
        if log_files.len() == 0 {
            proof {
                assert(segs0.len() == 0);
                assert(replay_all(segs0) =~= Map::<Seq<u8>, KeydirEntry>::empty());
                assert(kd_model.dom() =~= Set::<Seq<u8>>::empty());
            }
            log_files.push(LogSegment { id: 0, data: Vec::new() });
            proof {
                assert(!storage_stats.model().contains_key(0));
            }
            storage_stats.new_log_entry(0);
            proof {
                assert forall|sid: u32| #[trigger]
                    storage_stats.model().contains_key(sid) implies storage_stats.model()[sid]
                    == live_keys(kd_model, sid).len() by {
                    assert(live_keys(kd_model, sid) =~= Set::<Seq<u8>>::empty());
                }
            }
        }
        proof {
            assert(keydir.model() == replay_all(segs0));
            assert forall|sid: u32| #[trigger]
                storage_stats.model().contains_key(sid) <==> exists|i: int|
                    0 <= i < log_files@.len() && (#[trigger] log_files@[i]).id == sid by {
                if segs0.len() == 0 {
                    assert(log_files@.len() == 1);
                    assert(log_files@[0].id == 0);
                    if storage_stats.model().contains_key(sid) {
                        assert(sid == 0);
                    }
                    if exists|i: int|
                        0 <= i < log_files@.len() && (#[trigger] log_files@[i]).id == sid {
                        let a = choose|a: int|
                            0 <= a < log_files@.len() && (#[trigger] log_files@[a]).id == sid;
                        assert(a == 0);
                        assert(sid == 0);
                        assert(storage_stats.model().contains_key(0u32));
                    }
                } else {
                    if storage_stats.model().contains_key(sid) {
                        let a = choose|a: int| 0 <= a < segs0.len() && (#[trigger] segs0[a]).id
                            == sid;
                        assert(log_files@[a].id == sid);
                    }
                    if exists|i: int|
                        0 <= i < log_files@.len() && (#[trigger] log_files@[i]).id == sid {
                        let a = choose|a: int|
                            0 <= a < log_files@.len() && (#[trigger] log_files@[a]).id == sid;
                        assert(segs0[a].id == sid);
                    }
                }
            }
        }
        proof {
            assert(log_files@.len() > 0);
            assert(if segs0.len() > 0 {
                log_files@ == segs0
            } else {
                log_files@.len() == 1 && log_files@[0].id == 0 && log_files@[0].data@.len() == 0
            });
            assert(forall|i: int, j: int|
                0 <= i < j < log_files@.len() ==> (#[trigger] log_files@[i]).id < (
                #[trigger] log_files@[j]).id);
            assert(keydir.inv());
            assert(keydir.model() == replay_all(segs0));
            assert(keydir.model().dom().finite());
            assert(storage_stats.inv());
            assert forall|sid: u32| #[trigger]
                storage_stats.model().contains_key(sid) implies storage_stats.model()[sid]
                == live_keys(keydir.model(), sid).len() by {}
            assert forall|k: Seq<u8>| #[trigger]
                keydir.model().contains_key(k) implies exists|i: int|
                0 <= i < log_files@.len() && {
                    let e = keydir.model()[k];
                    &&& e.file_id == (#[trigger] log_files@[i]).id
                    &&& e.value_size > 0
                    &&& e.value_size <= u32::MAX
                    &&& e.value_pos + e.value_size <= log_files@[i].data@.len()
                } by {
                assert(segs0.len() > 0);
                let i = choose|i: int|
                    0 <= i < segs0.len() && {
                        let e = replay_all(segs0)[k];
                        &&& e.file_id == (#[trigger] segs0[i]).id
                        &&& e.value_size > 0
                        &&& e.value_size <= u32::MAX
                        &&& e.value_pos + e.value_size <= segs0[i].data@.len()
                    };
                assert(log_files@[i] == segs0[i]);
            }
        }
        Ok((keydir, log_files, storage_stats))
    }

    /// Opens a store over the given segments, in ascending id order:
    /// rebuilds the keydir and the stats by replaying every segment, creates
    /// segment 0 when none were found, and runs a garbage-collection pass.
    pub fn open_segments(segments: Vec<LogSegment>, opts: DbOptions) -> (r: Result<
        Self,
        StorageError,
    >)
        requires
            forall|i: int, j: int|
                0 <= i < j < segments@.len() ==> (#[trigger] segments@[i]).id < (
                #[trigger] segments@[j]).id,
        ensures
            r is Ok <==> (forall|i: int|
                0 <= i < segments@.len() ==> can_parse((#[trigger] segments@[i]).data@, 0)),
            r matches Ok(db) ==> {
                &&& db.wf()
                &&& db.kd() == replay_all(segments@)
                &&& db.spec_max_log_file_size() == opts.max_log_file_size
                &&& (forall|sid: u32| #[trigger]
                    db.has_seg(sid) && sid != db.active_id() ==> live_keys(
                        db.kd(),
                        sid,
                    ).len() > 0)
                &&& (forall|sid: u32| #[trigger]
                    db.stats_model().contains_key(sid) <==> db.has_seg(sid))
                &&& (forall|sid: u32| #[trigger]
                    db.has_seg(sid) ==> db.stats_model()[sid] == live_keys(db.kd(), sid).len())
                &&& db.segs_parse()
                &&& db.has_seg(db.active_id())
                &&& (segments@.len() > 0 ==> db.active_id() == segments@[segments@.len()
                    - 1].id)
                &&& (forall|sid: u32| #[trigger]
                    db.has_seg(sid) ==> (exists|i: int|
                        0 <= i < segments@.len() && (#[trigger] segments@[i]).id == sid
                            && db.seg_data(sid) == segments@[i].data@) || (segments@.len() == 0
                        && sid == 0 && db.seg_data(sid).len() == 0))
                &&& (forall|i: int|
                    0 <= i < segments@.len() ==> db.has_seg((#[trigger] segments@[i]).id)
                        || live_keys(replay_all(segments@), segments@[i].id).len() == 0)
                &&& (segments@.len() == 0 ==> db.segs().len() == 1 && db.segs()[0].id == 0
                    && db.segs()[0].data@.len() == 0)
            },
    {
        match Self::build_keydir(segments) {
            Ok((keydir, log_files, storage_stats)) => {
                let mut db = DiskStorage { keydir, log_files, storage_stats, opts };
                proof {
                    assert forall|k: Seq<u8>| #[trigger] db.kd().contains_key(k) implies db.entry_ok(
                        db.kd()[k],
                    ) by {
                        let e = db.kd()[k];
                        let i = choose|i: int|
                            0 <= i < db.log_files@.len() && {
                                let e2 = db.kd()[k];
                                &&& e2.file_id == (#[trigger] db.log_files@[i]).id
                                &&& e2.value_size > 0
                                &&& e2.value_size <= u32::MAX
                                &&& e2.value_pos + e2.value_size <= db.log_files@[i].data@.len()
                            };
                        db.lemma_seg_at(i);
                    }
                    assert forall|sid: u32| #[trigger]
                        db.storage_stats.model().contains_key(sid) <==> db.has_seg(sid) by {
                        if db.storage_stats.model().contains_key(sid) {
                            let i = choose|i: int|
                                0 <= i < db.log_files@.len() && (#[trigger] db.log_files@[i]).id
                                    == sid;
                            assert(db.log_files@[i].id == sid);
                        }
                        if db.has_seg(sid) {
                            let i = choose|i: int|
                                0 <= i < db.log_files@.len() && (#[trigger] db.log_files@[i]).id
                                    == sid;
                            assert(exists|x: int|
                                0 <= x < db.log_files@.len() && (#[trigger] db.log_files@[x]).id
                                    == sid);
                        }
                    }
                    assert forall|sid: u32|
                        db.has_seg(sid) implies #[trigger] db.storage_stats.model()[sid]
                        == live_keys(db.kd(), sid).len() by {
                        assert(db.storage_stats.model().contains_key(sid));
                    }
                    assert(db.wf());
                }
                let ghost db0 = db;
                db.gc();
                proof {
                    db0.lemma_segments_model();
                    db.lemma_segments_model();
                    assert(db.active_id() == db0.active_id());
                    assert(db.has_seg(db.active_id()));
                    // every surviving segment is an input segment (or the
                    // fresh empty one), with its bytes unchanged
                    assert forall|sid: u32| #[trigger]
                        db.has_seg(sid) implies (exists|i: int|
                        0 <= i < db0.segs().len() && (#[trigger] db0.segs()[i]).id == sid
                            && db.seg_data(sid) == db0.segs()[i].data@) by {
                        assert(db0.has_seg(sid));
                        let i = choose|i: int|
                            0 <= i < db0.segs().len() && (#[trigger] db0.segs()[i]).id == sid;
                        assert(db0.seg_data(sid) == db0.segs()[i].data@);
                        assert(db.seg_data(sid) == db0.seg_data(sid));
                    }
                    // input segments leave only when they have no live keys
                    assert forall|i: int|
                        0 <= i < db0.segs().len() implies db.has_seg(
                        (#[trigger] db0.segs()[i]).id,
                    ) || live_keys(db0.kd(), db0.segs()[i].id).len() == 0 by {
                        assert(db0.has_seg(db0.segs()[i].id));
                    }
                    // the bytes still split into whole records
                    assert forall|i: int|
                        0 <= i < db.segs().len() implies can_parse(
                        (#[trigger] db.segs()[i]).data@,
                        0,
                    ) by {
                        db.lemma_seg_at(i);
                        let sid = db.segs()[i].id;
                        assert(db0.has_seg(sid));
                        let j = db0.seg_index(sid);
                        db0.lemma_seg_at(j);
                        assert(db.seg_data(sid) == db0.seg_data(sid));
                        assert(can_parse(db0.segs()[j].data@, 0));
                    }
                    // with no input segments, exactly the fresh segment 0
                    if db0.segs().len() == 1 && db0.segs()[0].id == 0 {
                        assert forall|sid: u32| #[trigger] db.has_seg(sid) implies sid == 0 by {
                            assert(db0.has_seg(sid));
                            let i = choose|i: int|
                                0 <= i < db0.segs().len() && (#[trigger] db0.segs()[i]).id
                                    == sid;
                            assert(i == 0);
                        }
                        assert(db.segs().len() == 1) by {
                            if db.segs().len() >= 2 {
                                assert(db.has_seg(db.segs()[0].id));
                                assert(db.has_seg(db.segs()[1].id));
                                assert(db.segs()[0].id == 0 && db.segs()[1].id == 0);
                                assert(db.segs()[0].id < db.segs()[1].id);
                            }
                        }
                        assert(db.segs()[0].id == 0);
                        assert(db.seg_data(0) == db0.seg_data(0));
                        assert(db.segs()[0].data@ == db.seg_data(db.segs()[0].id));
                    }
                }
                Ok(db)
            },
            Err(e) => Err(e),
        }
    }
}

impl<K: Keydir> Storage for DiskStorage<K> {
    open spec fn inv(&self) -> bool {
        self.wf()
    }

    open spec fn logical(&self) -> Map<Seq<u8>, Seq<u8>> {
        self.logical_map()
    }

    fn get(&self, k: &[u8]) -> (r: Result<Option<Vec<u8>>, StorageError>) {
        match self.keydir.get(k) {
            Some(entry_ref) => {
                let e = *entry_ref;
                proof {
                    assert(self.kd().contains_key(k@));
                    assert(e == self.kd()[k@]);
                    assert(self.entry_ok(e));
                }
                match self.find_segment(e.file_id) {
                    Some(i) => {
                        proof {
                            self.lemma_seg_at(i as int);
                            assert(self.entry_ok(e));
                            assert(self.seg_data(e.file_id) == self.log_files@[i as int].data@);
                        }
                        let data_len = self.log_files[i].data.len();
                        proof {
                            assert(e.value_pos + e.value_size <= data_len);
                        }
                        let start = e.value_pos as usize;
                        let end = start + e.value_size;
                        let buf = slice_to_vec(
                            slice_subrange(self.log_files[i].data.as_slice(), start, end),
                        );
                        proof {
                            assert(buf@ == self.value_at(e));
                        }
                        Ok(Some(buf))
                    },
                    None => {
                        proof {
                            assert(false);
                        }
                        Err(StorageError::UnknownLogFile(e.file_id))
                    },
                }
            },
            None => Ok(None),
        }
    }

    fn put(&mut self, k: Vec<u8>, v: Vec<u8>) -> (r: Result<(), StorageError>)
        ensures
            final(self).spec_max_log_file_size() == old(self).spec_max_log_file_size(),
            final(self).active_id() >= old(self).active_id(),
            ({
                let full = old(self).seg_data(old(self).active_id()).len() + HEADER_SIZE
                    + k@.len() + v@.len() > old(self).spec_max_log_file_size();
                if full && old(self).active_id() < u32::MAX {
                    final(self).active_id() == old(self).active_id() + 1
                } else {
                    final(self).active_id() == old(self).active_id()
                }
            }),
            forall|sid: u32| #[trigger]
                final(self).has_seg(sid) && sid != final(self).active_id() ==> old(self).has_seg(
                    sid,
                ) && final(self).seg_data(sid) == old(self).seg_data(sid),
            forall|sid: u32| #[trigger]
                final(self).has_seg(sid) ==> old(self).has_seg(sid) || sid
                    == final(self).active_id(),
            forall|sid: u32|
                old(self).has_seg(sid) && !(#[trigger] final(self).has_seg(sid)) ==> live_keys(
                    old(self).kd(),
                    sid,
                ).len() == 0,
            forall|sid: u32| #[trigger]
                final(self).has_seg(sid) && sid != final(self).active_id() ==> live_keys(
                    old(self).kd(),
                    sid,
                ).len() > 0,
            forall|sid: u32| #[trigger]
                final(self).stats_model().contains_key(sid) <==> final(self).has_seg(sid),
            forall|sid: u32| #[trigger]
                final(self).has_seg(sid) ==> final(self).stats_model()[sid] == live_keys(
                    final(self).kd(),
                    sid,
                ).len(),
            ({
                let full = old(self).seg_data(old(self).active_id()).len() + HEADER_SIZE
                    + k@.len() + v@.len() > old(self).spec_max_log_file_size();
                let base = if full && old(self).active_id() < u32::MAX {
                    Seq::<u8>::empty()
                } else {
                    old(self).seg_data(old(self).active_id())
                };
                exists|ts: u32|
                    {
                        &&& final(self).seg_data(final(self).active_id()) == base
                            + spec_record_bytes(ts, k@, v@)
                        &&& (v@.len() > 0 ==> final(self).kd() == old(self).kd().insert(
                            k@,
                            (KeydirEntry {
                                file_id: final(self).active_id(),
                                value_size: v@.len() as usize,
                                value_pos: (base.len() + HEADER_SIZE + k@.len()) as u64,
                                timestamp: ts,
                            }),
                        ))
                        &&& (v@.len() == 0 ==> final(self).kd() == old(self).kd().remove(k@))
                    }
            }),
            old(self).segs_parse() ==> final(self).segs_parse(),
    {
        self.rotate_log(k.len(), v.len());
        let ghost s1 = *self;
        let disk_entry = DiskEntry::new(k.as_slice(), v.as_slice());
        let ghost ts0 = spec_header_ts(disk_entry.header@);
        proof {
            self.lemma_seg_at(self.log_files@.len() - 1);
        }
        let mut seg = match self.log_files.pop() {
            Some(s) => s,
            None => {
                proof {
                    assert(false);
                }
                return Err(StorageError::AlreadyLocked);
            },
        };
        let active_file_id = seg.id;
        let ghost pre_data = seg.data@;
        append_bytes(&mut seg.data, disk_entry.header.as_slice());
        append_bytes(&mut seg.data, disk_entry.key.as_slice());
        append_bytes(&mut seg.data, disk_entry.value.as_slice());
        let pos = seg.data.len() as u64;
        let value_size = disk_entry.header.value_size();
        let value_pos = pos - value_size as u64;
        let timestamp = disk_entry.header.timestamp();
        self.log_files.push(seg);
        let ghost s2 = *self;
        proof {
            // The segment list keeps its ids; only the active tail grew.
            assert(s2.log_files@.len() == s1.log_files@.len());
            assert forall|x: int| 0 <= x < s2.log_files@.len() implies (#[trigger] s2.log_files@[x]).id
                == s1.log_files@[x].id by {}
            assert(s2.ids_sorted());
            assert forall|sid: u32| #[trigger] s2.has_seg(sid) <==> s1.has_seg(sid) by {
                if s1.has_seg(sid) {
                    let i = choose|i: int|
                        0 <= i < s1.log_files@.len() && (#[trigger] s1.log_files@[i]).id == sid;
                    assert(s2.log_files@[i].id == sid);
                }
                if s2.has_seg(sid) {
                    let i = choose|i: int|
                        0 <= i < s2.log_files@.len() && (#[trigger] s2.log_files@[i]).id == sid;
                    assert(s1.log_files@[i].id == sid);
                }
            }
            assert(s2.active_id() == active_file_id);
            assert(s1.active_id() == active_file_id);
            assert forall|sid: u32|
                s1.has_seg(sid) && sid != active_file_id implies s2.seg_data(sid) == s1.seg_data(
                sid,
            ) by {
                let i = choose|i: int|
                    0 <= i < s1.log_files@.len() && (#[trigger] s1.log_files@[i]).id == sid;
                s1.lemma_seg_at(i);
                s2.lemma_seg_at(i);
                assert(i < s1.log_files@.len() - 1);
                assert(s2.log_files@[i] == s1.log_files@[i]);
            }
            s2.lemma_seg_at(s2.log_files@.len() - 1);
            s1.lemma_seg_at(s1.log_files@.len() - 1);
            assert(pre_data == s1.seg_data(active_file_id));
            assert(s2.seg_data(active_file_id) == pre_data + disk_entry.header@ + disk_entry.key@
                + disk_entry.value@);
            // Every old entry keeps its bounds and its bytes.
            assert forall|e: KeydirEntry| s1.entry_ok(e) implies s2.entry_ok(e) && s2.value_at(e)
                == s1.value_at(e) by {
                if e.file_id == active_file_id {
                    assert(s2.seg_data(e.file_id).subrange(
                        e.value_pos as int,
                        e.value_pos as int + e.value_size as int,
                    ) =~= s1.seg_data(e.file_id).subrange(
                        e.value_pos as int,
                        e.value_pos as int + e.value_size as int,
                    ));
                } else {
                }
            }
        }
        let ghost m = s1.kd();
        if value_size > 0 {
            let entry = KeydirEntry::new(active_file_id, value_size, value_pos, timestamp);
            let old_entry = self.keydir.put(k, entry);
            let ghost m2 = self.keydir.model();
            let old_log_id = match &old_entry {
                Some(e) => Some(e.file_id),
                None => None,
            };
            proof {
                self.keydir.lemma_model_finite();
                s1.keydir.lemma_model_finite();
                assert(m.dom().finite());
                assert(m2 == m.insert(k@, entry));
                lemma_live_keys_finite(m, active_file_id);
                lemma_live_keys_finite(m2, active_file_id);
                lemma_live_keys_insert(m, k@, entry, active_file_id);
                vstd::set_lib::lemma_len_subset(live_keys(m2, active_file_id), m2.dom());
                match old_log_id {
                    Some(o) => {
                        if o != active_file_id {
                            assert(live_keys(m, active_file_id).len() < usize::MAX) by {
                                assert(!live_keys(m, active_file_id).contains(k@));
                            }
                            assert(self.storage_stats.model()[o] > 0) by {
                                lemma_live_keys_finite(m, o);
                                assert(live_keys(m, o).contains(k@));
                            }
                        }
                    },
                    None => {
                        assert(live_keys(m, active_file_id).len() < usize::MAX) by {
                            assert(!live_keys(m, active_file_id).contains(k@));
                        }
                    },
                }
            }
            self.storage_stats.handle_storage_event(
                StorageEvent::KeydirPut { new_log_id: active_file_id, old_log_id },
            );
            proof {
                let fin = *self;
                assert(fin.log_files@ == s2.log_files@);
                assert forall|sid: u32| #[trigger] fin.has_seg(sid) <==> s2.has_seg(sid) by {
                    if s2.has_seg(sid) {
                        let i = choose|i: int|
                            0 <= i < s2.log_files@.len() && (#[trigger] s2.log_files@[i]).id
                                == sid;
                        assert(fin.log_files@[i].id == sid);
                    }
                    if fin.has_seg(sid) {
                        let i = choose|i: int|
                            0 <= i < fin.log_files@.len() && (#[trigger] fin.log_files@[i]).id
                                == sid;
                        assert(s2.log_files@[i].id == sid);
                    }
                }
                assert(fin.active_id() == active_file_id);
                assert(fin.log_files@.len() > 0);
                assert(fin.ids_sorted()) by {
                    assert forall|a: int, b: int|
                        0 <= a < b < fin.log_files@.len() implies (
                    #[trigger] fin.log_files@[a]).id < (#[trigger] fin.log_files@[b]).id by {
                        assert((#[trigger] s2.log_files@[a]).id < (
                        #[trigger] s2.log_files@[b]).id);
                    }
                }
                // Per-segment live counts match the stats after the event.
                assert forall|sid: u32| fin.has_seg(sid) implies #[trigger] fin.storage_stats.model()[sid]
                    == live_keys(fin.kd(), sid).len() by {
                    lemma_live_keys_insert(m, k@, entry, sid);
                    lemma_live_keys_finite(m, sid);
                    match old_log_id {
                        Some(o) => {
                            if o == active_file_id {
                                if sid == active_file_id {
                                    assert(live_keys(m, sid).contains(k@));
                                    assert(live_keys(m2, sid) =~= live_keys(m, sid));
                                } else {
                                    assert(!live_keys(m, sid).contains(k@));
                                    assert(live_keys(m2, sid) =~= live_keys(m, sid));
                                }
                            } else {
                                if sid == active_file_id {
                                    assert(!live_keys(m, sid).contains(k@));
                                } else if sid == o {
                                    assert(live_keys(m, sid).contains(k@));
                                } else {
                                    assert(!live_keys(m, sid).contains(k@));
                                    assert(live_keys(m2, sid) =~= live_keys(m, sid));
                                }
                            }
                        },
                        None => {
                            if sid == active_file_id {
                                assert(!live_keys(m, sid).contains(k@));
                            } else {
                                assert(!live_keys(m, sid).contains(k@));
                                assert(live_keys(m2, sid) =~= live_keys(m, sid));
                            }
                        },
                    }
                }
                assert(fin.has_seg(active_file_id)) by {
                    assert(s2.has_seg(active_file_id));
                }
                assert forall|sid: u32| #[trigger]
                    fin.has_seg(sid) implies fin.seg_data(sid) == s2.seg_data(sid) by {
                    let j = fin.seg_index(sid);
                    fin.lemma_seg_at(j);
                    s2.lemma_seg_at(j);
                    assert(s2.log_files@[j] == fin.log_files@[j]);
                }
                assert(fin.seg_data(active_file_id) == s2.seg_data(active_file_id));
                assert(entry.value_pos + entry.value_size <= fin.seg_data(
                    active_file_id,
                ).len());
                assert(fin.entry_ok(entry));
                assert forall|kk: Seq<u8>| #[trigger] fin.kd().contains_key(kk) implies fin.entry_ok(
                    fin.kd()[kk],
                ) by {
                    if kk != k@ {
                        assert(m.contains_key(kk));
                        assert(s1.entry_ok(m[kk]));
                        assert(s2.entry_ok(m[kk]));
                        assert(fin.kd()[kk] == m[kk]);
                    }
                }
                assert forall|sid: u32| #[trigger]
                    fin.storage_stats.model().contains_key(sid) <==> fin.has_seg(sid) by {
                    assert(s1.storage_stats.model().contains_key(sid) <==> s1.has_seg(sid));
                    assert(s1.has_seg(sid) <==> s2.has_seg(sid));
                    if fin.storage_stats.model().contains_key(sid)
                        && !s1.storage_stats.model().contains_key(sid) {
                        assert(s1.storage_stats.model().contains_key(active_file_id));
                        match old_log_id {
                            Some(o) => {
                                assert(m.contains_key(k@));
                                assert(s1.entry_ok(m[k@]));
                                assert(s1.storage_stats.model().contains_key(o));
                                assert(sid == active_file_id || sid == o);
                            },
                            None => {
                                assert(sid == active_file_id);
                            },
                        }
                        assert(false);
                    }
                }
                assert(fin.wf());
                // The logical mapping gained exactly this binding.
                assert(fin.logical_map() =~= s1.logical_map().insert(k@, v@)) by {
                    assert(fin.value_at(entry) =~= v@) by {
                        assert(fin.seg_data(active_file_id) == pre_data + disk_entry.header@
                            + disk_entry.key@ + disk_entry.value@);
                        assert(fin.seg_data(active_file_id).subrange(
                            entry.value_pos as int,
                            entry.value_pos as int + entry.value_size as int,
                        ) =~= v@);
                    }
                    assert forall|kk: Seq<u8>| m.contains_key(kk) && kk != k@ implies fin.value_at(
                        m[kk],
                    ) == s1.value_at(m[kk]) by {
                        assert(s1.entry_ok(m[kk]));
                    }
                }
                assert(s1.logical_map() == old(self).logical_map());
            }
        } else {
            let old_entry = match self.keydir.get(k.as_slice()) {
                Some(e) => Some(*e),
                None => None,
            };
            self.keydir.remove(k.as_slice());
            let ghost m2 = self.keydir.model();
            proof {
                self.keydir.lemma_model_finite();
                s1.keydir.lemma_model_finite();
                assert(m.dom().finite());
                assert(m2 == m.remove(k@));
            }
            match old_entry {
                Some(e0) => {
                    proof {
                        lemma_live_keys_finite(m, e0.file_id);
                        assert(live_keys(m, e0.file_id).contains(k@));
                        assert(self.storage_stats.model()[e0.file_id] > 0);
                    }
                    self.storage_stats.dec_alive_log_count(e0.file_id);
                    proof {
                        let fin = *self;
                        assert forall|sid: u32| fin.has_seg(sid) implies #[trigger] fin.storage_stats.model()[sid]
                            == live_keys(fin.kd(), sid).len() by {
                            lemma_live_keys_remove(m, k@, sid);
                            lemma_live_keys_finite(m, sid);
                            if sid == e0.file_id {
                                assert(live_keys(m, sid).contains(k@));
                            } else {
                                assert(!live_keys(m, sid).contains(k@));
                                assert(live_keys(m2, sid) =~= live_keys(m, sid));
                            }
                        }
                    }
                },
                None => {
                    proof {
                        assert(m2 =~= m);
                        assert forall|sid: u32| true implies live_keys(m2, sid) == live_keys(
                            m,
                            sid,
                        ) by {
                            assert(live_keys(m2, sid) =~= live_keys(m, sid));
                        }
                    }
                },
            }
            proof {
                let fin = *self;
                assert(fin.log_files@ == s2.log_files@);
                assert forall|sid: u32| #[trigger] fin.has_seg(sid) <==> s2.has_seg(sid) by {
                    if s2.has_seg(sid) {
                        let i = choose|i: int|
                            0 <= i < s2.log_files@.len() && (#[trigger] s2.log_files@[i]).id
                                == sid;
                        assert(fin.log_files@[i].id == sid);
                    }
                    if fin.has_seg(sid) {
                        let i = choose|i: int|
                            0 <= i < fin.log_files@.len() && (#[trigger] fin.log_files@[i]).id
                                == sid;
                        assert(s2.log_files@[i].id == sid);
                    }
                }
                assert(fin.log_files@.len() > 0);
                assert(fin.ids_sorted()) by {
                    assert forall|a: int, b: int|
                        0 <= a < b < fin.log_files@.len() implies (
                    #[trigger] fin.log_files@[a]).id < (#[trigger] fin.log_files@[b]).id by {
                        assert((#[trigger] s2.log_files@[a]).id < (
                        #[trigger] s2.log_files@[b]).id);
                    }
                }
                assert forall|sid: u32| #[trigger]
                    fin.has_seg(sid) implies fin.seg_data(sid) == s2.seg_data(sid) by {
                    let j = fin.seg_index(sid);
                    fin.lemma_seg_at(j);
                    s2.lemma_seg_at(j);
                    assert(s2.log_files@[j] == fin.log_files@[j]);
                }
                assert forall|kk: Seq<u8>| #[trigger] fin.kd().contains_key(kk) implies fin.entry_ok(
                    fin.kd()[kk],
                ) by {
                    assert(m.contains_key(kk));
                    assert(s1.entry_ok(m[kk]));
                    assert(s2.entry_ok(m[kk]));
                    assert(fin.kd()[kk] == m[kk]);
                }
                assert forall|sid: u32| #[trigger]
                    fin.storage_stats.model().contains_key(sid) <==> fin.has_seg(sid) by {
                    assert(s1.storage_stats.model().contains_key(sid) <==> s1.has_seg(sid));
                    assert(s1.has_seg(sid) <==> s2.has_seg(sid));
                    if fin.storage_stats.model().contains_key(sid)
                        && !s1.storage_stats.model().contains_key(sid) {
                        match old_entry {
                            Some(e0) => {
                                assert(sid == e0.file_id);
                                assert(m.contains_key(k@));
                                assert(s1.entry_ok(m[k@]));
                                assert(s1.storage_stats.model().contains_key(e0.file_id));
                            },
                            None => {},
                        }
                        assert(false);
                    }
                }
                assert(fin.wf());
                assert(fin.logical_map() =~= s1.logical_map().remove(k@)) by {
                    assert forall|kk: Seq<u8>| m2.contains_key(kk) implies fin.value_at(m2[kk])
                        == s1.value_at(m[kk]) by {
                        assert(s1.entry_ok(m[kk]));
                    }
                }
                assert(s1.logical_map() == old(self).logical_map());
            }
        }
        proof {
            let fin = *self;
            let key = disk_entry.key@;
            let val = disk_entry.value@;
            let full = old(self).seg_data(old(self).active_id()).len() + HEADER_SIZE + key.len()
                + val.len() > old(self).spec_max_log_file_size();
            let base = if full && old(self).active_id() < u32::MAX {
                Seq::<u8>::empty()
            } else {
                old(self).seg_data(old(self).active_id())
            };
            // the active segment's data before the append is the rotation's base
            assert(pre_data == base) by {
                if full && old(self).active_id() < u32::MAX {
                    assert(s1.seg_data(s1.active_id()).len() == 0);
                    assert(pre_data =~= Seq::<u8>::empty());
                }
            }
            // the appended bytes are one whole record
            assert(fin.seg_data(fin.active_id()) == base + spec_record_bytes(ts0, key, val)) by {
                assert(disk_entry.spec_bytes() == spec_record_bytes(ts0, key, val));
                assert(pre_data + disk_entry.header@ + disk_entry.key@ + disk_entry.value@
                    =~= pre_data + (disk_entry.header@ + disk_entry.key@ + disk_entry.value@));
            }
            // sealed segments keep their bytes, and only stale ones leave
            assert forall|sid: u32| #[trigger]
                fin.has_seg(sid) && sid != fin.active_id() implies old(self).has_seg(sid)
                && fin.seg_data(sid) == old(self).seg_data(sid) by {
                assert(s2.has_seg(sid));
                assert(s1.has_seg(sid));
                assert(old(self).has_seg(sid));
                assert(fin.seg_data(sid) == s2.seg_data(sid));
                assert(s2.seg_data(sid) == s1.seg_data(sid));
                assert(s1.seg_data(sid) == old(self).seg_data(sid));
            }
            assert forall|sid: u32| #[trigger]
                fin.has_seg(sid) implies old(self).has_seg(sid) || sid == fin.active_id() by {
                assert(s1.has_seg(sid));
            }
            assert forall|sid: u32|
                old(self).has_seg(sid) && !(#[trigger] fin.has_seg(sid)) implies live_keys(
                old(self).kd(),
                sid,
            ).len() == 0 by {
                assert(!s1.has_seg(sid));
            }
            // every surviving sealed segment still carried live keys when
            // this call's garbage collection ran
            assert forall|sid: u32| #[trigger]
                fin.has_seg(sid) && sid != fin.active_id() implies live_keys(
                old(self).kd(),
                sid,
            ).len() > 0 by {
                assert(s1.has_seg(sid));
                assert(sid != s1.active_id());
                assert(live_keys(s1.kd(), sid).len() > 0);
                assert(s1.kd() == old(self).kd());
            }
            // parseability is preserved
            assert(old(self).segs_parse() ==> fin.segs_parse()) by {
                if old(self).segs_parse() {
                    old(self).lemma_segments_model();
                    assert forall|i: int|
                        0 <= i < s1.segs().len() implies can_parse(
                        (#[trigger] s1.segs()[i]).data@,
                        0,
                    ) by {
                        s1.lemma_seg_at(i);
                        let sid = s1.segs()[i].id;
                        if old(self).has_seg(sid) {
                            let j = old(self).seg_index(sid);
                            old(self).lemma_seg_at(j);
                            assert(s1.seg_data(sid) == old(self).seg_data(sid));
                            assert(can_parse(old(self).segs()[j].data@, 0));
                        } else {
                            assert(sid == s1.active_id());
                            assert(s1.seg_data(sid).len() == 0);
                            assert(s1.segs()[i].data@ =~= Seq::<u8>::empty());
                        }
                    }
                    s1.lemma_seg_at(s1.segs().len() - 1);
                    assert(can_parse(pre_data, 0));
                    lemma_replay_append(
                        Map::<Seq<u8>, KeydirEntry>::empty(),
                        active_file_id,
                        pre_data,
                        0,
                        ts0,
                        key,
                        val,
                    );
                    assert(can_parse(pre_data + spec_record_bytes(ts0, key, val), 0));
                    assert forall|i: int|
                        0 <= i < fin.segs().len() implies can_parse(
                        (#[trigger] fin.segs()[i]).data@,
                        0,
                    ) by {
                        fin.lemma_seg_at(i);
                        let sid = fin.segs()[i].id;
                        if sid == fin.active_id() {
                            assert(fin.segs()[i].data@ == base + spec_record_bytes(
                                ts0,
                                key,
                                val,
                            ));
                        } else {
                            assert(fin.has_seg(sid));
                            assert(s1.has_seg(sid));
                            let j = s1.seg_index(sid);
                            s1.lemma_seg_at(j);
                            assert(fin.seg_data(sid) == s2.seg_data(sid));
                            assert(s2.seg_data(sid) == s1.seg_data(sid));
                            assert(can_parse(s1.segs()[j].data@, 0));
                        }
                    }
                }
            }
        }
        Ok(())
    }

    fn remove(&mut self, k: &[u8]) -> (r: Result<(), StorageError>)
        ensures
            final(self).active_id() >= old(self).active_id(),
            final(self).spec_max_log_file_size() == old(self).spec_max_log_file_size(),
            final(self).kd() == old(self).kd().remove(k@),
            !old(self).kd().contains_key(k@) ==> *final(self) == *old(self),
            forall|sid: u32| #[trigger]
                final(self).has_seg(sid) && sid != final(self).active_id() ==> old(self).has_seg(
                    sid,
                ) && final(self).seg_data(sid) == old(self).seg_data(sid),
            forall|sid: u32| #[trigger]
                final(self).has_seg(sid) ==> old(self).has_seg(sid) || sid
                    == final(self).active_id(),
            forall|sid: u32|
                old(self).has_seg(sid) && !(#[trigger] final(self).has_seg(sid)) ==> live_keys(
                    old(self).kd(),
                    sid,
                ).len() == 0,
            old(self).kd().contains_key(k@) ==> (forall|sid: u32| #[trigger]
                final(self).has_seg(sid) && sid != final(self).active_id() ==> live_keys(
                    old(self).kd(),
                    sid,
                ).len() > 0),
            forall|sid: u32| #[trigger]
                final(self).stats_model().contains_key(sid) <==> final(self).has_seg(sid),
            forall|sid: u32| #[trigger]
                final(self).has_seg(sid) ==> final(self).stats_model()[sid] == live_keys(
                    final(self).kd(),
                    sid,
                ).len(),
            old(self).kd().contains_key(k@) ==> ({
                let full = old(self).seg_data(old(self).active_id()).len() + HEADER_SIZE
                    + k@.len() > old(self).spec_max_log_file_size();
                let base = if full && old(self).active_id() < u32::MAX {
                    Seq::<u8>::empty()
                } else {
                    old(self).seg_data(old(self).active_id())
                };
                exists|ts: u32|
                    final(self).seg_data(final(self).active_id()) == base + spec_record_bytes(
                        ts,
                        k@,
                        Seq::<u8>::empty(),
                    )
            }),
            old(self).segs_parse() ==> final(self).segs_parse(),
    {
        let present = match self.keydir.get(k) {
            Some(_) => true,
            None => false,
        };
        if present {
            let kv = slice_to_vec(k);
            let res = self.put(kv, Vec::new());
            match res {
                Ok(()) => {},
                Err(e) => {
                    proof {
                        assert(false);
                    }
                    return Err(e);
                },
            }
        } else {
            proof {
                assert(old(self).logical_map().remove(k@) =~= old(self).logical_map());
                assert(old(self).kd().remove(k@) =~= old(self).kd());
            }
        }
        Ok(())
    }
}

/// Segment count invariant, at the engine: in every well-formed store the
/// stats hold, for each segment, exactly its live-key count, and those
/// counts add up to the number of live keys.
pub proof fn lemma_segment_count_invariant<K: Keydir>(db: &DiskStorage<K>)
    requires
        db.wf(),
    ensures
        forall|sid: u32| #[trigger]
            db.has_seg(sid) ==> db.stats_model()[sid] == live_keys(db.kd(), sid).len(),
        crate::laws::sum_live(db.seg_ids(), db.kd()) == db.kd().dom().len(),
{
    db.keydir.lemma_model_finite();
    assert forall|i: int, j: int|
        0 <= i < j < db.seg_ids().len() implies db.seg_ids()[i] != db.seg_ids()[j] by {
        assert(db.log_files@[i].id < db.log_files@[j].id);
    }
    assert forall|k: Seq<u8>| #[trigger] db.kd().contains_key(k) implies db.seg_ids().contains(
        db.kd()[k].file_id,
    ) by {
        assert(db.entry_ok(db.kd()[k]));
        let i = choose|i: int|
            0 <= i < db.log_files@.len() && (#[trigger] db.log_files@[i]).id == db.kd()[k].file_id;
        assert(db.seg_ids()[i] == db.kd()[k].file_id);
    }
    crate::laws::lemma_live_counts_partition(db.seg_ids(), db.kd());
}

/// No resurrection, relative to the bytes on disk: a store opened from a
/// set of segment bytes holds a key exactly when the replay of those bytes
/// holds it; in particular a key whose final replayed record is a tombstone
/// is absent after the reopen.
pub proof fn lemma_reopen_matches_replay<K: Keydir>(
    db: &DiskStorage<K>,
    segs: Seq<LogSegment>,
    k: Seq<u8>,
)
    requires
        db.wf(),
        db.kd() == replay_all(segs),
    ensures
        db.logical_map().contains_key(k) <==> replay_all(segs).contains_key(k),
{
    assert(db.logical_map().contains_key(k) <==> db.kd().contains_key(k));
}

} // verus!
