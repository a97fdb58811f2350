//! The recovery model: what a log segment's bytes mean.
//!
//! Recovery rebuilds the keydir by scanning every segment in ascending id
//! order and, within a segment, in ascending offset order: a record with a
//! positive value size installs an entry, a tombstone removes the key, and
//! the last write wins. The spec functions here state that scan over raw
//! bytes; the engine's recovery loop is proved against them.

use vstd::prelude::*;

use crate::format::{lemma_header_round_trip, spec_header_ksz, spec_header_ts, spec_header_vsz, spec_record_bytes, KeydirEntry};

verus! {

/// One log segment: its id and the bytes of its file.
#[derive(Debug)]
pub struct LogSegment {
    pub id: u32,
    pub data: Vec<u8>,
}

/// Whether a segment's bytes from `off` on split cleanly into whole
/// records. A short header, key or value at the tail makes the split fail.
pub open spec fn can_parse(data: Seq<u8>, off: int) -> bool
    decreases data.len() - off,
    when 0 <= off <= data.len()
{
    if off == data.len() {
        true
    } else if off + 12 > data.len() {
        false
    } else {
        let header = data.subrange(off, off + 12);
        let ksz = spec_header_ksz(header) as int;
        let vsz = spec_header_vsz(header) as int;
        if off + 12 + ksz + vsz > data.len() {
            false
        } else {
            can_parse(data, off + 12 + ksz + vsz)
        }
    }
}

/// The keydir that replaying a segment's bytes from `off` on onto `m`
/// produces. Where the bytes do not split into whole records, the scan
/// stops at the last whole one.
pub open spec fn replay_map(
    m: Map<Seq<u8>, KeydirEntry>,
    sid: u32,
    data: Seq<u8>,
    off: int,
) -> Map<Seq<u8>, KeydirEntry>
    decreases data.len() - off,
    when 0 <= off <= data.len()
{
    if off + 12 > data.len() {
        m
    } else {
        let header = data.subrange(off, off + 12);
        let ksz = spec_header_ksz(header) as int;
        let vsz = spec_header_vsz(header) as int;
        if off + 12 + ksz + vsz > data.len() {
            m
        } else {
            let key = data.subrange(off + 12, off + 12 + ksz);
            let m2 = if vsz > 0 {
                m.insert(
                    key,
                    KeydirEntry {
                        file_id: sid,
                        value_size: vsz as usize,
                        value_pos: (off + 12 + ksz) as u64,
                        timestamp: spec_header_ts(header),
                    },
                )
            } else {
                m.remove(key)
            };
            replay_map(m2, sid, data, off + 12 + ksz + vsz)
        }
    }
}

/// The keydir that replaying a sequence of segments, in order, produces.
pub open spec fn replay_all(segs: Seq<LogSegment>) -> Map<Seq<u8>, KeydirEntry>
    decreases segs.len(),
{
    if segs.len() == 0 {
        Map::empty()
    } else {
        replay_map(replay_all(segs.drop_last()), segs.last().id, segs.last().data@, 0)
    }
}

/// Every entry that a replay adds points into the replayed segment, at a
/// whole, non-empty value; entries it does not add come from the base map.
/// The replayed map stays finite.
pub proof fn lemma_replay_map_entries(
    m: Map<Seq<u8>, KeydirEntry>,
    sid: u32,
    data: Seq<u8>,
    off: int,
)
    requires
        0 <= off <= data.len(),
        data.len() <= u64::MAX,
        m.dom().finite(),
    ensures
        replay_map(m, sid, data, off).dom().finite(),
        forall|k: Seq<u8>|
            #[trigger] replay_map(m, sid, data, off).contains_key(k) ==> ((m.contains_key(k)
                && replay_map(m, sid, data, off)[k] == m[k]) || {
                let e = replay_map(m, sid, data, off)[k];
                &&& e.file_id == sid
                &&& e.value_size > 0
                &&& e.value_size <= u32::MAX
                &&& e.value_pos + e.value_size <= data.len()
            }),
    decreases data.len() - off,
{
    if off + 12 > data.len() {
    } else {
        let header = data.subrange(off, off + 12);
        let ksz = spec_header_ksz(header) as int;
        let vsz = spec_header_vsz(header) as int;
        if off + 12 + ksz + vsz > data.len() {
        } else {
            let key = data.subrange(off + 12, off + 12 + ksz);
            let m2 = if vsz > 0 {
                m.insert(
                    key,
                    KeydirEntry {
                        file_id: sid,
                        value_size: vsz as usize,
                        value_pos: (off + 12 + ksz) as u64,
                        timestamp: spec_header_ts(header),
                    },
                )
            } else {
                m.remove(key)
            };
            lemma_replay_map_entries(m2, sid, data, off + 12 + ksz + vsz);
        }
    }
}

/// Every entry of a full replay points, whole and non-empty, into the
/// segment of its id, and the replayed map is finite.
pub proof fn lemma_replay_all_entries(segs: Seq<LogSegment>)
    requires
        forall|i: int| 0 <= i < segs.len() ==> (#[trigger] segs[i]).data@.len() <= u64::MAX,
    ensures
        replay_all(segs).dom().finite(),
        forall|k: Seq<u8>|
            #[trigger] replay_all(segs).contains_key(k) ==> exists|i: int|
                0 <= i < segs.len() && {
                    let e = replay_all(segs)[k];
                    &&& e.file_id == (#[trigger] segs[i]).id
                    &&& e.value_size > 0
                    &&& e.value_size <= u32::MAX
                    &&& e.value_pos + e.value_size <= segs[i].data@.len()
                },
    decreases segs.len(),
{
    if segs.len() > 0 {
        lemma_replay_all_entries(segs.drop_last());
        let base = replay_all(segs.drop_last());
        assert(segs[segs.len() - 1].data@.len() <= u64::MAX);
        lemma_replay_map_entries(base, segs.last().id, segs.last().data@, 0);
        assert forall|k: Seq<u8>| #[trigger] replay_all(segs).contains_key(k) implies exists|i: int|
            0 <= i < segs.len() && {
                let e = replay_all(segs)[k];
                &&& e.file_id == (#[trigger] segs[i]).id
                &&& e.value_size > 0
                &&& e.value_size <= u32::MAX
                &&& e.value_pos + e.value_size <= segs[i].data@.len()
            } by {
            let e = replay_all(segs)[k];
            if base.contains_key(k) && e == base[k] {
                let i = choose|i: int|
                    0 <= i < segs.drop_last().len() && {
                        let e2 = base[k];
                        &&& e2.file_id == (#[trigger] segs.drop_last()[i]).id
                        &&& e2.value_size > 0
                        &&& e2.value_size <= u32::MAX
                        &&& e2.value_pos + e2.value_size <= segs.drop_last()[i].data@.len()
                    };
                assert(segs[i] == segs.drop_last()[i]);
            } else {
                assert(segs[segs.len() - 1] == segs.last());
            }
        }
    }
}

/// Appending one whole record to cleanly split bytes keeps them cleanly
/// split, and extends their replay by exactly that record's effect: a put
/// of the key for a non-empty value, a removal of the key for a tombstone.
pub proof fn lemma_replay_append(
    m: Map<Seq<u8>, KeydirEntry>,
    sid: u32,
    data: Seq<u8>,
    off: int,
    ts: u32,
    key: Seq<u8>,
    value: Seq<u8>,
)
    requires
        0 <= off <= data.len(),
        can_parse(data, off),
        key.len() <= u32::MAX,
        value.len() <= u32::MAX,
        data.len() + 12 + key.len() + value.len() <= u64::MAX,
    ensures
        can_parse(data + spec_record_bytes(ts, key, value), off),
        replay_map(m, sid, data + spec_record_bytes(ts, key, value), off) == (if value.len() > 0 {
            replay_map(m, sid, data, off).insert(
                key,
                KeydirEntry {
                    file_id: sid,
                    value_size: value.len() as usize,
                    value_pos: (data.len() + 12 + key.len()) as u64,
                    timestamp: ts,
                },
            )
        } else {
            replay_map(m, sid, data, off).remove(key)
        }),
    decreases data.len() - off,
{
    let rec = spec_record_bytes(ts, key, value);
    let ext = data + rec;
    lemma_header_round_trip(ts, key.len() as u32, value.len() as u32);
    assert(rec.len() == 12 + key.len() + value.len());
    if off == data.len() {
        assert(ext.subrange(off, off + 12) =~= crate::format::spec_header_bytes(
            ts,
            key.len() as u32,
            value.len() as u32,
        ));
        let ksz = spec_header_ksz(ext.subrange(off, off + 12)) as int;
        let vsz = spec_header_vsz(ext.subrange(off, off + 12)) as int;
        assert(ksz == key.len());
        assert(vsz == value.len());
        assert(off + 12 + ksz + vsz == ext.len());
        assert(ext.subrange(off + 12, off + 12 + ksz) =~= key);
        assert(replay_map(m, sid, data, off) == m);
        let m2 = if vsz > 0 {
            m.insert(
                key,
                KeydirEntry {
                    file_id: sid,
                    value_size: vsz as usize,
                    value_pos: (off + 12 + ksz) as u64,
                    timestamp: spec_header_ts(ext.subrange(off, off + 12)),
                },
            )
        } else {
            m.remove(key)
        };
        assert(replay_map(m, sid, ext, off) == replay_map(m2, sid, ext, ext.len() as int));
        assert(replay_map(m2, sid, ext, ext.len() as int) == m2);
        assert(can_parse(ext, ext.len() as int));
    } else {
        let header = data.subrange(off, off + 12);
        assert(off + 12 <= data.len());
        let ksz = spec_header_ksz(header) as int;
        let vsz = spec_header_vsz(header) as int;
        assert(off + 12 + ksz + vsz <= data.len());
        assert(ext.subrange(off, off + 12) =~= header);
        assert(ext.subrange(off + 12, off + 12 + ksz) =~= data.subrange(off + 12, off + 12 + ksz));
        let key0 = data.subrange(off + 12, off + 12 + ksz);
        let m2 = if vsz > 0 {
            m.insert(
                key0,
                KeydirEntry {
                    file_id: sid,
                    value_size: vsz as usize,
                    value_pos: (off + 12 + ksz) as u64,
                    timestamp: spec_header_ts(header),
                },
            )
        } else {
            m.remove(key0)
        };
        lemma_replay_append(m2, sid, data, off + 12 + ksz + vsz, ts, key, value);
        assert(replay_map(m, sid, ext, off) == replay_map(m2, sid, ext, off + 12 + ksz + vsz));
        assert(replay_map(m, sid, data, off) == replay_map(m2, sid, data, off + 12 + ksz + vsz));
    }
}

} // verus!
