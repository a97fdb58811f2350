//! Serialization and deserialization of on-disk records.
//!
//! A record is a 12-byte header followed by the raw key bytes and the raw
//! value bytes. The header holds three little-endian unsigned 32-bit fields:
//! timestamp (seconds since the epoch), key size and value size. A value
//! size of zero marks a tombstone.

use vstd::prelude::*;
use vstd::bytes::{
    lemma_auto_spec_u32_to_from_le_bytes,
    spec_u32_from_le_bytes,
    spec_u32_to_le_bytes,
    u32_from_le_bytes,
    u32_to_le_bytes,
};
use vstd::slice::{slice_subrange, slice_to_vec};

use crate::errors::FormatError;

verus! {

pub const HEADER_SIZE: usize = 12;

/// The 12 header bytes for the given timestamp, key size and value size.
pub open spec fn spec_header_bytes(ts: u32, ksz: u32, vsz: u32) -> Seq<u8> {
    spec_u32_to_le_bytes(ts) + spec_u32_to_le_bytes(ksz) + spec_u32_to_le_bytes(vsz)
}

/// The full on-disk bytes of one record: header, key, value.
pub open spec fn spec_record_bytes(ts: u32, key: Seq<u8>, value: Seq<u8>) -> Seq<u8> {
    spec_header_bytes(ts, key.len() as u32, value.len() as u32) + key + value
}

/// The timestamp field of a 12-byte header.
pub open spec fn spec_header_ts(b: Seq<u8>) -> u32 {
    spec_u32_from_le_bytes(b.subrange(0, 4))
}

/// The key-size field of a 12-byte header.
pub open spec fn spec_header_ksz(b: Seq<u8>) -> u32 {
    spec_u32_from_le_bytes(b.subrange(4, 8))
}

/// The value-size field of a 12-byte header.
pub open spec fn spec_header_vsz(b: Seq<u8>) -> u32 {
    spec_u32_from_le_bytes(b.subrange(8, 12))
}

/// Decoding the three fields out of an encoded header gives back exactly the
/// fields that were encoded.
pub proof fn lemma_header_round_trip(ts: u32, ksz: u32, vsz: u32)
    ensures
        spec_header_bytes(ts, ksz, vsz).len() == 12,
        spec_header_ts(spec_header_bytes(ts, ksz, vsz)) == ts,
        spec_header_ksz(spec_header_bytes(ts, ksz, vsz)) == ksz,
        spec_header_vsz(spec_header_bytes(ts, ksz, vsz)) == vsz,
{
    lemma_auto_spec_u32_to_from_le_bytes();
    let b = spec_header_bytes(ts, ksz, vsz);
    assert(b.subrange(0, 4) =~= spec_u32_to_le_bytes(ts));
    assert(b.subrange(4, 8) =~= spec_u32_to_le_bytes(ksz));
    assert(b.subrange(8, 12) =~= spec_u32_to_le_bytes(vsz));
}

/// Record entry header: the timestamp, key size and value size, kept in
/// their 12-byte on-disk form.
#[derive(Debug, Clone, PartialEq)]
pub struct Header {
    bytes: Vec<u8>,
}

impl View for Header {
    type V = Seq<u8>;

    closed spec fn view(&self) -> Seq<u8> {
        self.bytes@
    }
}

impl Header {
    /// A header is well formed when it holds exactly 12 bytes.
    pub open spec fn wf(&self) -> bool {
        self@.len() == 12
    }

    /// Creates a new `Header`.
    pub fn new(timestamp: u32, key_size: u32, value_size: u32) -> (h: Self)
        ensures
            h.wf(),
            h@ == spec_header_bytes(timestamp, key_size, value_size),
            spec_header_ts(h@) == timestamp,
            spec_header_ksz(h@) == key_size,
            spec_header_vsz(h@) == value_size,
    {
        proof {
            lemma_header_round_trip(timestamp, key_size, value_size);
        }
        let mut buf = u32_to_le_bytes(timestamp);
        let mut ksz_bytes = u32_to_le_bytes(key_size);
        let mut vsz_bytes = u32_to_le_bytes(value_size);
        buf.append(&mut ksz_bytes);
        buf.append(&mut vsz_bytes);
        Header { bytes: buf }
    }

    /// Entry timestamp.
    pub fn timestamp(&self) -> (r: u32)
        requires
            self.wf(),
        ensures
            r == spec_header_ts(self@),
    {
        u32_from_le_bytes(slice_subrange(self.bytes.as_slice(), 0, 4))
    }

    /// Entry key size.
    pub fn key_size(&self) -> (r: usize)
        requires
            self.wf(),
        ensures
            r == spec_header_ksz(self@) as usize,
    {
        u32_from_le_bytes(slice_subrange(self.bytes.as_slice(), 4, 8)) as usize
    }

    /// Entry value size.
    pub fn value_size(&self) -> (r: usize)
        requires
            self.wf(),
        ensures
            r == spec_header_vsz(self@) as usize,
    {
        u32_from_le_bytes(slice_subrange(self.bytes.as_slice(), 8, 12)) as usize
    }

    /// Returns a slice of the underlying header byte representation.
    pub fn as_slice(&self) -> (r: &[u8])
        ensures
            r@ == self@,
    {
        self.bytes.as_slice()
    }

    /// Decodes a header from a byte slice; fails unless exactly 12 bytes are
    /// supplied.
    pub fn try_from_bytes(value: &[u8]) -> (r: Result<Self, FormatError>)
        ensures
            r is Ok <==> value@.len() == 12,
            r matches Ok(h) ==> h.wf() && h@ == value@,
    {
        if value.len() != 12 {
            Err(FormatError::DeserializeError)
        } else {
            Ok(Header { bytes: slice_to_vec(value) })
        }
    }
}

/// The current wall clock, in whole seconds since the Unix epoch.
///
/// Relies on chrono's `Utc::now` for the instant and `DateTime::timestamp`
/// for its conversion to seconds. The result depends on the clock, so
/// nothing is promised of it.
#[verifier::external_body]
fn now_seconds() -> i64 {
    chrono::Utc::now().timestamp()
}

/// Clamps a count of seconds into the unsigned 32-bit range of the header's
/// timestamp field.
pub open spec fn spec_clamp_timestamp(t: i64) -> u32 {
    if t < 0 {
        0u32
    } else if t > u32::MAX {
        u32::MAX
    } else {
        t as u32
    }
}

/// The current wall clock as a header timestamp. Seconds outside the
/// unsigned 32-bit range are clamped to its nearest bound; the field
/// saturates rather than failing, since record timestamps are informational
/// and never used for tie-breaking.
pub fn now_timestamp() -> (r: u32) {
    let t = now_seconds();
    if t < 0 {
        0
    } else if t > u32::MAX as i64 {
        u32::MAX
    } else {
        t as u32
    }
}

/// Entry disk representation.
#[derive(Debug, Clone)]
pub struct DiskEntry {
    pub header: Header,
    pub key: Vec<u8>,
    pub value: Vec<u8>,
}

impl DiskEntry {
    /// An entry is well formed when its header's size fields match its key
    /// and value.
    pub open spec fn wf(&self) -> bool {
        &&& self.header.wf()
        &&& self.key@.len() <= u32::MAX
        &&& self.value@.len() <= u32::MAX
        &&& spec_header_ksz(self.header@) == self.key@.len()
        &&& spec_header_vsz(self.header@) == self.value@.len()
    }

    /// The full on-disk bytes of this entry: header, key, value.
    pub open spec fn spec_bytes(&self) -> Seq<u8> {
        self.header@ + self.key@ + self.value@
    }

    /// Creates a new `DiskEntry` stamped with the current wall clock.
    pub fn new(key: &[u8], value: &[u8]) -> (e: Self)
        requires
            key@.len() <= u32::MAX,
            value@.len() <= u32::MAX,
        ensures
            e.wf(),
            e.key@ == key@,
            e.value@ == value@,
            e.spec_bytes() == spec_record_bytes(spec_header_ts(e.header@), key@, value@),
    {
        let timestamp = now_timestamp();
        let header = Header::new(timestamp, key.len() as u32, value.len() as u32);
        let e = DiskEntry { header, key: slice_to_vec(key), value: slice_to_vec(value) };
        proof {
            lemma_header_round_trip(timestamp, key@.len() as u32, value@.len() as u32);
        }
        e
    }
}

/// Keydir in-memory entry: the location of one live value on disk.
#[derive(Debug, Clone, Copy, PartialEq, Eq, Structural)]
pub struct KeydirEntry {
    pub file_id: u32,
    pub value_size: usize,
    pub value_pos: u64,
    pub timestamp: u32,
}

impl KeydirEntry {
    /// Creates a new `KeydirEntry`.
    pub fn new(file_id: u32, value_size: usize, value_pos: u64, timestamp: u32) -> (e: Self)
        ensures
            e == (KeydirEntry { file_id, value_size, value_pos, timestamp }),
    {
        Self { file_id, value_size, value_pos, timestamp }
    }
}

} // verus!
