use vstd::prelude::*;
use crate::codec::{
    le_encode, le_value, lemma_le_encode_len, lemma_le_value_bound, lemma_pow256_values, push_le,
    read_le,
};
use crate::error::TenantError;
use crate::id::TimelineId;
use crate::lsn::Lsn;

verus! {

/// Size of the metadata file: a 4-byte CRC-32C followed by the checksummed part.
pub const METADATA_MAX_SIZE: usize = 512;

/// Version of the layout written by `to_bytes`.
pub const METADATA_FORMAT_VERSION: u16 = 4;

/// Size of the serialized fields that follow the 8-byte header.
pub const METADATA_BODY_SIZE: u16 = 62;

/// The persisted header of a timeline.
#[derive(Clone, Copy, Debug, PartialEq, Eq, Structural)]
pub struct TimelineMetadata {
    pub disk_consistent_lsn: Lsn,
    pub prev_record_lsn: Option<Lsn>,
    pub ancestor_timeline: Option<TimelineId>,
    pub ancestor_lsn: Lsn,
    pub latest_gc_cutoff_lsn: Lsn,
    pub initdb_lsn: Lsn,
    pub pg_version: u32,
}

/// Name for the CRC-32C (Castagnoli) checksum of a byte string.
pub uninterp spec fn crc32c_of(data: Seq<u8>) -> u32;

/// Relies on crc32c::crc32c: the CRC-32C of the bytes, which depends on them alone.
#[verifier::external_body]
fn crc32c_checksum(data: &[u8]) -> (r: u32)
    ensures
        r == crc32c_of(data@),
{
    crc32c::crc32c(data)
}

pub open spec fn opt_lsn_bytes(o: Option<Lsn>) -> Seq<u8> {
    match o {
        Some(l) => seq![1u8] + le_encode(l.0 as nat, 8),
        None => seq![0u8] + le_encode(0, 8),
    }
}

pub open spec fn opt_id_bytes(o: Option<TimelineId>) -> Seq<u8> {
    match o {
        Some(t) => seq![1u8] + le_encode(t.0 as nat, 16),
        None => seq![0u8] + le_encode(0, 16),
    }
}

/// The serialized fields, little-endian, options as a tag byte and a value.
pub open spec fn body_bytes(m: TimelineMetadata) -> Seq<u8> {
    le_encode(m.disk_consistent_lsn.0 as nat, 8) + opt_lsn_bytes(m.prev_record_lsn) + opt_id_bytes(
        m.ancestor_timeline,
    ) + le_encode(m.ancestor_lsn.0 as nat, 8) + le_encode(m.latest_gc_cutoff_lsn.0 as nat, 8)
        + le_encode(m.initdb_lsn.0 as nat, 8) + le_encode(m.pg_version as nat, 4)
}

/// Everything after the checksum: body size, format version, body, zero padding.
pub open spec fn payload_bytes(m: TimelineMetadata) -> Seq<u8> {
    le_encode(62, 2) + le_encode(4, 2) + body_bytes(m) + Seq::new(442, |i: int| 0u8)
}

/// The 512-byte metadata file of `m`.
pub open spec fn metadata_bytes(m: TimelineMetadata) -> Seq<u8> {
    le_encode(crc32c_of(payload_bytes(m)) as nat, 4) + payload_bytes(m)
}

/// The little-endian number in `b[off..off + n]`.
pub open spec fn field(b: Seq<u8>, off: int, n: int) -> int {
    le_value(b.subrange(off, off + n))
}

/// What reading a metadata file yields.
pub open spec fn parse_metadata(b: Seq<u8>) -> Result<TimelineMetadata, TenantError> {
    if b.len() != 512 {
        Err(TenantError::MetadataParse)
    } else if field(b, 0, 4) != crc32c_of(b.subrange(4, 512)) as int {
        Err(TenantError::MetadataChecksumMismatch)
    } else if field(b, 4, 2) != 62 || field(b, 6, 2) != 4 || b[16] > 1 || b[25] > 1 {
        Err(TenantError::MetadataParse)
    } else {
        Ok(
            TimelineMetadata {
                disk_consistent_lsn: Lsn(field(b, 8, 8) as u64),
                prev_record_lsn: if b[16] == 1 {
                    Some(Lsn(field(b, 17, 8) as u64))
                } else {
                    None
                },
                ancestor_timeline: if b[25] == 1 {
                    Some(TimelineId(field(b, 26, 16) as u128))
                } else {
                    None
                },
                ancestor_lsn: Lsn(field(b, 42, 8) as u64),
                latest_gc_cutoff_lsn: Lsn(field(b, 50, 8) as u64),
                initdb_lsn: Lsn(field(b, 58, 8) as u64),
                pg_version: field(b, 66, 4) as u32,
            },
        )
    }
}

impl TimelineMetadata {
    pub fn new(
        disk_consistent_lsn: Lsn,
        prev_record_lsn: Option<Lsn>,
        ancestor_timeline: Option<TimelineId>,
        ancestor_lsn: Lsn,
        latest_gc_cutoff_lsn: Lsn,
        initdb_lsn: Lsn,
        pg_version: u32,
    ) -> (r: TimelineMetadata)
        ensures
            r == (TimelineMetadata {
                disk_consistent_lsn,
                prev_record_lsn,
                ancestor_timeline,
                ancestor_lsn,
                latest_gc_cutoff_lsn,
                initdb_lsn,
                pg_version,
            }),
    {
        TimelineMetadata {
            disk_consistent_lsn,
            prev_record_lsn,
            ancestor_timeline,
            ancestor_lsn,
            latest_gc_cutoff_lsn,
            initdb_lsn,
            pg_version,
        }
    }

    pub fn ancestor_timeline(&self) -> (r: Option<TimelineId>)
        ensures
            r == self.ancestor_timeline,
    {
        self.ancestor_timeline
    }

    pub fn pg_version(&self) -> (r: u32)
        ensures
            r == self.pg_version,
    {
        self.pg_version
    }

    /// Serializes into the 512-byte checksummed layout.
    pub fn to_bytes(&self) -> (r: Vec<u8>)
        ensures
            r@ == metadata_bytes(*self),
            r@.len() == 512,
    {
        proof {
            lemma_pow256_values();
        }
        let mut payload: Vec<u8> = Vec::new();
        push_le(&mut payload, 62, 2);
        push_le(&mut payload, 4, 2);
        push_le(&mut payload, self.disk_consistent_lsn.0 as u128, 8);
        match self.prev_record_lsn {
            Some(l) => {
                payload.push(1);
                push_le(&mut payload, l.0 as u128, 8);
            },
            None => {
                payload.push(0);
                push_le(&mut payload, 0, 8);
            },
        }
        match self.ancestor_timeline {
            Some(t) => {
                payload.push(1);
                push_le(&mut payload, t.0, 16);
            },
            None => {
                payload.push(0);
                push_le(&mut payload, 0, 16);
            },
        }
        push_le(&mut payload, self.ancestor_lsn.0 as u128, 8);
        push_le(&mut payload, self.latest_gc_cutoff_lsn.0 as u128, 8);
        push_le(&mut payload, self.initdb_lsn.0 as u128, 8);
        push_le(&mut payload, self.pg_version as u128, 4);
        let ghost filled = payload@;
        assert(filled =~= le_encode(62, 2) + le_encode(4, 2) + body_bytes(*self));
        proof {
            lemma_body_len(*self);
            lemma_le_encode_len(62, 2);
            lemma_le_encode_len(4, 2);
        }
        let mut i: usize = 0;
        while i < 442
            invariant
                i <= 442,
                payload@ =~= filled + Seq::new(i as nat, |k: int| 0u8),
            decreases 442 - i,
        {
            payload.push(0);
            i = i + 1;
        }
        assert(payload@ =~= payload_bytes(*self));
        let crc = crc32c_checksum(payload.as_slice());
        let mut out: Vec<u8> = Vec::new();
        push_le(&mut out, crc as u128, 4);
        out.append(&mut payload);
        proof {
            lemma_le_encode_len(crc as nat, 4);
        }
        out
    }

    /// Parses a metadata file, checking its size, checksum, size field and version.
    pub fn from_bytes(b: &[u8]) -> (r: Result<TimelineMetadata, TenantError>)
        ensures
            r == parse_metadata(b@),
    {
        if b.len() != METADATA_MAX_SIZE {
            return Err(TenantError::MetadataParse);
        }
        let stored = read_le(b, 0, 4);
        let crc = crc32c_checksum(&b[4..512]);
        if stored != crc as u128 {
            return Err(TenantError::MetadataChecksumMismatch);
        }
        let size = read_le(b, 4, 2);
        let version = read_le(b, 6, 2);
        if size != 62 || version != 4 || b[16] > 1 || b[25] > 1 {
            return Err(TenantError::MetadataParse);
        }
        proof {
            lemma_pow256_values();
            lemma_le_value_bound(b@.subrange(8, 16));
            lemma_le_value_bound(b@.subrange(17, 25));
            lemma_le_value_bound(b@.subrange(26, 42));
            lemma_le_value_bound(b@.subrange(42, 50));
            lemma_le_value_bound(b@.subrange(50, 58));
            lemma_le_value_bound(b@.subrange(58, 66));
            lemma_le_value_bound(b@.subrange(66, 70));
        }
        let prev_record_lsn = if b[16] == 1 {
            Some(Lsn(read_le(b, 17, 8) as u64))
        } else {
            None
        };
        let ancestor_timeline = if b[25] == 1 {
            Some(TimelineId(read_le(b, 26, 16)))
        } else {
            None
        };
        Ok(
            TimelineMetadata {
                disk_consistent_lsn: Lsn(read_le(b, 8, 8) as u64),
                prev_record_lsn,
                ancestor_timeline,
                ancestor_lsn: Lsn(read_le(b, 42, 8) as u64),
                latest_gc_cutoff_lsn: Lsn(read_le(b, 50, 8) as u64),
                initdb_lsn: Lsn(read_le(b, 58, 8) as u64),
                pg_version: read_le(b, 66, 4) as u32,
            },
        )
    }
}

proof fn lemma_body_len(m: TimelineMetadata)
    ensures
        body_bytes(m).len() == 62,
{
    lemma_le_encode_len(m.disk_consistent_lsn.0 as nat, 8);
    lemma_le_encode_len(0, 8);
    lemma_le_encode_len(0, 16);
    if let Some(l) = m.prev_record_lsn {
        lemma_le_encode_len(l.0 as nat, 8);
    }
    if let Some(t) = m.ancestor_timeline {
        lemma_le_encode_len(t.0 as nat, 16);
    }
    lemma_le_encode_len(m.ancestor_lsn.0 as nat, 8);
    lemma_le_encode_len(m.latest_gc_cutoff_lsn.0 as nat, 8);
    lemma_le_encode_len(m.initdb_lsn.0 as nat, 8);
    lemma_le_encode_len(m.pg_version as nat, 4);
}

} // verus!
