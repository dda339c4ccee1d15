//! The durable per-timeline metadata record.
//!
//! Each timeline persists one fixed 512-byte record: 508 bytes of
//! little-endian fields padded with zeros, then the little-endian
//! CRC32C of those 508 bytes. The load path demands exactly 512 bytes,
//! verifies the checksum, decodes the prefix, and rejects an unaligned
//! disk-consistent LSN.

use vstd::prelude::*;

use crate::error::RepoError;
use crate::lsn::{lsn_aligned, Lsn};

verus! {

/// Size of the record on disk.
pub const METADATA_MAX_SAFE_SIZE: usize = 512;

/// Bytes covered by the checksum.
pub const METADATA_MAX_DATA_SIZE: usize = 508;

/// The fields persisted for one timeline.
#[derive(Clone, Copy, Debug, PartialEq, Eq, Structural)]
pub struct TimelineMetadata {
    /// Everything at or below this LSN survives a crash.
    pub disk_consistent_lsn: Lsn,
    /// Start of the record before the last one, when known.
    pub prev_record_lsn: Option<Lsn>,
    /// The parent timeline, for a branched timeline.
    pub ancestor_timeline: Option<u128>,
    /// The branch point on the parent.
    pub ancestor_lsn: Lsn,
}

/// The CRC32C of a byte string, as computed by the `crc32c` crate. The
/// checksum depends on the bytes alone.
pub uninterp spec fn crc32c_of(data: Seq<u8>) -> u32;

/// Relies on crc32c::crc32c: the Castagnoli CRC of the bytes, a pure
/// function of its input.
#[verifier::external_body]
fn compute_crc32c(data: &Vec<u8>) -> (r: u32)
    ensures
        r == crc32c_of(data@),
{
    crc32c::crc32c(data)
}

/// A `u32` in little-endian bytes.
pub open spec fn le32(v: u32) -> Seq<u8> {
    seq![v as u8, (v >> 8) as u8, (v >> 16) as u8, (v >> 24) as u8]
}

/// A `u64` in little-endian bytes.
pub open spec fn le64(v: u64) -> Seq<u8> {
    seq![
        v as u8,
        (v >> 8) as u8,
        (v >> 16) as u8,
        (v >> 24) as u8,
        (v >> 32) as u8,
        (v >> 40) as u8,
        (v >> 48) as u8,
        (v >> 56) as u8,
    ]
}

/// A `u128` in little-endian bytes.
pub open spec fn le128(v: u128) -> Seq<u8> {
    le64(v as u64) + le64((v >> 64) as u64)
}

/// The `u64` encoded at `off`.
pub open spec fn de64_at(b: Seq<u8>, off: int) -> u64 {
    (b[off] as u64) | (b[off + 1] as u64) << 8 | (b[off + 2] as u64) << 16 | (b[off + 3] as u64)
        << 24 | (b[off + 4] as u64) << 32 | (b[off + 5] as u64) << 40 | (b[off + 6] as u64) << 48
        | (b[off + 7] as u64) << 56
}

/// The `u128` encoded at `off`.
pub open spec fn de128_at(b: Seq<u8>, off: int) -> u128 {
    (de64_at(b, off) as u128) | (de64_at(b, off + 8) as u128) << 64
}

/// Decoding the little-endian bytes of `v` gives `v` back.
pub proof fn lemma_le64_inverse(v: u64)
    ensures
        de64_at(le64(v), 0) == v,
{
    let b = le64(v);
    assert(b[0] == v as u8 && b[1] == (v >> 8) as u8 && b[2] == (v >> 16) as u8 && b[3] == (v
        >> 24) as u8 && b[4] == (v >> 32) as u8 && b[5] == (v >> 40) as u8 && b[6] == (v >> 48) as u8
        && b[7] == (v >> 56) as u8);
    assert(((v as u8) as u64) | (((v >> 8) as u8) as u64) << 8 | (((v >> 16) as u8) as u64) << 16 | (
    ((v >> 24) as u8) as u64) << 24 | (((v >> 32) as u8) as u64) << 32 | (((v >> 40) as u8) as u64)
        << 40 | (((v >> 48) as u8) as u64) << 48 | (((v >> 56) as u8) as u64) << 56 == v)
        by (bit_vector);
}

/// The first 508 bytes of the record: the fields, zero-padded.
pub open spec fn meta_payload(m: TimelineMetadata) -> Seq<u8> {
    le64(m.disk_consistent_lsn.0) + seq![
        (match m.prev_record_lsn {
            Some(_) => 1u8,
            None => 0u8,
        }),
    ] + le64(
        match m.prev_record_lsn {
            Some(l) => l.0,
            None => 0,
        },
    ) + seq![
        (match m.ancestor_timeline {
            Some(_) => 1u8,
            None => 0u8,
        }),
    ] + le128(
        match m.ancestor_timeline {
            Some(t) => t,
            None => 0,
        },
    ) + le64(m.ancestor_lsn.0) + Seq::new((METADATA_MAX_DATA_SIZE - 42) as nat, |i: int| 0u8)
}

/// The full 512-byte record: the payload and its checksum.
pub open spec fn meta_encoding(m: TimelineMetadata) -> Seq<u8> {
    meta_payload(m) + le32(crc32c_of(meta_payload(m)))
}

/// What loading a byte string yields: the decoded record, or nothing
/// when the length is wrong, the checksum does not match, a tag byte is
/// out of range, or the disk-consistent LSN is unaligned.
pub open spec fn parse_meta(b: Seq<u8>) -> Option<TimelineMetadata> {
    if b.len() != METADATA_MAX_SAFE_SIZE {
        None
    } else if b.subrange(
        METADATA_MAX_DATA_SIZE as int,
        METADATA_MAX_SAFE_SIZE as int,
    ) != le32(crc32c_of(b.take(METADATA_MAX_DATA_SIZE as int))) {
        None
    } else if !(b[8] == 0 || b[8] == 1) {
        None
    } else if !(b[17] == 0 || b[17] == 1) {
        None
    } else if !lsn_aligned(de64_at(b, 0)) {
        None
    } else {
        Some(
            TimelineMetadata {
                disk_consistent_lsn: Lsn(de64_at(b, 0)),
                prev_record_lsn: if b[8] == 1 {
                    Some(Lsn(de64_at(b, 9)))
                } else {
                    None
                },
                ancestor_timeline: if b[17] == 1 {
                    Some(de128_at(b, 18))
                } else {
                    None
                },
                ancestor_lsn: Lsn(de64_at(b, 34)),
            },
        )
    }
}

/// Append the little-endian bytes of `x`.
fn push_u64(out: &mut Vec<u8>, x: u64)
    ensures
        final(out)@ == old(out)@ + le64(x),
{
    out.push(x as u8);
    out.push((x >> 8) as u8);
    out.push((x >> 16) as u8);
    out.push((x >> 24) as u8);
    out.push((x >> 32) as u8);
    out.push((x >> 40) as u8);
    out.push((x >> 48) as u8);
    out.push((x >> 56) as u8);
    proof {
        assert(final(out)@ =~= old(out)@ + le64(x));
    }
}

/// Append the little-endian bytes of `x`.
fn push_u32(out: &mut Vec<u8>, x: u32)
    ensures
        final(out)@ == old(out)@ + le32(x),
{
    out.push(x as u8);
    out.push((x >> 8) as u8);
    out.push((x >> 16) as u8);
    out.push((x >> 24) as u8);
    proof {
        assert(final(out)@ =~= old(out)@ + le32(x));
    }
}

/// Serialize the record into its 512-byte on-disk form.
pub fn serialize_metadata(m: &TimelineMetadata) -> (r: Vec<u8>)
    ensures
        r@ == meta_encoding(*m),
        r@.len() == METADATA_MAX_SAFE_SIZE,
{
    let ghost tp: u8 = match m.prev_record_lsn {
        Some(_) => 1u8,
        None => 0u8,
    };
    let ghost pv: u64 = match m.prev_record_lsn {
        Some(l) => l.0,
        None => 0,
    };
    let ghost ta: u8 = match m.ancestor_timeline {
        Some(_) => 1u8,
        None => 0u8,
    };
    let ghost av: u128 = match m.ancestor_timeline {
        Some(t) => t,
        None => 0,
    };
    let mut payload: Vec<u8> = Vec::new();
    push_u64(&mut payload, m.disk_consistent_lsn.0);
    let ghost s1 = le64(m.disk_consistent_lsn.0);
    proof {
        assert(payload@ =~= s1);
    }
    match &m.prev_record_lsn {
        Some(l) => {
            payload.push(1);
            let v = *l;
            push_u64(&mut payload, v.0);
        },
        None => {
            payload.push(0);
            push_u64(&mut payload, 0);
        },
    }
    let ghost s2 = s1 + seq![tp] + le64(pv);
    proof {
        assert(payload@ =~= s2);
    }
    match &m.ancestor_timeline {
        Some(t) => {
            payload.push(1);
            let v = *t;
            push_u64(&mut payload, #[verifier::truncate] (v as u64));
            push_u64(&mut payload, #[verifier::truncate] ((v >> 64) as u64));
        },
        None => {
            payload.push(0);
            push_u64(&mut payload, 0);
            push_u64(&mut payload, 0);
        },
    }
    let ghost s3 = s2 + seq![ta] + le128(av);
    proof {
        assert(((0u128) >> 64) as u64 == 0u64) by (bit_vector);
        assert((0u128) as u64 == 0u64) by (bit_vector);
        assert(payload@ =~= s3);
    }
    push_u64(&mut payload, m.ancestor_lsn.0);
    let ghost s4 = s3 + le64(m.ancestor_lsn.0);
    proof {
        assert(payload@ =~= s4);
    }
    let ghost fields = payload@;
    while payload.len() < METADATA_MAX_DATA_SIZE
        invariant
            fields.len() == 42,
            42 <= payload@.len() <= METADATA_MAX_DATA_SIZE,
            payload@ == fields + Seq::new((payload@.len() - 42) as nat, |i: int| 0u8),
        decreases METADATA_MAX_DATA_SIZE - payload.len(),
    {
        payload.push(0);
        proof {
            assert(fields + Seq::new((payload@.len() - 42) as nat, |i: int| 0u8) =~= (fields
                + Seq::new((payload@.len() - 43) as nat, |i: int| 0u8)).push(0u8));
        }
    }
    proof {
        let p42 = le64(m.disk_consistent_lsn.0) + seq![tp] + le64(pv) + seq![ta] + le128(av)
            + le64(m.ancestor_lsn.0);
        assert(fields =~= p42);
        assert(meta_payload(*m) =~= p42 + Seq::new(
            (METADATA_MAX_DATA_SIZE - 42) as nat,
            |i: int| 0u8,
        ));
        assert(payload@ =~= meta_payload(*m));
    }
    let crc = compute_crc32c(&payload);
    let mut out = payload;
    push_u32(&mut out, crc);
    proof {
        assert(out@ =~= meta_encoding(*m));
    }
    out
}

/// The `u64` encoded at `off`.
fn read_u64(b: &Vec<u8>, off: usize) -> (r: u64)
    requires
        off + 8 <= b.len(),
    ensures
        r == de64_at(b@, off as int),
{
    (b[off] as u64) | (b[off + 1] as u64) << 8 | (b[off + 2] as u64) << 16 | (b[off + 3] as u64)
        << 24 | (b[off + 4] as u64) << 32 | (b[off + 5] as u64) << 40 | (b[off + 6] as u64) << 48
        | (b[off + 7] as u64) << 56
}

/// Load the record from its on-disk form: demand exactly 512 bytes,
/// verify the checksum, decode the prefix, reject an unaligned
/// disk-consistent LSN.
pub fn deserialize_metadata(b: &Vec<u8>) -> (r: Result<TimelineMetadata, RepoError>)
    ensures
        r matches Ok(m) ==> parse_meta(b@) == Some(m),
        r is Err ==> parse_meta(b@) is None && r == Err::<TimelineMetadata, RepoError>(
            RepoError::Corruption,
        ),
{
    if b.len() != METADATA_MAX_SAFE_SIZE {
        return Err(RepoError::Corruption);
    }
    let mut payload: Vec<u8> = Vec::new();
    let mut i: usize = 0;
    while i < METADATA_MAX_DATA_SIZE
        invariant
            i <= METADATA_MAX_DATA_SIZE,
            b@.len() == METADATA_MAX_SAFE_SIZE,
            payload@ == b@.take(i as int),
        decreases METADATA_MAX_DATA_SIZE - i,
    {
        payload.push(b[i]);
        i = i + 1;
        proof {
            assert(b@.take(i as int) =~= b@.take(i - 1).push(b@[i - 1]));
        }
    }
    let crc = compute_crc32c(&payload);
    let ok = b[508] == crc as u8 && b[509] == (crc >> 8) as u8 && b[510] == (crc >> 16) as u8
        && b[511] == (crc >> 24) as u8;
    proof {
        let stored = b@.subrange(METADATA_MAX_DATA_SIZE as int, METADATA_MAX_SAFE_SIZE as int);
        let expect = le32(crc32c_of(b@.take(METADATA_MAX_DATA_SIZE as int)));
        assert(stored.len() == 4 && expect.len() == 4);
        assert(stored[0] == b@[508] && stored[1] == b@[509] && stored[2] == b@[510] && stored[3]
            == b@[511]);
        if ok {
            assert(stored =~= expect);
        } else {
            assert(stored != expect);
        }
    }
    if !ok {
        return Err(RepoError::Corruption);
    }
    let tag_prev = b[8];
    let tag_anc = b[17];
    if !(tag_prev == 0 || tag_prev == 1) {
        return Err(RepoError::Corruption);
    }
    if !(tag_anc == 0 || tag_anc == 1) {
        return Err(RepoError::Corruption);
    }
    let dcl = read_u64(b, 0);
    if dcl % 8 != 0 {
        return Err(RepoError::Corruption);
    }
    let prev = if tag_prev == 1 {
        Some(Lsn(read_u64(b, 9)))
    } else {
        None
    };
    let anc = if tag_anc == 1 {
        let lo = read_u64(b, 18);
        let hi = read_u64(b, 26);
        Some((lo as u128) | (hi as u128) << 64)
    } else {
        None
    };
    let alsn = read_u64(b, 34);
    Ok(
        TimelineMetadata {
            disk_consistent_lsn: Lsn(dcl),
            prev_record_lsn: prev,
            ancestor_timeline: anc,
            ancestor_lsn: Lsn(alsn),
        },
    )
}

/// Durability round trip: a record with an aligned disk-consistent LSN,
/// serialized and loaded back, decodes to itself.
#[verifier::rlimit(80)]
pub proof fn lemma_metadata_round_trip(m: TimelineMetadata)
    requires
        lsn_aligned(m.disk_consistent_lsn.0),
    ensures
        parse_meta(meta_encoding(m)) == Some(m),
{
    let p = meta_payload(m);
    let b = meta_encoding(m);
    assert(p.len() == 508);
    assert(b.len() == 512);
    assert(b.take(METADATA_MAX_DATA_SIZE as int) =~= p);
    assert(b.subrange(METADATA_MAX_DATA_SIZE as int, METADATA_MAX_SAFE_SIZE as int) =~= le32(
        crc32c_of(p),
    ));
    let prev_v: u64 = match m.prev_record_lsn {
        Some(l) => l.0,
        None => 0,
    };
    let anc_v: u128 = match m.ancestor_timeline {
        Some(t) => t,
        None => 0,
    };
    assert forall|j: int| 0 <= j < 8 implies #[trigger] b[j] == le64(m.disk_consistent_lsn.0)[j] by {
    }
    assert(b.subrange(0, 8) =~= le64(m.disk_consistent_lsn.0));
    lemma_le64_inverse(m.disk_consistent_lsn.0);
    assert(de64_at(b, 0) == de64_at(le64(m.disk_consistent_lsn.0), 0)) by {
        assert(le64(m.disk_consistent_lsn.0) =~= b.subrange(0, 8));
        assert forall|j: int| 0 <= j < 8 implies #[trigger] le64(m.disk_consistent_lsn.0)[j] == b[j] by {
        }
    }
    assert(b.subrange(9, 17) =~= le64(prev_v));
    assert(de64_at(b, 9) == de64_at(le64(prev_v), 0)) by {
        assert forall|j: int| 0 <= j < 8 implies #[trigger] le64(prev_v)[j] == b[9 + j] by {
        }
    }
    lemma_le64_inverse(prev_v);
    assert(b.subrange(18, 26) =~= le64(anc_v as u64));
    assert(de64_at(b, 18) == de64_at(le64(anc_v as u64), 0)) by {
        assert forall|j: int| 0 <= j < 8 implies #[trigger] le64(anc_v as u64)[j] == b[18 + j] by {
        }
    }
    lemma_le64_inverse(anc_v as u64);
    assert(b.subrange(26, 34) =~= le64((anc_v >> 64) as u64));
    assert(de64_at(b, 26) == de64_at(le64((anc_v >> 64) as u64), 0)) by {
        assert forall|j: int| 0 <= j < 8 implies #[trigger] le64((anc_v >> 64) as u64)[j] == b[26 + j] by {
        }
    }
    lemma_le64_inverse((anc_v >> 64) as u64);
    assert(de128_at(b, 18) == anc_v) by {
        assert(de64_at(b, 18) == anc_v as u64);
        assert(de64_at(b, 26) == (anc_v >> 64) as u64);
        assert(((anc_v as u64) as u128) | (((anc_v >> 64) as u64) as u128) << 64 == anc_v)
            by (bit_vector);
    }
    assert(b.subrange(34, 42) =~= le64(m.ancestor_lsn.0));
    assert(de64_at(b, 34) == de64_at(le64(m.ancestor_lsn.0), 0)) by {
        assert forall|j: int| 0 <= j < 8 implies #[trigger] le64(m.ancestor_lsn.0)[j] == b[34 + j] by {
        }
    }
    lemma_le64_inverse(m.ancestor_lsn.0);
    assert(b[8] == (match m.prev_record_lsn {
        Some(_) => 1u8,
        None => 0u8,
    }));
    assert(b[17] == (match m.ancestor_timeline {
        Some(_) => 1u8,
        None => 0u8,
    }));
}

} // verus!
