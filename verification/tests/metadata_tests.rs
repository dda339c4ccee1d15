//! Durability of the on-disk metadata record.

use pagestore::error::RepoError;
use pagestore::lsn::Lsn;
use pagestore::metadata::{deserialize_metadata, serialize_metadata, TimelineMetadata};

fn sample() -> TimelineMetadata {
    TimelineMetadata {
        disk_consistent_lsn: Lsn(0x1234_5678),
        prev_record_lsn: Some(Lsn(0x1234_5670)),
        ancestor_timeline: Some(0xdead_beef_dead_beef_dead_beef_dead_beefu128),
        ancestor_lsn: Lsn(0x1000),
    }
}

#[test]
fn round_trip() {
    let m = sample();
    let bytes = serialize_metadata(&m);
    assert_eq!(bytes.len(), 512);
    assert_eq!(deserialize_metadata(&bytes).unwrap(), m);

    let root = TimelineMetadata {
        disk_consistent_lsn: Lsn(0),
        prev_record_lsn: None,
        ancestor_timeline: None,
        ancestor_lsn: Lsn(0),
    };
    let bytes = serialize_metadata(&root);
    assert_eq!(deserialize_metadata(&bytes).unwrap(), root);
}

#[test]
fn payload_corruption_is_detected() {
    let bytes = serialize_metadata(&sample());
    for pos in [0usize, 7, 8, 17, 40, 200, 507] {
        let mut bad = bytes.clone();
        bad[pos] ^= 0x01;
        assert_eq!(deserialize_metadata(&bad), Err(RepoError::Corruption));
    }
}

#[test]
fn checksum_corruption_is_detected() {
    let bytes = serialize_metadata(&sample());
    for pos in [508usize, 509, 510, 511] {
        let mut bad = bytes.clone();
        bad[pos] ^= 0x80;
        assert_eq!(deserialize_metadata(&bad), Err(RepoError::Corruption));
    }
}

#[test]
fn wrong_length_is_detected() {
    let bytes = serialize_metadata(&sample());
    let mut short = bytes.clone();
    short.pop();
    assert_eq!(deserialize_metadata(&short), Err(RepoError::Corruption));
    let mut long = bytes.clone();
    long.push(0);
    assert_eq!(deserialize_metadata(&long), Err(RepoError::Corruption));
    assert_eq!(deserialize_metadata(&Vec::new()), Err(RepoError::Corruption));
}
