//! The per-block page version map of an open layer.

use pagestore::lsn::Lsn;
use pagestore::page_versions::{PageVersion, PageVersions};

fn empty_page_version() -> PageVersion {
    PageVersion { page_image: None, record: None }
}

#[test]
fn test_ordered_iter() {
    let mut page_versions = PageVersions::new();
    let blocks: u32 = 1000;
    let lsns: u64 = 50;

    for blknum in 0..blocks {
        for lsn in 0..lsns {
            let old = page_versions.append_or_update_last(blknum, Lsn(lsn), empty_page_version());
            assert!(old.is_none());
        }
    }

    let mut iter = page_versions.ordered_block_iter();
    for blknum in 0..blocks {
        let (actual_blknum, vec_map) = iter.next().unwrap();
        let slice = vec_map.as_slice();
        assert_eq!(actual_blknum, blknum);
        assert_eq!(slice.len(), lsns as usize);
        for lsn in 0..lsns {
            assert_eq!(Lsn(lsn), slice[lsn as usize].0);
        }
    }
    assert!(iter.next().is_none());
    assert!(iter.next().is_none()); // should be robust against excessive next() calls
}

#[test]
fn range_and_split() {
    let mut pv = PageVersions::new();
    for lsn in [10u64, 20, 30, 40] {
        pv.append_or_update_last(3, Lsn(lsn), empty_page_version());
    }
    for lsn in [25u64, 35] {
        pv.append_or_update_last(8, Lsn(lsn), empty_page_version());
    }

    let mid = pv.get_block_lsn_range(3, Lsn(20), Lsn(40));
    let lsns: Vec<u64> = mid.iter().map(|p| p.0 .0).collect();
    assert_eq!(lsns, vec![20, 30]);
    assert!(pv.get_block_lsn_range(9, Lsn(0), Lsn(100)).is_empty());

    let (older, newer, after_oldest) = pv.split_at(Lsn(30));
    assert_eq!(after_oldest, Some(Lsn(30)));

    let mut it = older.ordered_block_iter();
    let (b, vm) = it.next().unwrap();
    assert_eq!(b, 3);
    let lsns: Vec<u64> = vm.as_slice().iter().map(|p| p.0 .0).collect();
    assert_eq!(lsns, vec![10, 20]);
    let (b, vm) = it.next().unwrap();
    assert_eq!(b, 8);
    let lsns: Vec<u64> = vm.as_slice().iter().map(|p| p.0 .0).collect();
    assert_eq!(lsns, vec![25]);
    assert!(it.next().is_none());

    let mut it = newer.ordered_block_iter();
    let (b, vm) = it.next().unwrap();
    assert_eq!(b, 3);
    let lsns: Vec<u64> = vm.as_slice().iter().map(|p| p.0 .0).collect();
    assert_eq!(lsns, vec![30, 40]);
    let (b, vm) = it.next().unwrap();
    assert_eq!(b, 8);
    let lsns: Vec<u64> = vm.as_slice().iter().map(|p| p.0 .0).collect();
    assert_eq!(lsns, vec![35]);
    assert!(it.next().is_none());
}

#[test]
fn append_replaces_at_equal_lsn() {
    let mut pv = PageVersions::new();
    assert!(pv.is_empty());
    let first = PageVersion { page_image: Some(vec![1, 2, 3]), record: None };
    let old = pv.append_or_update_last(7, Lsn(16), first);
    assert!(old.is_none());
    assert!(!pv.is_empty());

    let second = PageVersion { page_image: Some(vec![9]), record: None };
    let old = pv.append_or_update_last(7, Lsn(16), second);
    let replaced = old.unwrap();
    assert_eq!(replaced.page_image, Some(vec![1, 2, 3]));

    let mut iter = pv.ordered_block_iter();
    let (blk, vm) = iter.next().unwrap();
    assert_eq!(blk, 7);
    assert_eq!(vm.as_slice().len(), 1);
    assert_eq!(vm.as_slice()[0].0, Lsn(16));
    assert_eq!(vm.as_slice()[0].1.page_image, Some(vec![9]));
}
