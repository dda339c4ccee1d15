//! End-to-end scenarios over the repository with the verified redo
//! manager.

use pagestore::error::RepoError;
use pagestore::metadata::TimelineMetadata;
use pagestore::lsn::Lsn;
use pagestore::redo::SimpleRedoManager;
use pagestore::relish::{RelTag, RelishTag};
use pagestore::repository::BufferedRepository;
use pagestore::store::WalRecord;

fn rel111() -> RelishTag {
    RelishTag::Relation(RelTag { spcnode: 1, dbnode: 1, relnode: 1, forknum: 0 })
}

fn page(fill: u8) -> Vec<u8> {
    vec![fill; 8192]
}

fn patched(base: &[u8], payload: &[u8]) -> Vec<u8> {
    let mut out = base.to_vec();
    let n = payload.len().min(out.len());
    out[..n].copy_from_slice(&payload[..n]);
    out
}

fn delta(payload: Vec<u8>) -> WalRecord {
    WalRecord { will_init: false, rec: payload }
}

#[test]
fn single_page() {
    let redo = SimpleRedoManager;
    let mut repo = BufferedRepository::new(42);
    repo.create_empty_timeline(1).unwrap();
    let e = rel111();
    let a = page(0xAA);
    repo.put_page_image(1, e, 0, Lsn(0x10), a.clone()).unwrap();
    repo.advance_last_record_lsn(1, Lsn(0x10)).unwrap();
    assert_eq!(repo.get_page_at_lsn(&redo, 1, e, 0, Lsn(0x10)).unwrap(), a);
    assert_eq!(repo.get_relish_size(1, e, Lsn(0x10)).unwrap(), Some(1));
}

#[test]
fn delta_chain() {
    let redo = SimpleRedoManager;
    let mut repo = BufferedRepository::new(42);
    repo.create_empty_timeline(1).unwrap();
    let e = rel111();
    let a = page(0xAA);
    repo.put_page_image(1, e, 0, Lsn(0x10), a.clone()).unwrap();
    repo.put_wal_record(1, Lsn(0x20), e, 0, delta(vec![1, 2, 3])).unwrap();
    repo.put_wal_record(1, Lsn(0x30), e, 0, delta(vec![4, 5])).unwrap();
    repo.advance_last_record_lsn(1, Lsn(0x30)).unwrap();
    let after_r1 = patched(&a, &[1, 2, 3]);
    let after_r2 = patched(&after_r1, &[4, 5]);
    assert_eq!(repo.get_page_at_lsn(&redo, 1, e, 0, Lsn(0x30)).unwrap(), after_r2);
    assert_eq!(repo.get_page_at_lsn(&redo, 1, e, 0, Lsn(0x20)).unwrap(), after_r1);
    assert_eq!(repo.get_page_at_lsn(&redo, 1, e, 0, Lsn(0x10)).unwrap(), a);
}

#[test]
fn will_init_truncates_chain() {
    let redo = SimpleRedoManager;
    let mut repo = BufferedRepository::new(42);
    repo.create_empty_timeline(1).unwrap();
    let e = rel111();
    let a = page(0xAA);
    repo.put_page_image(1, e, 0, Lsn(0x10), a).unwrap();
    repo.put_wal_record(1, Lsn(0x20), e, 0, delta(vec![1, 2, 3])).unwrap();
    repo.put_wal_record(1, Lsn(0x30), e, 0, delta(vec![4, 5])).unwrap();
    repo.put_wal_record(1, Lsn(0x40), e, 0, WalRecord { will_init: true, rec: vec![9, 9] })
        .unwrap();
    repo.advance_last_record_lsn(1, Lsn(0x40)).unwrap();
    let mut expect = vec![0u8; 8192];
    expect[0] = 9;
    expect[1] = 9;
    assert_eq!(repo.get_page_at_lsn(&redo, 1, e, 0, Lsn(0x40)).unwrap(), expect);
}

#[test]
fn branch_inherits_and_diverges() {
    let redo = SimpleRedoManager;
    let mut repo = BufferedRepository::new(42);
    repo.create_empty_timeline(1).unwrap();
    let e = rel111();
    let a = page(0xAA);
    repo.put_page_image(1, e, 0, Lsn(0x10), a.clone()).unwrap();
    repo.put_wal_record(1, Lsn(0x20), e, 0, delta(vec![1, 2, 3])).unwrap();
    repo.put_wal_record(1, Lsn(0x30), e, 0, delta(vec![4, 5])).unwrap();
    repo.advance_last_record_lsn(1, Lsn(0x30)).unwrap();

    repo.branch_timeline(1, 2, Lsn(0x28)).unwrap();
    let after_r1 = patched(&a, &[1, 2, 3]);
    assert_eq!(repo.get_page_at_lsn(&redo, 2, e, 0, Lsn(0x28)).unwrap(), after_r1);
    assert_eq!(repo.get_relish_size(2, e, Lsn(0x28)).unwrap(), Some(1));

    repo.put_wal_record(2, Lsn(0x30), e, 0, delta(vec![8, 8, 8])).unwrap();
    repo.advance_last_record_lsn(2, Lsn(0x30)).unwrap();
    let child_r2 = patched(&after_r1, &[8, 8, 8]);
    let parent_r2 = patched(&after_r1, &[4, 5]);
    assert_eq!(repo.get_page_at_lsn(&redo, 2, e, 0, Lsn(0x30)).unwrap(), child_r2);
    assert_eq!(repo.get_page_at_lsn(&redo, 1, e, 0, Lsn(0x30)).unwrap(), parent_r2);
}

#[test]
fn drop_hides_entity() {
    let mut repo = BufferedRepository::new(42);
    repo.create_empty_timeline(1).unwrap();
    let e = rel111();
    repo.put_page_image(1, e, 0, Lsn(0x10), page(0xAA)).unwrap();
    repo.advance_last_record_lsn(1, Lsn(0x10)).unwrap();
    repo.drop_relish(1, e, Lsn(0x20)).unwrap();
    repo.advance_last_record_lsn(1, Lsn(0x20)).unwrap();
    assert_eq!(repo.get_rel_exists(1, e, Lsn(0x20)).unwrap(), false);
    assert_eq!(repo.get_rel_exists(1, e, Lsn(0x10)).unwrap(), true);
    assert_eq!(repo.get_relish_size(1, e, Lsn(0x20)).unwrap(), None);
}

#[test]
fn checkpoint_preserves_reads() {
    let redo = SimpleRedoManager;
    let mut repo = BufferedRepository::new(42);
    repo.create_empty_timeline(1).unwrap();
    let e = rel111();
    let a = page(0xAA);
    repo.put_page_image(1, e, 0, Lsn(0x10), a.clone()).unwrap();
    repo.put_wal_record(1, Lsn(0x20), e, 0, delta(vec![1, 2, 3])).unwrap();
    repo.put_wal_record(1, Lsn(0x30), e, 0, delta(vec![4, 5])).unwrap();
    repo.advance_last_record_lsn(1, Lsn(0x30)).unwrap();
    let before_10 = repo.get_page_at_lsn(&redo, 1, e, 0, Lsn(0x10)).unwrap();
    let before_20 = repo.get_page_at_lsn(&redo, 1, e, 0, Lsn(0x20)).unwrap();
    let before_30 = repo.get_page_at_lsn(&redo, 1, e, 0, Lsn(0x30)).unwrap();

    repo.checkpoint(&redo, 1).unwrap();
    assert_eq!(repo.get_page_at_lsn(&redo, 1, e, 0, Lsn(0x10)).unwrap(), before_10);
    assert_eq!(repo.get_page_at_lsn(&redo, 1, e, 0, Lsn(0x20)).unwrap(), before_20);
    assert_eq!(repo.get_page_at_lsn(&redo, 1, e, 0, Lsn(0x30)).unwrap(), before_30);

    repo.checkpoint(&redo, 1).unwrap();
    assert_eq!(repo.get_page_at_lsn(&redo, 1, e, 0, Lsn(0x10)).unwrap(), before_10);
    assert_eq!(repo.get_page_at_lsn(&redo, 1, e, 0, Lsn(0x20)).unwrap(), before_20);
    assert_eq!(repo.get_page_at_lsn(&redo, 1, e, 0, Lsn(0x30)).unwrap(), before_30);
}

#[test]
fn size_grows_with_written_block() {
    let mut repo = BufferedRepository::new(42);
    repo.create_empty_timeline(1).unwrap();
    let e = rel111();
    repo.put_wal_record(1, Lsn(0x10), e, 5, WalRecord { will_init: true, rec: vec![1] }).unwrap();
    repo.advance_last_record_lsn(1, Lsn(0x10)).unwrap();
    let sz = repo.get_relish_size(1, e, Lsn(0x10)).unwrap().unwrap();
    assert!(sz >= 6);
    assert_eq!(sz, 6);
}

#[test]
fn unaligned_lsn_is_rejected_without_mutation() {
    let redo = SimpleRedoManager;
    let mut repo = BufferedRepository::new(42);
    repo.create_empty_timeline(1).unwrap();
    let e = rel111();
    repo.put_page_image(1, e, 0, Lsn(0x10), page(0xAA)).unwrap();
    repo.advance_last_record_lsn(1, Lsn(0x10)).unwrap();

    assert_eq!(
        repo.put_page_image(1, e, 0, Lsn(0x11), page(0xBB)),
        Err(RepoError::InvalidRequest)
    );
    assert_eq!(
        repo.put_wal_record(1, Lsn(0x13), e, 0, delta(vec![1])),
        Err(RepoError::InvalidRequest)
    );
    assert_eq!(repo.put_truncation(1, e, Lsn(0x15), 1), Err(RepoError::InvalidRequest));
    assert_eq!(repo.drop_relish(1, e, Lsn(0x17)), Err(RepoError::InvalidRequest));

    assert_eq!(repo.get_page_at_lsn(&redo, 1, e, 0, Lsn(0x10)).unwrap(), page(0xAA));
    assert_eq!(repo.get_relish_size(1, e, Lsn(0x10)).unwrap(), Some(1));
}

#[test]
fn error_variants() {
    let redo = SimpleRedoManager;
    let mut repo = BufferedRepository::new(42);
    repo.create_empty_timeline(1).unwrap();
    assert_eq!(repo.create_empty_timeline(1), Err(RepoError::AlreadyExists));
    assert_eq!(
        repo.get_page_at_lsn(&redo, 9, rel111(), 0, Lsn(0)),
        Err(RepoError::NotFound)
    );
    assert_eq!(repo.branch_timeline(9, 3, Lsn(0)), Err(RepoError::NotFound));
    repo.advance_last_record_lsn(1, Lsn(0x10)).unwrap();
    assert_eq!(
        repo.get_page_at_lsn(&redo, 1, RelishTag::Checkpoint, 7, Lsn(0x10)),
        Err(RepoError::InvalidRequest)
    );
    assert_eq!(
        repo.get_relish_size(1, RelishTag::Checkpoint, Lsn(0x10)),
        Err(RepoError::InvalidRequest)
    );
    assert_eq!(
        repo.get_page_at_lsn(&redo, 1, rel111(), 0, Lsn(0x10)),
        Err(RepoError::NotFound)
    );

    let mut repo2 = BufferedRepository::new(42);
    repo2.create_empty_timeline(1).unwrap();
    let e = rel111();
    repo2.put_wal_record(1, Lsn(0x10), e, 0, delta(vec![1])).unwrap();
    repo2.advance_last_record_lsn(1, Lsn(0x10)).unwrap();
    assert_eq!(
        repo2.get_page_at_lsn(&redo, 1, e, 0, Lsn(0x10)),
        Err(RepoError::Corruption)
    );

    let tl = repo.get_timeline(1).unwrap();
    assert_eq!(tl.wait_lsn(Lsn(0x10)), Ok(()));
    assert_eq!(tl.wait_lsn(Lsn(0x20)), Err(RepoError::Timeout));
}

#[test]
fn gc_iteration_counts_nothing() {
    let redo = SimpleRedoManager;
    let mut repo = BufferedRepository::new(42);
    repo.create_empty_timeline(1).unwrap();
    let e = rel111();
    repo.put_page_image(1, e, 0, Lsn(0x10), page(0xAA)).unwrap();
    repo.advance_last_record_lsn(1, Lsn(0x10)).unwrap();
    let g = repo.gc_iteration(&redo, None, 4, true).unwrap();
    assert_eq!(g.versions_examined, 0);
    assert_eq!(g.versions_removed, 0);
    assert_eq!(repo.get_page_at_lsn(&redo, 1, e, 0, Lsn(0x10)).unwrap(), page(0xAA));
}

#[test]
fn listings_and_logical_size() {
    let mut repo = BufferedRepository::new(42);
    repo.create_empty_timeline(1).unwrap();
    let r1 = RelishTag::Relation(RelTag { spcnode: 0, dbnode: 0, relnode: 5, forknum: 0 });
    let r2 = RelishTag::Relation(RelTag { spcnode: 0, dbnode: 0, relnode: 6, forknum: 0 });
    let slru = RelishTag::Slru { slru: 1, segno: 0 };
    repo.put_page_image(1, r1, 0, Lsn(0x10), page(1)).unwrap();
    repo.put_page_image(1, r1, 1, Lsn(0x10), page(2)).unwrap();
    repo.put_page_image(1, r2, 0, Lsn(0x10), page(3)).unwrap();
    repo.put_page_image(1, slru, 0, Lsn(0x10), page(4)).unwrap();
    repo.advance_last_record_lsn(1, Lsn(0x10)).unwrap();

    let mut rels = repo.list_rels(1, 0, 0, Lsn(0x10)).unwrap();
    rels.sort();
    assert_eq!(rels, vec![r1, r2]);
    let nonrels = repo.list_nonrels(1, Lsn(0x10)).unwrap();
    assert_eq!(nonrels, vec![slru]);

    let size = repo.get_current_logical_size_non_incremental(1, Lsn(0x10)).unwrap();
    assert_eq!(size, 4 * 8192);

    repo.drop_relish(1, r2, Lsn(0x18)).unwrap();
    repo.advance_last_record_lsn(1, Lsn(0x18)).unwrap();
    let rels_after = repo.list_rels(1, 0, 0, Lsn(0x18)).unwrap();
    assert_eq!(rels_after, vec![r1]);
    assert_eq!(
        repo.get_current_logical_size_non_incremental(1, Lsn(0x18)).unwrap(),
        3 * 8192
    );
}

#[test]
fn truncation_shrinks_size() {
    let mut repo = BufferedRepository::new(42);
    repo.create_empty_timeline(1).unwrap();
    let e = rel111();
    repo.put_page_image(1, e, 0, Lsn(0x10), page(1)).unwrap();
    repo.put_page_image(1, e, 1, Lsn(0x10), page(2)).unwrap();
    repo.put_page_image(1, e, 2, Lsn(0x10), page(3)).unwrap();
    repo.put_truncation(1, e, Lsn(0x18), 1).unwrap();
    repo.advance_last_record_lsn(1, Lsn(0x18)).unwrap();
    assert_eq!(repo.get_relish_size(1, e, Lsn(0x10)).unwrap(), Some(3));
    assert_eq!(repo.get_relish_size(1, e, Lsn(0x18)).unwrap(), Some(1));
}

#[test]
fn attach_reloaded_timeline() {
    let redo = SimpleRedoManager;
    let mut repo = BufferedRepository::new(42);
    repo.create_empty_timeline(1).unwrap();
    let e = rel111();
    let a = page(0xAA);
    repo.put_page_image(1, e, 0, Lsn(0x10), a.clone()).unwrap();
    repo.advance_last_record_lsn(1, Lsn(0x10)).unwrap();

    let child_meta = TimelineMetadata {
        disk_consistent_lsn: Lsn(0x10),
        prev_record_lsn: Some(Lsn(0x8)),
        ancestor_timeline: Some(1),
        ancestor_lsn: Lsn(0x10),
    };
    repo.attach_timeline(2, &child_meta).unwrap();
    assert_eq!(repo.attach_timeline(2, &child_meta), Err(RepoError::AlreadyExists));
    let orphan = TimelineMetadata { ancestor_timeline: Some(9), ..child_meta };
    assert_eq!(repo.attach_timeline(3, &orphan), Err(RepoError::NotFound));

    let tl = repo.get_timeline(2).unwrap();
    assert_eq!(tl.get_last_record_lsn(), Lsn(0x10));
    assert_eq!(tl.get_prev_record_lsn(), Lsn(0x8));
    assert_eq!(tl.get_ancestor_lsn(), Lsn(0x10));
    assert_eq!(repo.get_page_at_lsn(&redo, 2, e, 0, Lsn(0x10)).unwrap(), a);
}

#[test]
fn timeline_getters() {
    let mut repo = BufferedRepository::new(42);
    repo.create_empty_timeline(1).unwrap();
    repo.advance_last_record_lsn(1, Lsn(0x10)).unwrap();
    repo.advance_last_record_lsn(1, Lsn(0x20)).unwrap();
    let tl = repo.get_timeline(1).unwrap();
    assert_eq!(tl.get_last_record_lsn(), Lsn(0x20));
    assert_eq!(tl.get_prev_record_lsn(), Lsn(0x10));
    let rlsn = tl.get_last_record_rlsn();
    assert_eq!(rlsn.last, Lsn(0x20));
    assert_eq!(rlsn.prev, Lsn(0x10));
    assert_eq!(tl.get_ancestor_lsn(), Lsn(0));

    repo.branch_timeline(1, 2, Lsn(0x20)).unwrap();
    let child = repo.get_timeline(2).unwrap();
    assert_eq!(child.get_ancestor_lsn(), Lsn(0x20));
    assert_eq!(child.get_last_record_lsn(), Lsn(0x20));
    assert_eq!(child.get_prev_record_lsn(), Lsn(0x10));
    assert_eq!(repo.get_start_lsn(2).unwrap(), Lsn(0));

    repo.init_current_logical_size(1).unwrap();
    let tl = repo.get_timeline(1).unwrap();
    assert_eq!(tl.get_current_logical_size(), 0);

    repo.shutdown(&SimpleRedoManager).unwrap();
}
