//! One timeline: a versioned store behind a visibility horizon.
//!
//! The writer inserts page versions and metadata rows at aligned LSNs
//! and then publishes them; readers see everything at or below the last published LSN.
//! A timeline created by branching holds a link to its ancestor in the
//! repository's table, and reads fall through to the ancestor for LSNs
//! at or below the branch point.

use vstd::prelude::*;

use crate::error::RepoError;
use crate::lsn::{lsn_aligned, Lsn, RecordLsn};
use crate::relish::RelishTag;
use crate::store::{
    data_insert, meta_insert, size_at, store_wf, DataEntryView, MetaEntryView, PageVersion,
    PageVersionView, VersionedStore, WalRecord,
};

verus! {

/// Link from a branched timeline to its parent.
#[derive(Clone, Copy, Debug, PartialEq, Eq, Structural)]
pub struct AncestorLink {
    /// Index of the parent in the repository's timeline table.
    pub idx: usize,
    /// Identifier of the parent timeline.
    pub timeline_id: u128,
    /// The branch point: reads at or below this LSN fall through.
    pub lsn: Lsn,
}

/// A timeline of one tenant.
#[derive(Debug)]
pub struct BufferedTimeline {
    /// Identifier of this timeline.
    pub timeline_id: u128,
    /// The versioned page and metadata store.
    pub store: VersionedStore,
    /// End of the last record made visible to readers.
    pub last_record_lsn: Lsn,
    /// Start of the record before the last one.
    pub prev_record_lsn: Lsn,
    /// Everything at or below this LSN is durable.
    pub disk_consistent_lsn: Lsn,
    /// The parent timeline, if this one was branched.
    pub ancestor: Option<AncestorLink>,
    /// Logical size in bytes, kept by the open path.
    pub current_logical_size: u64,
}

/// The newest size any metadata row of `rel` records, dropped entities
/// counting as zero: what the write path compares block numbers against.
pub open spec fn cur_size(meta: Seq<MetaEntryView>, rel: RelishTag) -> u32 {
    match size_at(meta, rel, u64::MAX as int) {
        Some(Some(s)) => s,
        _ => 0,
    }
}

impl BufferedTimeline {
    /// An empty root timeline whose visibility horizon starts at `start`.
    pub fn new_empty(timeline_id: u128, start: Lsn) -> (r: BufferedTimeline)
        ensures
            store_wf(r.store@),
            r.store@.data.len() == 0,
            r.store@.meta.len() == 0,
            r.timeline_id == timeline_id,
            r.last_record_lsn == start,
            r.prev_record_lsn.0 == 0,
            r.disk_consistent_lsn == start,
            r.ancestor is None,
    {
        BufferedTimeline {
            timeline_id,
            store: VersionedStore::new(),
            last_record_lsn: start,
            prev_record_lsn: Lsn(0),
            disk_consistent_lsn: start,
            ancestor: None,
            current_logical_size: 0,
        }
    }

    /// The last published LSN, which readers may not exceed.
    pub fn get_last_record_lsn(&self) -> (r: Lsn)
        ensures
            r == self.last_record_lsn,
    {
        self.last_record_lsn
    }

    /// Start of the record before the last one.
    pub fn get_prev_record_lsn(&self) -> (r: Lsn)
        ensures
            r == self.prev_record_lsn,
    {
        self.prev_record_lsn
    }

    /// The last published LSN and its predecessor together.
    pub fn get_last_record_rlsn(&self) -> (r: RecordLsn)
        ensures
            r.last == self.last_record_lsn,
            r.prev == self.prev_record_lsn,
    {
        RecordLsn { last: self.last_record_lsn, prev: self.prev_record_lsn }
    }

    /// Upper bound of durably stored records.
    pub fn get_disk_consistent_lsn(&self) -> (r: Lsn)
        ensures
            r == self.disk_consistent_lsn,
    {
        self.disk_consistent_lsn
    }

    /// The branch point, or zero on a root timeline.
    pub fn get_ancestor_lsn(&self) -> (r: Lsn)
        ensures
            match self.ancestor {
                Some(a) => r == a.lsn,
                None => r.0 == 0,
            },
    {
        match &self.ancestor {
            Some(a) => a.lsn,
            None => Lsn(0),
        }
    }

    /// Logical size in bytes as currently accounted.
    pub fn get_current_logical_size(&self) -> (r: u64)
        ensures
            r == self.current_logical_size,
    {
        self.current_logical_size
    }

    /// Whether a read at `lsn` may proceed. The horizon only moves when the
    /// single writer advances it, so a caller that is told to wait must
    /// retry after the writer ran; the timed blocking lives with the
    /// caller's runtime.
    pub fn wait_lsn(&self, lsn: Lsn) -> (r: Result<(), RepoError>)
        ensures
            r is Ok <==> lsn.0 <= self.last_record_lsn.0,
            r is Err ==> r == Err::<(), RepoError>(RepoError::Timeout),
    {
        if lsn.0 <= self.last_record_lsn.0 {
            Ok(())
        } else {
            Err(RepoError::Timeout)
        }
    }

    /// Publish everything up to `new_lsn` to readers and remember where
    /// the previous record ended.
    pub fn advance_last_record_lsn(&mut self, new_lsn: Lsn)
        requires
            lsn_aligned(new_lsn.0),
        ensures
            final(self).last_record_lsn == new_lsn,
            final(self).prev_record_lsn == old(self).last_record_lsn,
            final(self).store == old(self).store,
            final(self).timeline_id == old(self).timeline_id,
            final(self).disk_consistent_lsn == old(self).disk_consistent_lsn,
            final(self).ancestor == old(self).ancestor,
            final(self).current_logical_size == old(self).current_logical_size,
    {
        self.prev_record_lsn = self.last_record_lsn;
        self.last_record_lsn = new_lsn;
    }

    /// Store a full page image, extending the entity's recorded size when
    /// the block lies at or past it. Rejected with no store change when
    /// the entity is not blocky and the block is nonzero, or the LSN is
    /// unaligned.
    pub fn put_page_image(&mut self, rel: RelishTag, blknum: u32, lsn: Lsn, img: Vec<u8>) -> (r:
        Result<(), RepoError>)
        requires
            store_wf(old(self).store@),
            blknum < u32::MAX,
        ensures
            store_wf(final(self).store@),
            put_result(*old(self), *final(self), rel, blknum, lsn, r, PageVersionView::Image(img@)),
    {
        if !rel.is_blocky() && blknum != 0 {
            return Err(RepoError::InvalidRequest);
        }
        if !lsn.is_aligned() {
            return Err(RepoError::InvalidRequest);
        }
        self.put_version(rel, blknum, lsn, PageVersion::Image(img));
        Ok(())
    }

    /// Store a delta record, extending the entity's recorded size when
    /// the block lies at or past it. Rejected as [`Self::put_page_image`].
    pub fn put_wal_record(&mut self, lsn: Lsn, rel: RelishTag, blknum: u32, rec: WalRecord) -> (r:
        Result<(), RepoError>)
        requires
            store_wf(old(self).store@),
            blknum < u32::MAX,
        ensures
            store_wf(final(self).store@),
            put_result(*old(self), *final(self), rel, blknum, lsn, r, PageVersionView::Delta(rec@)),
    {
        if !rel.is_blocky() && blknum != 0 {
            return Err(RepoError::InvalidRequest);
        }
        if !lsn.is_aligned() {
            return Err(RepoError::InvalidRequest);
        }
        self.put_version(rel, blknum, lsn, PageVersion::Delta(rec));
        Ok(())
    }

    /// Record that the entity now holds `relsize` blocks. Rows above the
    /// new size stay in the store but become invisible to size queries.
    /// Rejected with no store change on a non-blocky entity or an
    /// unaligned LSN.
    pub fn put_truncation(&mut self, rel: RelishTag, lsn: Lsn, relsize: u32) -> (r: Result<
        (),
        RepoError,
    >)
        requires
            store_wf(old(self).store@),
        ensures
            store_wf(final(self).store@),
            r is Err <==> !rel.spec_is_blocky() || !lsn_aligned(lsn.0),
            r is Err ==> r == Err::<(), RepoError>(RepoError::InvalidRequest) && *final(self)
                == *old(self),
            r is Ok ==> *final(self) == (BufferedTimeline {
                store: final(self).store,
                disk_consistent_lsn: lsn,
                ..*old(self)
            }) && final(self).store@.meta == meta_insert(
                old(self).store@.meta,
                (MetaEntryView { rel, lsn: lsn.0, size: Some(relsize) }),
            ) && final(self).store@.data == old(self).store@.data,
    {
        if !rel.is_blocky() {
            return Err(RepoError::InvalidRequest);
        }
        if !lsn.is_aligned() {
            return Err(RepoError::InvalidRequest);
        }
        self.store.meta_put(rel, lsn, Some(relsize));
        self.disk_consistent_lsn = lsn;
        Ok(())
    }

    /// Drop the entity at `lsn`: store a tombstone that hides every older
    /// row from that LSN onward. Rejected with no store change on an
    /// unaligned LSN.
    pub fn drop_relish(&mut self, rel: RelishTag, lsn: Lsn) -> (r: Result<(), RepoError>)
        requires
            store_wf(old(self).store@),
        ensures
            store_wf(final(self).store@),
            r is Err <==> !lsn_aligned(lsn.0),
            r is Err ==> r == Err::<(), RepoError>(RepoError::InvalidRequest) && *final(self)
                == *old(self),
            r is Ok ==> *final(self) == (BufferedTimeline {
                store: final(self).store,
                disk_consistent_lsn: lsn,
                ..*old(self)
            }) && final(self).store@.meta == meta_insert(
                old(self).store@.meta,
                (MetaEntryView { rel, lsn: lsn.0, size: None }),
            ) && final(self).store@.data == old(self).store@.data,
    {
        if !lsn.is_aligned() {
            return Err(RepoError::InvalidRequest);
        }
        self.store.meta_put(rel, lsn, None);
        self.disk_consistent_lsn = lsn;
        Ok(())
    }

    /// Materialize long delta chains: walk the pages of the store, and
    /// for each page whose newest version is a delta record, collect its
    /// chain; when the accumulated record payload reaches
    /// `checkpoint_distance`, replay the chain and store the result as a
    /// full image in place of the top delta. No row is removed, no key
    /// changes, rows below the top of their page keep their values, and
    /// no page reconstruction result changes: future reads replay to the
    /// very pages they replayed to before.
    pub fn checkpoint_internal<R: crate::redo::RedoManager>(
        &mut self,
        redo: &R,
        checkpoint_distance: u64,
        _forced: bool,
    ) -> (r: Result<(), RepoError>)
        requires
            store_wf(old(self).store@),
        ensures
            store_wf(final(self).store@),
            *final(self) == (BufferedTimeline { store: final(self).store, ..*old(self) }),
            final(self).store@.meta == old(self).store@.meta,
            final(self).store@.data.len() == old(self).store@.data.len(),
            forall|j: int|
                0 <= j < old(self).store@.data.len() ==> crate::store::data_same_key(
                    #[trigger] final(self).store@.data[j],
                    old(self).store@.data[j],
                ),
            forall|j: int|
                0 <= j < old(self).store@.data.len() && !is_page_top(old(self).store@.data, j)
                    ==> #[trigger] final(self).store@.data[j] == old(self).store@.data[j],
            forall|rel2: RelishTag, blk2: u32, bound: int|
                crate::redo::chain_pres(
                    *redo,
                    crate::store::chain_of(
                        #[trigger] crate::store::page_hist(old(self).store@.data, rel2, blk2, bound),
                    ),
                    crate::store::chain_of(
                        crate::store::page_hist(final(self).store@.data, rel2, blk2, bound),
                    ),
                ),
            r is Ok <==> materialize_ok(*redo, old(self).store@.data, checkpoint_distance),
            r is Ok ==> forall|k: int|
                #[trigger] is_page_top(old(self).store@.data, k) && old(
                    self,
                ).store@.data[k].val is Delta && crate::store::recs_len(
                    top_chain(old(self).store@.data, k).recs,
                ) >= checkpoint_distance ==> final(self).store@.data[k].val is Image,
    {
        let ghost olddata = old(self).store@.data;
        let n = self.store.data_len();
        let mut k: usize = 0;
        proof {
            assert forall|rel2: RelishTag, blk2: u32, bound: int|
                crate::redo::chain_pres(
                    *redo,
                    crate::store::chain_of(
                        #[trigger] crate::store::page_hist(olddata, rel2, blk2, bound),
                    ),
                    crate::store::chain_of(
                        crate::store::page_hist(self.store@.data, rel2, blk2, bound),
                    ),
                ) by {
                crate::redo::lemma_chain_pres_refl(
                    *redo,
                    crate::store::chain_of(crate::store::page_hist(olddata, rel2, blk2, bound)),
                );
            }
        }
        while k < n
            invariant
                store_wf(self.store@),
                store_wf(old(self).store@),
                olddata == old(self).store@.data,
                *self == (BufferedTimeline { store: self.store, ..*old(self) }),
                self.store@.meta == old(self).store@.meta,
                n == olddata.len(),
                self.store@.data.len() == n,
                k <= n,
                forall|j: int|
                    0 <= j < n ==> crate::store::data_same_key(
                        #[trigger] self.store@.data[j],
                        olddata[j],
                    ),
                forall|j: int| k <= j < n ==> #[trigger] self.store@.data[j] == olddata[j],
                forall|j: int|
                    0 <= j < k && !is_page_top(olddata, j) ==> #[trigger] self.store@.data[j]
                        == olddata[j],
                forall|rel2: RelishTag, blk2: u32, bound: int|
                    crate::redo::chain_pres(
                        *redo,
                        crate::store::chain_of(
                            #[trigger] crate::store::page_hist(olddata, rel2, blk2, bound),
                        ),
                        crate::store::chain_of(
                            crate::store::page_hist(self.store@.data, rel2, blk2, bound),
                        ),
                    ),
                forall|j: int|
                    0 <= j < k && #[trigger] is_page_top(olddata, j) && olddata[j].val is Delta
                        ==> top_ok(*redo, olddata, j, checkpoint_distance),
                forall|j: int|
                    0 <= j < k && #[trigger] is_page_top(olddata, j) && olddata[j].val is Delta
                        && crate::store::recs_len(top_chain(olddata, j).recs)
                        >= checkpoint_distance ==> self.store@.data[j].val is Image,
            decreases n - k,
        {
            let ghost d1 = self.store@.data;
            let (rel, blknum, lsn_k) = self.store.data_key_at(k);
            let is_top = if k + 1 < n {
                let (nrel, nblk, _nlsn) = self.store.data_key_at(k + 1);
                !(nrel.cmp_key(&rel) == 0 && nblk == blknum)
            } else {
                true
            };
            proof {
                assert(is_top == is_page_top(d1, k as int));
                assert(is_top == is_page_top(olddata, k as int));
            }
            if is_top && self.store.data_is_delta_at(k) {
                proof {
                    assert(d1[k as int] == olddata[k as int]);
                    assert forall|j: int|
                        k < j < n implies !((#[trigger] d1[j]).rel == rel && d1[j].blknum
                        == blknum) by {
                        if d1[j].rel == rel && d1[j].blknum == blknum && j > k + 1 {
                            crate::store::lemma_page_contiguous(
                                d1,
                                rel,
                                blknum,
                                k as int,
                                k + 1,
                                j,
                            );
                        }
                    }
                    assert forall|j: int|
                        0 <= j < n && ((#[trigger] olddata[j]).rel == rel && olddata[j].blknum
                            == blknum || (#[trigger] d1[j]).rel == rel && d1[j].blknum == blknum)
                        implies olddata[j] == d1[j] by {
                        if j < k {
                            if d1[j].rel == rel && d1[j].blknum == blknum {
                                crate::store::lemma_page_contiguous(d1, rel, blknum, j, j + 1, k as int);
                                assert(!is_page_top(olddata, j));
                            }
                        }
                    }
                    crate::store::lemma_hist_same_entries(
                        olddata,
                        d1,
                        rel,
                        blknum,
                        u64::MAX as int,
                    );
                }
                let chain = self.store.collect_local_chain(&rel, blknum, Lsn(u64::MAX));
                let ghost cc = chain.abs();
                proof {
                    assert(cc == top_chain(olddata, k as int));
                }
                if !chain.is_complete() {
                    proof {
                        assert(!top_ok(*redo, olddata, k as int, checkpoint_distance));
                        assert(!materialize_ok(*redo, olddata, checkpoint_distance));
                    }
                    return Err(RepoError::Corruption);
                }
                let ghost rv = cc.recs;
                let mut hl: u64 = 0;
                let mut i: usize = 0;
                proof {
                    assert(rv.take(0) =~= Seq::<(u64, crate::store::WalRecordView)>::empty());
                }
                while i < chain.recs.len()
                    invariant
                        i <= chain.recs@.len(),
                        rv == chain.abs().recs,
                        hl as int == vstd::math::min(
                            crate::store::recs_len(rv.take(i as int)),
                            u64::MAX as int,
                        ),
                    decreases chain.recs@.len() - i,
                {
                    proof {
                        assert(rv.take(i + 1).drop_last() =~= rv.take(i as int));
                        assert(rv.take(i + 1).last() == rv[i as int]);
                        assert(rv[i as int] == chain.recs@[i as int]@);
                        assert(crate::store::recs_len(rv.take(i as int)) >= 0) by {
                            crate::store::lemma_recs_len_nonneg(rv.take(i as int));
                        }
                    }
                    let add: u64 = chain.recs[i].rec.rec.len() as u64;
                    if hl <= u64::MAX - add {
                        hl = hl + add;
                    } else {
                        hl = u64::MAX;
                    }
                    i = i + 1;
                }
                proof {
                    assert(rv.take(rv.len() as int) =~= rv);
                }
                let long_enough = hl >= checkpoint_distance;
                proof {
                    assert(long_enough == (crate::store::recs_len(rv) >= checkpoint_distance));
                }
                if long_enough {
                    let base_arg = chain.base;
                    let recs_arg = chain.recs;
                    proof {
                        assert(crate::redo::opt_bytes_view(base_arg) == cc.base);
                        assert(crate::redo::chain_recs_view(recs_arg@) == cc.recs);
                    }
                    match redo.request_redo(rel, blknum, lsn_k, base_arg, recs_arg) {
                        Err(e) => {
                            proof {
                                assert(!redo.redo_ok(cc.base, cc.recs));
                                assert(!top_ok(*redo, olddata, k as int, checkpoint_distance));
                                assert(!materialize_ok(*redo, olddata, checkpoint_distance));
                            }
                            return Err(e);
                        },
                        Ok(img) => {
                            let ghost imgv = img@;
                            proof {
                                assert(imgv == redo.redo_spec(cc.base, cc.recs));
                                assert(redo.redo_ok(cc.base, cc.recs));
                            }
                            self.store.data_put(rel, blknum, lsn_k, PageVersion::Image(img));
                            proof {
                                let ev = DataEntryView {
                                    rel,
                                    blknum,
                                    lsn: lsn_k.0,
                                    val: PageVersionView::Image(imgv),
                                };
                                crate::store::lemma_insert_existing(d1, ev, k as int);
                                let d2 = self.store@.data;
                                assert(d2 == d1.update(k as int, ev));
                                lemma_materialize_step(
                                    *redo,
                                    olddata,
                                    d1,
                                    d2,
                                    k as int,
                                    rel,
                                    blknum,
                                    lsn_k.0,
                                    imgv,
                                    cc,
                                );
                            }
                        },
                    }
                }
                proof {
                    assert(top_ok(*redo, olddata, k as int, checkpoint_distance));
                }
            } else {
                proof {
                    if is_top {
                        assert(self.store@.data[k as int] == olddata[k as int]);
                        assert(!(olddata[k as int].val is Delta));
                    }
                }
            }
            k = k + 1;
        }
        proof {
            assert forall|j: int|
                #[trigger] is_page_top(olddata, j) && olddata[j].val is Delta implies top_ok(
                *redo,
                olddata,
                j,
                checkpoint_distance,
            ) by {
            }
        }
        Ok(())
    }

    /// Force materialization of every delta chain, however short.
    pub fn checkpoint<R: crate::redo::RedoManager>(&mut self, redo: &R) -> (r: Result<
        (),
        RepoError,
    >)
        requires
            store_wf(old(self).store@),
        ensures
            store_wf(final(self).store@),
            *final(self) == (BufferedTimeline { store: final(self).store, ..*old(self) }),
            final(self).store@.meta == old(self).store@.meta,
            final(self).store@.data.len() == old(self).store@.data.len(),
            forall|j: int|
                0 <= j < old(self).store@.data.len() ==> crate::store::data_same_key(
                    #[trigger] final(self).store@.data[j],
                    old(self).store@.data[j],
                ),
            forall|j: int|
                0 <= j < old(self).store@.data.len() && !is_page_top(old(self).store@.data, j)
                    ==> #[trigger] final(self).store@.data[j] == old(self).store@.data[j],
            forall|rel2: RelishTag, blk2: u32, bound: int|
                crate::redo::chain_pres(
                    *redo,
                    crate::store::chain_of(
                        #[trigger] crate::store::page_hist(old(self).store@.data, rel2, blk2, bound),
                    ),
                    crate::store::chain_of(
                        crate::store::page_hist(final(self).store@.data, rel2, blk2, bound),
                    ),
                ),
            r is Ok <==> materialize_ok(*redo, old(self).store@.data, 0),
            r is Ok ==> forall|k: int|
                #[trigger] is_page_top(old(self).store@.data, k) && old(
                    self,
                ).store@.data[k].val is Delta ==> final(self).store@.data[k].val is Image,
    {
        let r = self.checkpoint_internal(redo, 0, true);
        proof {
            if r is Ok {
                assert forall|k: int|
                    #[trigger] is_page_top(old(self).store@.data, k) && old(
                        self,
                    ).store@.data[k].val is Delta implies self.store@.data[k].val is Image by {
                    crate::store::lemma_recs_len_nonneg(top_chain(old(self).store@.data, k).recs);
                }
            }
        }
        r
    }

    /// Garbage-collect page versions no longer needed: keep a version of
    /// each page at every LSN in `retain_lsns` (the branch points of
    /// child timelines) and everything from `cutoff` onward. The per-row
    /// sweep is not implemented yet; nothing is removed, which is always
    /// safe, and the counters say so.
    pub fn gc_timeline(&self, _retain_lsns: &Vec<Lsn>, _cutoff: Lsn) -> (r: Result<
        crate::repository::GcResult,
        RepoError,
    >)
        ensures
            r == Ok::<crate::repository::GcResult, RepoError>(
                (crate::repository::GcResult {
                    versions_examined: 0,
                    versions_removed: 0,
                    elapsed_micros: 0,
                }),
            ),
    {
        Ok(crate::repository::GcResult { versions_examined: 0, versions_removed: 0, elapsed_micros: 0 })
    }

    /// The shared body of the two put operations: store the version and
    /// extend the recorded size if needed.
    fn put_version(&mut self, rel: RelishTag, blknum: u32, lsn: Lsn, val: PageVersion)
        requires
            store_wf(old(self).store@),
            blknum < u32::MAX,
            lsn_aligned(lsn.0),
            rel.spec_is_blocky() || blknum == 0,
        ensures
            store_wf(final(self).store@),
            put_effect(*old(self), *final(self), rel, blknum, lsn, val@),
    {
        self.store.data_put(rel, blknum, lsn, val);
        let cur = match self.store.size_lookup(&rel, Lsn(u64::MAX)) {
            Some(Some(s)) => s,
            _ => 0,
        };
        if cur <= blknum {
            self.store.meta_put(rel, lsn, Some(blknum + 1));
        }
        self.disk_consistent_lsn = lsn;
    }
}

/// Whether row `k` is the newest version its page has in the table:
/// the row a checkpoint pass examines for each page.
pub open spec fn is_page_top(data: Seq<DataEntryView>, k: int) -> bool {
    &&& 0 <= k < data.len()
    &&& (k == data.len() - 1 || !(data[k + 1].rel == data[k].rel && data[k + 1].blknum
        == data[k].blknum))
}

/// The full reconstruction chain of the page whose top is row `k`.
pub open spec fn top_chain(data: Seq<DataEntryView>, k: int) -> crate::store::Chain {
    crate::store::chain_of(
        crate::store::page_hist(data, data[k].rel, data[k].blknum, u64::MAX as int),
    )
}

/// Whether the page topped by row `k` lets a checkpoint pass through:
/// its chain reaches a base, and replays whenever its accumulated
/// record payload reaches the materialization distance.
pub open spec fn top_ok<R: crate::redo::RedoManager>(
    redo: R,
    data: Seq<DataEntryView>,
    k: int,
    distance: u64,
) -> bool {
    let c = top_chain(data, k);
    &&& crate::store::chain_complete(c)
    &&& (crate::store::recs_len(c.recs) >= distance ==> redo.redo_ok(c.base, c.recs))
}

/// Whether a checkpoint pass over the whole table succeeds: every
/// delta-topped page lets it through.
pub open spec fn materialize_ok<R: crate::redo::RedoManager>(
    redo: R,
    data: Seq<DataEntryView>,
    distance: u64,
) -> bool {
    forall|k: int|
        #[trigger] is_page_top(data, k) && data[k].val is Delta ==> top_ok(redo, data, k, distance)
}

/// One materialization step preserves every reconstruction chain:
/// replacing the delta at the top of a page with the image its chain
/// replays to leaves other pages untouched, queries below the top
/// unchanged, and queries at or above the top with an equivalent chain
/// that replays to the same page.
pub proof fn lemma_materialize_step<R: crate::redo::RedoManager>(
    redo: R,
    olddata: Seq<DataEntryView>,
    d1: Seq<DataEntryView>,
    d2: Seq<DataEntryView>,
    k: int,
    rel: RelishTag,
    blknum: u32,
    lsn_k: u64,
    imgv: Seq<u8>,
    cc: crate::store::Chain,
)
    requires
        crate::store::data_sorted(d1),
        0 <= k < d1.len(),
        d1[k].rel == rel && d1[k].blknum == blknum && d1[k].lsn == lsn_k,
        is_page_top(d1, k),
        d2 == d1.update(
            k,
            (DataEntryView { rel, blknum, lsn: lsn_k, val: PageVersionView::Image(imgv) }),
        ),
        cc == crate::store::chain_of(
            crate::store::page_hist(d1, rel, blknum, u64::MAX as int),
        ),
        crate::store::chain_complete(cc),
        redo.redo_ok(cc.base, cc.recs),
        imgv == redo.redo_spec(cc.base, cc.recs),
        forall|rel2: RelishTag, blk2: u32, bound: int|
            crate::redo::chain_pres(
                redo,
                crate::store::chain_of(
                    #[trigger] crate::store::page_hist(olddata, rel2, blk2, bound),
                ),
                crate::store::chain_of(crate::store::page_hist(d1, rel2, blk2, bound)),
            ),
    ensures
        forall|rel2: RelishTag, blk2: u32, bound: int|
            crate::redo::chain_pres(
                redo,
                crate::store::chain_of(
                    #[trigger] crate::store::page_hist(olddata, rel2, blk2, bound),
                ),
                crate::store::chain_of(crate::store::page_hist(d2, rel2, blk2, bound)),
            ),
{
    let ev = DataEntryView { rel, blknum, lsn: lsn_k, val: PageVersionView::Image(imgv) };
    crate::store::lemma_insert_existing(d1, ev, k);
    assert(d2 == crate::store::data_insert(d1, ev));
    assert forall|j: int|
        0 <= j < d1.len() && (#[trigger] d1[j]).rel == rel && d1[j].blknum == blknum implies d1[j].lsn
        <= lsn_k by {
        if j > k {
            if j > k + 1 {
                crate::store::lemma_page_contiguous(d1, rel, blknum, k, k + 1, j);
            }
            assert(false);
        } else if j < k {
            assert(crate::store::data_lt(d1[j], d1[k]));
        }
    }
    assert forall|rel2: RelishTag, blk2: u32, bound: int|
        crate::redo::chain_pres(
            redo,
            crate::store::chain_of(#[trigger] crate::store::page_hist(olddata, rel2, blk2, bound)),
            crate::store::chain_of(crate::store::page_hist(d2, rel2, blk2, bound)),
        ) by {
        let co = crate::store::chain_of(crate::store::page_hist(olddata, rel2, blk2, bound));
        let c1 = crate::store::chain_of(crate::store::page_hist(d1, rel2, blk2, bound));
        let c2 = crate::store::chain_of(crate::store::page_hist(d2, rel2, blk2, bound));
        assert(crate::redo::chain_pres(redo, co, c1));
        if rel2 == rel && blk2 == blknum && bound >= lsn_k {
            crate::store::lemma_insert_top(d1, ev, rel2, blk2, bound);
            assert(crate::store::page_hist(d2, rel2, blk2, bound) == crate::store::page_hist(
                d1,
                rel2,
                blk2,
                lsn_k - 1,
            ).push(ev));
            assert(c2 == (crate::store::Chain {
                base: Some(imgv),
                recs: Seq::<(u64, crate::store::WalRecordView)>::empty(),
            }));
            assert forall|j: int|
                0 <= j < d1.len() && d1[j].rel == rel2 && d1[j].blknum == blk2 implies ((
            #[trigger] d1[j].lsn <= bound) <==> (d1[j].lsn <= u64::MAX as int)) by {
            }
            crate::store::lemma_hist_congruence(d1, rel2, blk2, bound, u64::MAX as int);
            assert(c1 == cc);
            redo.redo_base_law(imgv);
            assert(crate::redo::chain_pres(redo, c1, c2));
            crate::redo::lemma_chain_pres_trans(redo, co, c1, c2);
        } else {
            assert(!crate::store::data_visible(ev, rel2, blk2, bound));
            crate::store::lemma_insert_frame(d1, ev, rel2, blk2, bound);
            assert(c2 == c1);
        }
    }
}

/// The data-table frame a checkpoint pass leaves behind: no row added
/// or removed, every key in place, and rows below the top of their page
/// untouched — only chain-top values may have been replaced.
pub open spec fn data_shape_preserved(pre: BufferedTimeline, post: BufferedTimeline) -> bool {
    &&& post.store@.data.len() == pre.store@.data.len()
    &&& forall|j: int|
        0 <= j < pre.store@.data.len() ==> crate::store::data_same_key(
            #[trigger] post.store@.data[j],
            pre.store@.data[j],
        )
    &&& forall|j: int|
        0 <= j < pre.store@.data.len() && !is_page_top(pre.store@.data, j)
            ==> #[trigger] post.store@.data[j] == pre.store@.data[j]
}

/// The store change a successful put performs: the version is inserted,
/// and when the block lies at or past the entity's recorded size, a
/// metadata row extends the size to `blknum + 1`.
pub open spec fn put_effect(
    pre: BufferedTimeline,
    post: BufferedTimeline,
    rel: RelishTag,
    blknum: u32,
    lsn: Lsn,
    val: PageVersionView,
) -> bool {
    &&& post == BufferedTimeline { store: post.store, disk_consistent_lsn: lsn, ..pre }
    &&& post.store@.data == data_insert(
        pre.store@.data,
        DataEntryView { rel, blknum, lsn: lsn.0, val },
    )
    &&& post.store@.meta == if cur_size(pre.store@.meta, rel) <= blknum {
        meta_insert(pre.store@.meta, MetaEntryView { rel, lsn: lsn.0, size: Some((blknum + 1) as u32) })
    } else {
        pre.store@.meta
    }
}

/// Contract of the two put operations: exactly the malformed requests
/// fail, a failed put changes nothing, and a successful one performs
/// [`put_effect`].
pub open spec fn put_result(
    pre: BufferedTimeline,
    post: BufferedTimeline,
    rel: RelishTag,
    blknum: u32,
    lsn: Lsn,
    r: Result<(), RepoError>,
    val: PageVersionView,
) -> bool {
    &&& (r is Err <==> ((!rel.spec_is_blocky() && blknum != 0) || !lsn_aligned(lsn.0)))
    &&& (r is Err ==> r == Err::<(), RepoError>(RepoError::InvalidRequest) && post == pre)
    &&& (r is Ok ==> put_effect(pre, post, rel, blknum, lsn, val))
}

} // verus!
