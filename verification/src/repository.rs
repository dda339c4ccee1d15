//! The per-tenant repository: the timeline table, branching, and the
//! ancestor-aware read paths.
//!
//! Timelines live in one table; a branched timeline refers to its parent
//! by table index, and parents always precede children, which bounds
//! every ancestor walk. A read that finds nothing on a timeline within
//! the branch point falls through to the ancestor with the LSN clamped
//! to the branch point, so a child inherits the parent's history below
//! its branch.

use vstd::prelude::*;

use crate::error::RepoError;
use crate::lsn::Lsn;
use crate::redo::RedoManager;
use crate::relish::RelishTag;
use crate::store::{
    chain_complete, chain_of, page_hist, size_at, store_wf, Chain, LocalChain, RelishFilter,
};
use crate::timeline::{AncestorLink, BufferedTimeline};

verus! {

/// Well-formedness of the timeline table: every store is sorted, every
/// ancestor link points at an earlier row with the recorded identifier,
/// and identifiers are unique.
pub open spec fn repo_wf(tls: Seq<BufferedTimeline>) -> bool {
    &&& forall|i: int| 0 <= i < tls.len() ==> store_wf((#[trigger] tls[i]).store@)
    &&& forall|i: int|
        0 <= i < tls.len() ==> ((#[trigger] tls[i]).ancestor matches Some(a) ==> a.idx < i
            && tls[a.idx as int].timeline_id == a.timeline_id)
    &&& forall|i: int, j: int|
        0 <= i < j < tls.len() ==> (#[trigger] tls[i]).timeline_id != (
        #[trigger] tls[j]).timeline_id
}

/// Whether the table holds a timeline with this identifier.
pub open spec fn has_tl(tls: Seq<BufferedTimeline>, tid: u128) -> bool {
    exists|i: int| 0 <= i < tls.len() && (#[trigger] tls[i]).timeline_id == tid
}

/// The reconstruction chain of page `(rel, blknum)` as seen from
/// timeline `i` at `bound`: the timeline's own visible chain, continued
/// into the ancestor with the bound clamped to the branch point whenever
/// the local chain does not reach a base.
pub open spec fn tl_chain(
    tls: Seq<BufferedTimeline>,
    i: int,
    rel: RelishTag,
    blknum: u32,
    bound: int,
) -> Chain
    decreases i,
{
    let local = chain_of(page_hist(tls[i].store@.data, rel, blknum, bound));
    match tls[i].ancestor {
        None => local,
        Some(a) => {
            if chain_complete(local) {
                local
            } else if 0 <= a.idx < i {
                let up = tl_chain(
                    tls,
                    a.idx as int,
                    rel,
                    blknum,
                    vstd::math::min(bound, a.lsn.0 as int),
                );
                Chain { base: up.base, recs: up.recs + local.recs }
            } else {
                local
            }
        },
    }
}

/// The latest metadata row of `rel` as seen from timeline `i` at
/// `bound`: the timeline's own row when one is visible, else the
/// ancestor's with the bound clamped to the branch point.
pub open spec fn tl_size(tls: Seq<BufferedTimeline>, i: int, rel: RelishTag, bound: int) -> Option<
    Option<u32>,
>
    decreases i,
{
    match size_at(tls[i].store@.meta, rel, bound) {
        Some(v) => Some(v),
        None => match tls[i].ancestor {
            None => None,
            Some(a) => {
                if 0 <= a.idx < i {
                    tl_size(tls, a.idx as int, rel, vstd::math::min(bound, a.lsn.0 as int))
                } else {
                    None
                }
            },
        },
    }
}

/// What a size query returns: the visible size, with both a tombstone
/// and the absence of any row reading as "does not exist".
pub open spec fn tl_size_flat(
    tls: Seq<BufferedTimeline>,
    i: int,
    rel: RelishTag,
    bound: int,
) -> Option<u32> {
    match tl_size(tls, i, rel, bound) {
        Some(Some(s)) => Some(s),
        _ => None,
    }
}

/// Contract of a page read against the reconstruction chain `c` the
/// query sees: malformed requests fail, a page with no visible version
/// anywhere is absent, a chain without a base is corruption, and
/// otherwise the replayed page comes back whenever the redo manager
/// succeeds.
pub open spec fn page_read_matches<R: RedoManager>(
    redo: R,
    c: Chain,
    rel: RelishTag,
    blknum: u32,
    r: Result<Vec<u8>, RepoError>,
) -> bool {
    &&& ((!rel.spec_is_blocky() && blknum != 0) ==> r == Err::<Vec<u8>, RepoError>(
        RepoError::InvalidRequest,
    ))
    &&& ((rel.spec_is_blocky() || blknum == 0) ==> {
        &&& ((c.base is None && c.recs.len() == 0) ==> r == Err::<Vec<u8>, RepoError>(
            RepoError::NotFound,
        ))
        &&& ((!(c.base is None && c.recs.len() == 0) && !chain_complete(c)) ==> r == Err::<
            Vec<u8>,
            RepoError,
        >(RepoError::Corruption))
        &&& ((chain_complete(c) && !redo.redo_ok(c.base, c.recs)) ==> r is Err)
        &&& ((chain_complete(c) && redo.redo_ok(c.base, c.recs)) ==> (r matches Ok(v) && v@
            == redo.redo_spec(c.base, c.recs)))
    })
}

/// Contract of a listing against one timeline: membership is exactly
/// "under the filter and existing at the LSN", with no duplicates.
pub open spec fn list_matches(
    tl: BufferedTimeline,
    f: RelishFilter,
    lsn: Lsn,
    out: Seq<RelishTag>,
) -> bool {
    &&& forall|r: RelishTag|
        #[trigger] out.contains(r) <==> (crate::store::filter_matches(f, r) && size_at(
            tl.store@.meta,
            r,
            lsn.0 as int,
        ) matches Some(Some(_)))
    &&& forall|i: int, j: int| 0 <= i < j < out.len() ==> out[i] != out[j]
}

/// Replacing one row of a well-formed table with a row that keeps its
/// identifier and ancestor link, and whose store is sorted, keeps the
/// table well-formed.
pub proof fn lemma_update_wf(pre: Seq<BufferedTimeline>, post: Seq<BufferedTimeline>, k: int)
    requires
        repo_wf(pre),
        0 <= k < pre.len(),
        post == pre.update(k, post[k]),
        store_wf(post[k].store@),
        post[k].timeline_id == pre[k].timeline_id,
        post[k].ancestor == pre[k].ancestor,
    ensures
        repo_wf(post),
{
    assert(post.len() == pre.len());
    assert forall|i: int| 0 <= i < post.len() implies store_wf((#[trigger] post[i]).store@) by {
        if i != k {
            assert(post[i] == pre[i]);
        }
    }
    assert forall|i: int|
        0 <= i < post.len() implies ((#[trigger] post[i]).ancestor matches Some(a) ==> a.idx < i
            && post[a.idx as int].timeline_id == a.timeline_id) by {
        if i != k {
            assert(post[i] == pre[i]);
        }
        if post[i].ancestor is Some {
            let a = post[i].ancestor->Some_0;
            if a.idx as int != k {
                assert(post[a.idx as int] == pre[a.idx as int]);
            }
        }
    }
    assert forall|i: int, j: int|
        0 <= i < j < post.len() implies (#[trigger] post[i]).timeline_id != (
    #[trigger] post[j]).timeline_id by {
        if i != k {
            assert(post[i] == pre[i]);
        }
        if j != k {
            assert(post[j] == pre[j]);
        }
    }
}

/// The LSN this timeline's history starts at: the branch point recorded
/// at the root of its ancestor chain.
pub open spec fn tl_start(tls: Seq<BufferedTimeline>, i: int) -> u64
    decreases i,
{
    match tls[i].ancestor {
        None => 0,
        Some(a) => {
            if 0 <= a.idx < i {
                tl_start(tls, a.idx as int)
            } else {
                0
            }
        },
    }
}

/// Blocks the entity occupies at `bound` as seen from timeline `i`,
/// a missing or dropped entity counting as zero.
pub open spec fn blocks_of(tls: Seq<BufferedTimeline>, i: int, rel: RelishTag, bound: int) -> int {
    match tl_size_flat(tls, i, rel, bound) {
        Some(s) => s as int,
        None => 0,
    }
}

/// Total blocks of the listed entities.
pub open spec fn sum_rel_blocks(
    tls: Seq<BufferedTimeline>,
    i: int,
    rels: Seq<RelishTag>,
    bound: int,
) -> int
    decreases rels.len(),
{
    if rels.len() == 0 {
        0
    } else {
        sum_rel_blocks(tls, i, rels.drop_last(), bound) + blocks_of(tls, i, rels.last(), bound)
    }
}

/// Total blocks of the listed entities, counting SLRU segments only.
pub open spec fn sum_slru_blocks(
    tls: Seq<BufferedTimeline>,
    i: int,
    rels: Seq<RelishTag>,
    bound: int,
) -> int
    decreases rels.len(),
{
    if rels.len() == 0 {
        0
    } else {
        sum_slru_blocks(tls, i, rels.drop_last(), bound) + (if rels.last() matches
            RelishTag::Slru { .. } {
            blocks_of(tls, i, rels.last(), bound)
        } else {
            0
        })
    }
}

/// The logical size in bytes of timeline `i` at `lsn`: every relation
/// fork of tablespace and database zero, plus every SLRU segment, at
/// one page per block; capped at the counter's range.
pub open spec fn logical_size_spec(tls: Seq<BufferedTimeline>, i: int, lsn: Lsn) -> u64 {
    let meta = tls[i].store@.meta;
    let rels = crate::store::emit_listing(
        meta,
        (RelishFilter::InDb { spcnode: 0, dbnode: 0 }),
        lsn.0 as int,
        meta.len() as int,
    );
    let nonrels = crate::store::emit_listing(
        meta,
        RelishFilter::NonRel,
        lsn.0 as int,
        meta.len() as int,
    );
    let blocks = sum_rel_blocks(tls, i, rels, lsn.0 as int) + sum_slru_blocks(
        tls,
        i,
        nonrels,
        lsn.0 as int,
    );
    if 8192 * blocks > u64::MAX {
        u64::MAX
    } else {
        (8192 * blocks) as u64
    }
}

/// Block sums are bounded by one maximal size per listed entity.
pub proof fn lemma_sum_bounds(tls: Seq<BufferedTimeline>, i: int, rels: Seq<RelishTag>, bound: int)
    ensures
        0 <= sum_rel_blocks(tls, i, rels, bound) <= rels.len() * (u32::MAX as int),
        0 <= sum_slru_blocks(tls, i, rels, bound) <= rels.len() * (u32::MAX as int),
    decreases rels.len(),
{
    if rels.len() > 0 {
        lemma_sum_bounds(tls, i, rels.drop_last(), bound);
        assert((rels.len() - 1) * (u32::MAX as int) + (u32::MAX as int) == rels.len() * (
        u32::MAX as int)) by (nonlinear_arith);
    }
}

/// Aggregate counters of one garbage-collection pass.
#[derive(Clone, Copy, Debug, PartialEq, Eq, Structural)]
pub struct GcResult {
    /// Page versions the sweep looked at.
    pub versions_examined: u64,
    /// Page versions the sweep removed.
    pub versions_removed: u64,
    /// Wall time the pass took, filled in by the caller's runtime.
    pub elapsed_micros: u64,
}

impl Default for GcResult {
    /// All counters zero.
    fn default() -> (r: GcResult)
        ensures
            r.versions_examined == 0,
            r.versions_removed == 0,
            r.elapsed_micros == 0,
    {
        GcResult { versions_examined: 0, versions_removed: 0, elapsed_micros: 0 }
    }
}

impl GcResult {
    /// Add another pass's counters into this one, saturating.
    pub fn accumulate(&mut self, other: &GcResult)
        ensures
            final(self).versions_examined == vstd::math::min(
                old(self).versions_examined + other.versions_examined,
                u64::MAX as int,
            ),
            final(self).versions_removed == vstd::math::min(
                old(self).versions_removed + other.versions_removed,
                u64::MAX as int,
            ),
            final(self).elapsed_micros == vstd::math::min(
                old(self).elapsed_micros + other.elapsed_micros,
                u64::MAX as int,
            ),
    {
        self.versions_examined = if self.versions_examined <= u64::MAX - other.versions_examined {
            self.versions_examined + other.versions_examined
        } else {
            u64::MAX
        };
        self.versions_removed = if self.versions_removed <= u64::MAX - other.versions_removed {
            self.versions_removed + other.versions_removed
        } else {
            u64::MAX
        };
        self.elapsed_micros = if self.elapsed_micros <= u64::MAX - other.elapsed_micros {
            self.elapsed_micros + other.elapsed_micros
        } else {
            u64::MAX
        };
    }
}

/// Whether a garbage-collection pass visits timeline `i`: the target
/// filter admits it and the horizon does not reach below LSN zero.
pub open spec fn gc_eligible(
    tls: Seq<BufferedTimeline>,
    i: int,
    target: Option<u128>,
    horizon: u64,
) -> bool {
    &&& (match target {
        None => true,
        Some(t) => tls[i].timeline_id == t,
    })
    &&& horizon <= tls[i].last_record_lsn.0
}

/// A repository of timelines for one tenant.
#[derive(Debug)]
pub struct BufferedRepository {
    /// The tenant this repository belongs to.
    pub tenant_id: u128,
    /// The timeline table; parents precede children.
    pub timelines: Vec<BufferedTimeline>,
}

impl BufferedRepository {
    /// Whether the table invariants hold.
    pub open spec fn wf(&self) -> bool {
        repo_wf(self.timelines@)
    }

    /// An empty repository.
    pub fn new(tenant_id: u128) -> (r: BufferedRepository)
        ensures
            r.wf(),
            r.timelines@.len() == 0,
            r.tenant_id == tenant_id,
    {
        BufferedRepository { tenant_id, timelines: Vec::new() }
    }

    /// Index of the timeline with this identifier.
    pub fn timeline_index(&self, tid: u128) -> (r: Option<usize>)
        ensures
            match r {
                Some(k) => k < self.timelines@.len() && self.timelines@[k as int].timeline_id
                    == tid,
                None => !has_tl(self.timelines@, tid),
            },
    {
        let mut i: usize = 0;
        while i < self.timelines.len()
            invariant
                i <= self.timelines@.len(),
                forall|j: int| 0 <= j < i ==> (#[trigger] self.timelines@[j]).timeline_id != tid,
            decreases self.timelines@.len() - i,
        {
            if self.timelines[i].timeline_id == tid {
                return Some(i);
            }
            i = i + 1;
        }
        None
    }

    /// The timeline with this identifier.
    pub fn get_timeline(&self, tid: u128) -> (r: Result<&BufferedTimeline, RepoError>)
        ensures
            r is Ok <==> has_tl(self.timelines@, tid),
            r matches Err(e) ==> e == RepoError::NotFound,
            r matches Ok(tl) ==> exists|k: int|
                0 <= k < self.timelines@.len() && *tl == #[trigger] self.timelines@[k]
                    && tl.timeline_id == tid,
    {
        match self.timeline_index(tid) {
            Some(k) => {
                let tl = &self.timelines[k];
                proof {
                    assert(0 <= k < self.timelines@.len() && *tl == self.timelines@[k as int]
                        && tl.timeline_id == tid);
                }
                Ok(tl)
            },
            None => Err(RepoError::NotFound),
        }
    }

    /// Create an empty root timeline whose visibility horizon starts at zero. Fails
    /// and changes nothing when the identifier is taken.
    pub fn create_empty_timeline(&mut self, tid: u128) -> (r: Result<(), RepoError>)
        requires
            old(self).wf(),
        ensures
            final(self).wf(),
            final(self).tenant_id == old(self).tenant_id,
            r is Err <==> has_tl(old(self).timelines@, tid),
            r is Err ==> r == Err::<(), RepoError>(RepoError::AlreadyExists) && *final(self)
                == *old(self),
            r is Ok ==> final(self).timelines@.len() == old(self).timelines@.len() + 1
                && final(self).timelines@.take(old(self).timelines@.len() as int) == old(
                self,
            ).timelines@ && ({
                let tl = final(self).timelines@.last();
                &&& tl.timeline_id == tid
                &&& tl.store@.data.len() == 0
                &&& tl.store@.meta.len() == 0
                &&& tl.last_record_lsn.0 == 0
                &&& tl.disk_consistent_lsn.0 == 0
                &&& tl.ancestor is None
            }),
    {
        if self.timeline_index(tid).is_some() {
            return Err(RepoError::AlreadyExists);
        }
        let ghost orig = self.timelines@;
        let tl = BufferedTimeline::new_empty(tid, Lsn(0));
        self.timelines.push(tl);
        proof {
            assert(self.timelines@.take(orig.len() as int) =~= orig);
            assert forall|i: int|
                0 <= i < self.timelines@.len() implies store_wf(
                (#[trigger] self.timelines@[i]).store@,
            ) by {
                if i < orig.len() {
                    assert(self.timelines@[i] == orig[i]);
                }
            }
            assert forall|i: int|
                0 <= i < self.timelines@.len() implies ((
            #[trigger] self.timelines@[i]).ancestor matches Some(a) ==> a.idx < i
                && self.timelines@[a.idx as int].timeline_id == a.timeline_id) by {
                if i < orig.len() {
                    assert(self.timelines@[i] == orig[i]);
                    if orig[i].ancestor is Some {
                        let a = orig[i].ancestor->Some_0;
                        assert(self.timelines@[a.idx as int] == orig[a.idx as int]);
                    }
                }
            }
            assert forall|i: int, j: int|
                0 <= i < j < self.timelines@.len() implies (
            #[trigger] self.timelines@[i]).timeline_id != (
            #[trigger] self.timelines@[j]).timeline_id by {
                if j < orig.len() {
                    assert(self.timelines@[i] == orig[i]);
                    assert(self.timelines@[j] == orig[j]);
                } else {
                    assert(self.timelines@[i] == orig[i]);
                    assert(!has_tl(orig, tid));
                }
            }
        }
        Ok(())
    }

    /// Branch a new timeline `dst` off `src` at `start_lsn`. The child
    /// starts empty with its horizon at the branch point; reads below the
    /// branch point fall through to `src`. No data is copied. Fails and
    /// changes nothing when `src` is missing or `dst` exists.
    pub fn branch_timeline(&mut self, src: u128, dst: u128, start_lsn: Lsn) -> (r: Result<
        (),
        RepoError,
    >)
        requires
            old(self).wf(),
        ensures
            final(self).wf(),
            final(self).tenant_id == old(self).tenant_id,
            !has_tl(old(self).timelines@, src) ==> r == Err::<(), RepoError>(RepoError::NotFound)
                && *final(self) == *old(self),
            has_tl(old(self).timelines@, src) && has_tl(old(self).timelines@, dst) ==> r == Err::<
                (),
                RepoError,
            >(RepoError::AlreadyExists) && *final(self) == *old(self),
            r is Ok <==> (has_tl(old(self).timelines@, src) && !has_tl(old(self).timelines@, dst)),
            r is Ok ==> final(self).timelines@.len() == old(self).timelines@.len() + 1
                && final(self).timelines@.take(old(self).timelines@.len() as int) == old(
                self,
            ).timelines@ && ({
                let tl = final(self).timelines@.last();
                &&& tl.timeline_id == dst
                &&& tl.store@.data.len() == 0
                &&& tl.store@.meta.len() == 0
                &&& tl.last_record_lsn == start_lsn
                &&& tl.disk_consistent_lsn == start_lsn
                &&& (tl.ancestor matches Some(a) && a.timeline_id == src && a.lsn == start_lsn
                    && 0 <= a.idx < old(self).timelines@.len() && old(
                    self,
                ).timelines@[a.idx as int].timeline_id == src)
                &&& tl.prev_record_lsn == (if old(
                    self,
                ).timelines@[tl.ancestor->Some_0.idx as int].last_record_lsn == start_lsn {
                    old(self).timelines@[tl.ancestor->Some_0.idx as int].prev_record_lsn
                } else {
                    Lsn(0)
                })
            }),
    {
        let src_idx = match self.timeline_index(src) {
            Some(k) => k,
            None => {
                return Err(RepoError::NotFound);
            },
        };
        if self.timeline_index(dst).is_some() {
            return Err(RepoError::AlreadyExists);
        }
        let ghost orig = self.timelines@;
        let src_last = self.timelines[src_idx].last_record_lsn;
        let src_prev = self.timelines[src_idx].prev_record_lsn;
        let dst_prev = if src_last.0 == start_lsn.0 {
            src_prev
        } else {
            Lsn(0)
        };
        let mut tl = BufferedTimeline::new_empty(dst, start_lsn);
        tl.prev_record_lsn = dst_prev;
        tl.ancestor = Some(AncestorLink { idx: src_idx, timeline_id: src, lsn: start_lsn });
        self.timelines.push(tl);
        proof {
            assert(self.timelines@.take(orig.len() as int) =~= orig);
            assert forall|i: int|
                0 <= i < self.timelines@.len() implies store_wf(
                (#[trigger] self.timelines@[i]).store@,
            ) by {
                if i < orig.len() {
                    assert(self.timelines@[i] == orig[i]);
                }
            }
            assert forall|i: int|
                0 <= i < self.timelines@.len() implies ((
            #[trigger] self.timelines@[i]).ancestor matches Some(a) ==> a.idx < i
                && self.timelines@[a.idx as int].timeline_id == a.timeline_id) by {
                if i < orig.len() {
                    assert(self.timelines@[i] == orig[i]);
                    if orig[i].ancestor is Some {
                        let a = orig[i].ancestor->Some_0;
                        assert(self.timelines@[a.idx as int] == orig[a.idx as int]);
                    }
                } else {
                    assert(self.timelines@[src_idx as int] == orig[src_idx as int]);
                }
            }
            assert forall|i: int, j: int|
                0 <= i < j < self.timelines@.len() implies (
            #[trigger] self.timelines@[i]).timeline_id != (
            #[trigger] self.timelines@[j]).timeline_id by {
                if j < orig.len() {
                    assert(self.timelines@[i] == orig[i]);
                    assert(self.timelines@[j] == orig[j]);
                } else {
                    assert(self.timelines@[i] == orig[i]);
                    assert(!has_tl(orig, dst));
                }
            }
        }
        Ok(())
    }

    /// Reconstruct page `(rel, blknum)` of timeline `tid` as of `lsn`.
    /// The newest visible version at or below `lsn` is returned when it
    /// is a full image; otherwise the delta chain down to a base —
    /// following the ancestor chain below branch points — is replayed by
    /// the redo manager.
    pub fn get_page_at_lsn<R: RedoManager>(
        &self,
        redo: &R,
        tid: u128,
        rel: RelishTag,
        blknum: u32,
        lsn: Lsn,
    ) -> (r: Result<Vec<u8>, RepoError>)
        requires
            self.wf(),
            forall|k: int|
                0 <= k < self.timelines@.len() && (#[trigger] self.timelines@[k]).timeline_id
                    == tid ==> lsn.0 <= self.timelines@[k].last_record_lsn.0,
        ensures
            !has_tl(self.timelines@, tid) ==> r == Err::<Vec<u8>, RepoError>(RepoError::NotFound),
            forall|k: int|
                0 <= k < self.timelines@.len() && (#[trigger] self.timelines@[k]).timeline_id
                    == tid ==> page_read_matches(
                    *redo,
                    tl_chain(self.timelines@, k, rel, blknum, lsn.0 as int),
                    rel,
                    blknum,
                    r,
                ),
    {
        let idx = match self.timeline_index(tid) {
            Some(k) => k,
            None => {
                return Err(RepoError::NotFound);
            },
        };
        if !rel.is_blocky() && blknum != 0 {
            return Err(RepoError::InvalidRequest);
        }
        let ghost c = tl_chain(self.timelines@, idx as int, rel, blknum, lsn.0 as int);
        let chain = self.collect_chain(idx, &rel, blknum, lsn);
        let complete = chain.is_complete();
        if chain.recs.len() == 0 {
            match chain.base {
                Some(img) => {
                    proof {
                        redo.redo_base_law(img@);
                        assert(c.recs =~= Seq::<(u64, crate::store::WalRecordView)>::empty());
                    }
                    Ok(img)
                },
                None => Err(RepoError::NotFound),
            }
        } else if !complete {
            Err(RepoError::Corruption)
        } else {
            proof {
                assert(crate::redo::opt_bytes_view(chain.base) == c.base);
                assert(crate::redo::chain_recs_view(chain.recs@) == c.recs);
            }
            redo.request_redo(rel, blknum, lsn, chain.base, chain.recs)
        }
    }

    /// The size of `rel` on timeline `tid` as of `lsn`: the newest
    /// visible metadata row, following ancestors below branch points.
    /// `Ok(None)` means the entity does not exist at that LSN, whether
    /// because no row is visible or because it was dropped.
    pub fn get_relish_size(&self, tid: u128, rel: RelishTag, lsn: Lsn) -> (r: Result<
        Option<u32>,
        RepoError,
    >)
        requires
            self.wf(),
        ensures
            !has_tl(self.timelines@, tid) ==> r == Err::<Option<u32>, RepoError>(
                RepoError::NotFound,
            ),
            !rel.spec_is_blocky() && has_tl(self.timelines@, tid) ==> r == Err::<
                Option<u32>,
                RepoError,
            >(RepoError::InvalidRequest),
            forall|k: int|
                0 <= k < self.timelines@.len() && (#[trigger] self.timelines@[k]).timeline_id
                    == tid && rel.spec_is_blocky() ==> r == Ok::<Option<u32>, RepoError>(
                    tl_size_flat(self.timelines@, k, rel, lsn.0 as int),
                ),
    {
        let idx = match self.timeline_index(tid) {
            Some(k) => k,
            None => {
                return Err(RepoError::NotFound);
            },
        };
        if !rel.is_blocky() {
            return Err(RepoError::InvalidRequest);
        }
        Ok(self.size_query(idx, &rel, lsn))
    }

    /// Whether `rel` exists on timeline `tid` as of `lsn`.
    pub fn get_rel_exists(&self, tid: u128, rel: RelishTag, lsn: Lsn) -> (r: Result<
        bool,
        RepoError,
    >)
        requires
            self.wf(),
        ensures
            !has_tl(self.timelines@, tid) ==> r == Err::<bool, RepoError>(RepoError::NotFound),
            !rel.spec_is_blocky() && has_tl(self.timelines@, tid) ==> r == Err::<bool, RepoError>(
                RepoError::InvalidRequest,
            ),
            forall|k: int|
                0 <= k < self.timelines@.len() && (#[trigger] self.timelines@[k]).timeline_id
                    == tid && rel.spec_is_blocky() ==> r == Ok::<bool, RepoError>(
                    tl_size_flat(self.timelines@, k, rel, lsn.0 as int) is Some,
                ),
    {
        match self.get_relish_size(tid, rel, lsn) {
            Ok(sz) => Ok(sz.is_some()),
            Err(e) => Err(e),
        }
    }

    /// The newest visible metadata row of `rel` seen from timeline
    /// `idx`, following ancestors.
    fn size_query(&self, idx: usize, rel: &RelishTag, bound: Lsn) -> (r: Option<u32>)
        requires
            self.wf(),
            idx < self.timelines@.len(),
        ensures
            r == tl_size_flat(self.timelines@, idx as int, *rel, bound.0 as int),
        decreases idx,
    {
        let tl = &self.timelines[idx];
        match tl.store.size_lookup(rel, bound) {
            Some(Some(s)) => Some(s),
            Some(None) => None,
            None => {
                match &tl.ancestor {
                    None => None,
                    Some(a) => {
                        let clamped = if bound.0 <= a.lsn.0 {
                            bound
                        } else {
                            a.lsn
                        };
                        self.size_query(a.idx, rel, clamped)
                    },
                }
            },
        }
    }

    /// List the relation forks of one tablespace and database that exist
    /// on timeline `tid` at `lsn`. Rows of the timeline itself only; the
    /// listing does not follow ancestors.
    pub fn list_rels(&self, tid: u128, spcnode: u32, dbnode: u32, lsn: Lsn) -> (r: Result<
        Vec<RelishTag>,
        RepoError,
    >)
        requires
            self.wf(),
        ensures
            r is Ok <==> has_tl(self.timelines@, tid),
            !has_tl(self.timelines@, tid) ==> r == Err::<Vec<RelishTag>, RepoError>(
                RepoError::NotFound,
            ),
            r matches Ok(out) ==> forall|k: int|
                0 <= k < self.timelines@.len() && (#[trigger] self.timelines@[k]).timeline_id
                    == tid ==> list_matches(
                    self.timelines@[k],
                    (RelishFilter::InDb { spcnode, dbnode }),
                    lsn,
                    out@,
                ),
    {
        let idx = match self.timeline_index(tid) {
            Some(k) => k,
            None => {
                return Err(RepoError::NotFound);
            },
        };
        let f = RelishFilter::InDb { spcnode, dbnode };
        Ok(self.timelines[idx].store.list_relishes(&f, lsn))
    }

    /// List the non-relational entities that exist on timeline `tid` at
    /// `lsn`. Rows of the timeline itself only.
    pub fn list_nonrels(&self, tid: u128, lsn: Lsn) -> (r: Result<Vec<RelishTag>, RepoError>)
        requires
            self.wf(),
        ensures
            r is Ok <==> has_tl(self.timelines@, tid),
            !has_tl(self.timelines@, tid) ==> r == Err::<Vec<RelishTag>, RepoError>(
                RepoError::NotFound,
            ),
            r matches Ok(out) ==> forall|k: int|
                0 <= k < self.timelines@.len() && (#[trigger] self.timelines@[k]).timeline_id
                    == tid ==> list_matches(self.timelines@[k], RelishFilter::NonRel, lsn, out@),
    {
        let idx = match self.timeline_index(tid) {
            Some(k) => k,
            None => {
                return Err(RepoError::NotFound);
            },
        };
        let f = RelishFilter::NonRel;
        Ok(self.timelines[idx].store.list_relishes(&f, lsn))
    }

    /// Store a full page image on timeline `tid`; see
    /// [`BufferedTimeline::put_page_image`].
    pub fn put_page_image(&mut self, tid: u128, rel: RelishTag, blknum: u32, lsn: Lsn, img: Vec<u8>)
        -> (r: Result<(), RepoError>)
        requires
            old(self).wf(),
            blknum < u32::MAX,
        ensures
            final(self).wf(),
            final(self).tenant_id == old(self).tenant_id,
            !has_tl(old(self).timelines@, tid) ==> r == Err::<(), RepoError>(RepoError::NotFound)
                && *final(self) == *old(self),
            forall|k: int|
                0 <= k < old(self).timelines@.len() && (#[trigger] old(
                    self,
                ).timelines@[k]).timeline_id == tid ==> final(self).timelines@ == old(
                    self,
                ).timelines@.update(k, final(self).timelines@[k]) && crate::timeline::put_result(
                    old(self).timelines@[k],
                    final(self).timelines@[k],
                    rel,
                    blknum,
                    lsn,
                    r,
                    crate::store::PageVersionView::Image(img@),
                ),
    {
        let idx = match self.timeline_index(tid) {
            Some(k) => k,
            None => {
                return Err(RepoError::NotFound);
            },
        };
        let r = self.timelines[idx].put_page_image(rel, blknum, lsn, img);
        proof {
            assert forall|k: int|
                0 <= k < old(self).timelines@.len() && (#[trigger] old(
                    self,
                ).timelines@[k]).timeline_id == tid implies k == idx by {
                if k < idx {
                    assert(old(self).timelines@[k].timeline_id != old(
                        self,
                    ).timelines@[idx as int].timeline_id);
                }
                if idx < k {
                    assert(old(self).timelines@[idx as int].timeline_id != old(
                        self,
                    ).timelines@[k].timeline_id);
                }
            }
            lemma_update_wf(old(self).timelines@, self.timelines@, idx as int);
        }
        r
    }

    /// Store a delta record on timeline `tid`; see
    /// [`BufferedTimeline::put_wal_record`].
    pub fn put_wal_record(
        &mut self,
        tid: u128,
        lsn: Lsn,
        rel: RelishTag,
        blknum: u32,
        rec: crate::store::WalRecord,
    ) -> (r: Result<(), RepoError>)
        requires
            old(self).wf(),
            blknum < u32::MAX,
        ensures
            final(self).wf(),
            final(self).tenant_id == old(self).tenant_id,
            !has_tl(old(self).timelines@, tid) ==> r == Err::<(), RepoError>(RepoError::NotFound)
                && *final(self) == *old(self),
            forall|k: int|
                0 <= k < old(self).timelines@.len() && (#[trigger] old(
                    self,
                ).timelines@[k]).timeline_id == tid ==> final(self).timelines@ == old(
                    self,
                ).timelines@.update(k, final(self).timelines@[k]) && crate::timeline::put_result(
                    old(self).timelines@[k],
                    final(self).timelines@[k],
                    rel,
                    blknum,
                    lsn,
                    r,
                    crate::store::PageVersionView::Delta(rec@),
                ),
    {
        let idx = match self.timeline_index(tid) {
            Some(k) => k,
            None => {
                return Err(RepoError::NotFound);
            },
        };
        let r = self.timelines[idx].put_wal_record(lsn, rel, blknum, rec);
        proof {
            assert forall|k: int|
                0 <= k < old(self).timelines@.len() && (#[trigger] old(
                    self,
                ).timelines@[k]).timeline_id == tid implies k == idx by {
                if k < idx {
                    assert(old(self).timelines@[k].timeline_id != old(
                        self,
                    ).timelines@[idx as int].timeline_id);
                }
                if idx < k {
                    assert(old(self).timelines@[idx as int].timeline_id != old(
                        self,
                    ).timelines@[k].timeline_id);
                }
            }
            lemma_update_wf(old(self).timelines@, self.timelines@, idx as int);
        }
        r
    }

    /// Record a truncation on timeline `tid`; see
    /// [`BufferedTimeline::put_truncation`].
    pub fn put_truncation(&mut self, tid: u128, rel: RelishTag, lsn: Lsn, relsize: u32) -> (r:
        Result<(), RepoError>)
        requires
            old(self).wf(),
        ensures
            final(self).wf(),
            final(self).tenant_id == old(self).tenant_id,
            !has_tl(old(self).timelines@, tid) ==> r == Err::<(), RepoError>(RepoError::NotFound)
                && *final(self) == *old(self),
            forall|k: int|
                0 <= k < old(self).timelines@.len() && (#[trigger] old(
                    self,
                ).timelines@[k]).timeline_id == tid ==> final(self).timelines@ == old(
                    self,
                ).timelines@.update(k, final(self).timelines@[k]) && ({
                    let pre = old(self).timelines@[k];
                    let post = final(self).timelines@[k];
                    &&& (r is Err <==> !rel.spec_is_blocky() || !crate::lsn::lsn_aligned(lsn.0))
                    &&& (r is Err ==> r == Err::<(), RepoError>(RepoError::InvalidRequest) && post
                        == pre)
                    &&& (r is Ok ==> post == (BufferedTimeline {
                        store: post.store,
                        disk_consistent_lsn: lsn,
                        ..pre
                    }) && post.store@.meta == crate::store::meta_insert(
                        pre.store@.meta,
                        (crate::store::MetaEntryView { rel, lsn: lsn.0, size: Some(relsize) }),
                    ) && post.store@.data == pre.store@.data)
                }),
    {
        let idx = match self.timeline_index(tid) {
            Some(k) => k,
            None => {
                return Err(RepoError::NotFound);
            },
        };
        let r = self.timelines[idx].put_truncation(rel, lsn, relsize);
        proof {
            assert forall|k: int|
                0 <= k < old(self).timelines@.len() && (#[trigger] old(
                    self,
                ).timelines@[k]).timeline_id == tid implies k == idx by {
                if k < idx {
                    assert(old(self).timelines@[k].timeline_id != old(
                        self,
                    ).timelines@[idx as int].timeline_id);
                }
                if idx < k {
                    assert(old(self).timelines@[idx as int].timeline_id != old(
                        self,
                    ).timelines@[k].timeline_id);
                }
            }
            lemma_update_wf(old(self).timelines@, self.timelines@, idx as int);
        }
        r
    }

    /// Drop `rel` on timeline `tid` at `lsn`; see
    /// [`BufferedTimeline::drop_relish`].
    pub fn drop_relish(&mut self, tid: u128, rel: RelishTag, lsn: Lsn) -> (r: Result<
        (),
        RepoError,
    >)
        requires
            old(self).wf(),
        ensures
            final(self).wf(),
            final(self).tenant_id == old(self).tenant_id,
            !has_tl(old(self).timelines@, tid) ==> r == Err::<(), RepoError>(RepoError::NotFound)
                && *final(self) == *old(self),
            forall|k: int|
                0 <= k < old(self).timelines@.len() && (#[trigger] old(
                    self,
                ).timelines@[k]).timeline_id == tid ==> final(self).timelines@ == old(
                    self,
                ).timelines@.update(k, final(self).timelines@[k]) && ({
                    let pre = old(self).timelines@[k];
                    let post = final(self).timelines@[k];
                    &&& (r is Err <==> !crate::lsn::lsn_aligned(lsn.0))
                    &&& (r is Err ==> r == Err::<(), RepoError>(RepoError::InvalidRequest) && post
                        == pre)
                    &&& (r is Ok ==> post == (BufferedTimeline {
                        store: post.store,
                        disk_consistent_lsn: lsn,
                        ..pre
                    }) && post.store@.meta == crate::store::meta_insert(
                        pre.store@.meta,
                        (crate::store::MetaEntryView { rel, lsn: lsn.0, size: None }),
                    ) && post.store@.data == pre.store@.data)
                }),
    {
        let idx = match self.timeline_index(tid) {
            Some(k) => k,
            None => {
                return Err(RepoError::NotFound);
            },
        };
        let r = self.timelines[idx].drop_relish(rel, lsn);
        proof {
            assert forall|k: int|
                0 <= k < old(self).timelines@.len() && (#[trigger] old(
                    self,
                ).timelines@[k]).timeline_id == tid implies k == idx by {
                if k < idx {
                    assert(old(self).timelines@[k].timeline_id != old(
                        self,
                    ).timelines@[idx as int].timeline_id);
                }
                if idx < k {
                    assert(old(self).timelines@[idx as int].timeline_id != old(
                        self,
                    ).timelines@[k].timeline_id);
                }
            }
            lemma_update_wf(old(self).timelines@, self.timelines@, idx as int);
        }
        r
    }

    /// Advance the visibility horizon of timeline `tid`; see
    /// [`BufferedTimeline::advance_last_record_lsn`].
    pub fn advance_last_record_lsn(&mut self, tid: u128, new_lsn: Lsn) -> (r: Result<
        (),
        RepoError,
    >)
        requires
            old(self).wf(),
            crate::lsn::lsn_aligned(new_lsn.0),
        ensures
            final(self).wf(),
            final(self).tenant_id == old(self).tenant_id,
            !has_tl(old(self).timelines@, tid) ==> r == Err::<(), RepoError>(RepoError::NotFound)
                && *final(self) == *old(self),
            forall|k: int|
                0 <= k < old(self).timelines@.len() && (#[trigger] old(
                    self,
                ).timelines@[k]).timeline_id == tid ==> r is Ok && final(self).timelines@ == old(
                    self,
                ).timelines@.update(k, final(self).timelines@[k]) && ({
                    let pre = old(self).timelines@[k];
                    let post = final(self).timelines@[k];
                    post == (BufferedTimeline {
                        last_record_lsn: new_lsn,
                        prev_record_lsn: pre.last_record_lsn,
                        ..pre
                    })
                }),
    {
        let idx = match self.timeline_index(tid) {
            Some(k) => k,
            None => {
                return Err(RepoError::NotFound);
            },
        };
        self.timelines[idx].advance_last_record_lsn(new_lsn);
        proof {
            assert forall|k: int|
                0 <= k < old(self).timelines@.len() && (#[trigger] old(
                    self,
                ).timelines@[k]).timeline_id == tid implies k == idx by {
                if k < idx {
                    assert(old(self).timelines@[k].timeline_id != old(
                        self,
                    ).timelines@[idx as int].timeline_id);
                }
                if idx < k {
                    assert(old(self).timelines@[idx as int].timeline_id != old(
                        self,
                    ).timelines@[k].timeline_id);
                }
            }
            lemma_update_wf(old(self).timelines@, self.timelines@, idx as int);
        }
        Ok(())
    }

    /// Attach a timeline reloaded from its durable metadata: the
    /// last-record LSN starts at the disk-consistent LSN, and a recorded
    /// ancestor must already sit in the table — ancestors are attached
    /// first, parent before child. Page data returns through WAL
    /// re-ingest from the disk-consistent LSN on.
    pub fn attach_timeline(&mut self, tid: u128, meta: &crate::metadata::TimelineMetadata) -> (r:
        Result<(), RepoError>)
        requires
            old(self).wf(),
        ensures
            final(self).wf(),
            final(self).tenant_id == old(self).tenant_id,
            r is Err ==> *final(self) == *old(self),
            has_tl(old(self).timelines@, tid) ==> r == Err::<(), RepoError>(
                RepoError::AlreadyExists,
            ),
            !has_tl(old(self).timelines@, tid) && (meta.ancestor_timeline matches Some(a)
                && !has_tl(old(self).timelines@, a)) ==> r == Err::<(), RepoError>(
                RepoError::NotFound,
            ),
            r is Ok <==> (!has_tl(old(self).timelines@, tid) && (match meta.ancestor_timeline {
                Some(a) => has_tl(old(self).timelines@, a),
                None => true,
            })),
            r is Ok ==> final(self).timelines@.len() == old(self).timelines@.len() + 1
                && final(self).timelines@.take(old(self).timelines@.len() as int) == old(
                self,
            ).timelines@ && ({
                let tl = final(self).timelines@.last();
                &&& tl.timeline_id == tid
                &&& tl.store@.data.len() == 0
                &&& tl.store@.meta.len() == 0
                &&& tl.last_record_lsn == meta.disk_consistent_lsn
                &&& tl.disk_consistent_lsn == meta.disk_consistent_lsn
                &&& tl.prev_record_lsn == (match meta.prev_record_lsn {
                    Some(p) => p,
                    None => Lsn(0),
                })
                &&& (match meta.ancestor_timeline {
                    Some(a) => tl.ancestor matches Some(link) && link.timeline_id == a && link.lsn
                        == meta.ancestor_lsn && 0 <= link.idx < old(self).timelines@.len() && old(
                        self,
                    ).timelines@[link.idx as int].timeline_id == a,
                    None => tl.ancestor is None,
                })
            }),
    {
        if self.timeline_index(tid).is_some() {
            return Err(RepoError::AlreadyExists);
        }
        let ancestor = match &meta.ancestor_timeline {
            Some(a) => {
                let aid = *a;
                match self.timeline_index(aid) {
                    Some(idx) => Some(
                        AncestorLink { idx, timeline_id: aid, lsn: meta.ancestor_lsn },
                    ),
                    None => {
                        return Err(RepoError::NotFound);
                    },
                }
            },
            None => None,
        };
        let ghost orig = self.timelines@;
        let mut tl = BufferedTimeline::new_empty(tid, meta.disk_consistent_lsn);
        tl.prev_record_lsn = match &meta.prev_record_lsn {
            Some(p) => *p,
            None => Lsn(0),
        };
        tl.ancestor = ancestor;
        self.timelines.push(tl);
        proof {
            assert(self.timelines@.take(orig.len() as int) =~= orig);
            assert forall|i: int|
                0 <= i < self.timelines@.len() implies store_wf(
                (#[trigger] self.timelines@[i]).store@,
            ) by {
                if i < orig.len() {
                    assert(self.timelines@[i] == orig[i]);
                }
            }
            assert forall|i: int|
                0 <= i < self.timelines@.len() implies ((
            #[trigger] self.timelines@[i]).ancestor matches Some(a) ==> a.idx < i
                && self.timelines@[a.idx as int].timeline_id == a.timeline_id) by {
                if i < orig.len() {
                    assert(self.timelines@[i] == orig[i]);
                    if orig[i].ancestor is Some {
                        let a = orig[i].ancestor->Some_0;
                        assert(self.timelines@[a.idx as int] == orig[a.idx as int]);
                    }
                } else {
                    if self.timelines@[i].ancestor is Some {
                        let a = self.timelines@[i].ancestor->Some_0;
                        assert(self.timelines@[a.idx as int] == orig[a.idx as int]);
                    }
                }
            }
            assert forall|i: int, j: int|
                0 <= i < j < self.timelines@.len() implies (
            #[trigger] self.timelines@[i]).timeline_id != (
            #[trigger] self.timelines@[j]).timeline_id by {
                if j < orig.len() {
                    assert(self.timelines@[i] == orig[i]);
                    assert(self.timelines@[j] == orig[j]);
                } else {
                    assert(self.timelines@[i] == orig[i]);
                    assert(!has_tl(orig, tid));
                }
            }
        }
        Ok(())
    }

    /// The identifiers of all timelines in the table.
    pub fn timeline_ids(&self) -> (r: Vec<u128>)
        ensures
            r@.len() == self.timelines@.len(),
            forall|j: int|
                0 <= j < r@.len() ==> r@[j] == (#[trigger] self.timelines@[j]).timeline_id,
    {
        let mut out: Vec<u128> = Vec::new();
        let mut i: usize = 0;
        while i < self.timelines.len()
            invariant
                i <= self.timelines@.len(),
                out@.len() == i,
                forall|j: int|
                    0 <= j < i ==> out@[j] == (#[trigger] self.timelines@[j]).timeline_id,
            decreases self.timelines@.len() - i,
        {
            out.push(self.timelines[i].timeline_id);
            i = i + 1;
        }
        out
    }

    /// Materialize the long delta chains of timeline `tid`; see
    /// [`BufferedTimeline::checkpoint_internal`]. No page reconstruction
    /// result changes anywhere in the repository, on this timeline or on
    /// any timeline that inherits from it.
    pub fn checkpoint<R: RedoManager>(&mut self, redo: &R, tid: u128) -> (r: Result<(), RepoError>)
        requires
            old(self).wf(),
        ensures
            final(self).wf(),
            final(self).tenant_id == old(self).tenant_id,
            !has_tl(old(self).timelines@, tid) ==> r == Err::<(), RepoError>(RepoError::NotFound)
                && *final(self) == *old(self),
            forall|k: int|
                0 <= k < old(self).timelines@.len() && (#[trigger] old(
                    self,
                ).timelines@[k]).timeline_id == tid ==> final(self).timelines@ == old(
                    self,
                ).timelines@.update(k, final(self).timelines@[k]) && final(self).timelines@[k] == (
                BufferedTimeline {
                    store: final(self).timelines@[k].store,
                    ..old(self).timelines@[k]
                }) && final(self).timelines@[k].store@.meta == old(
                    self,
                ).timelines@[k].store@.meta && crate::timeline::data_shape_preserved(
                    old(self).timelines@[k],
                    final(self).timelines@[k],
                ) && (r is Ok <==> crate::timeline::materialize_ok(
                    *redo,
                    old(self).timelines@[k].store@.data,
                    0,
                )),
            has_tl(old(self).timelines@, tid) ==> forall|i: int, rel2: RelishTag, blk2: u32, bound: int|
                0 <= i < old(self).timelines@.len() ==> crate::redo::chain_pres(
                    *redo,
                    #[trigger] tl_chain(old(self).timelines@, i, rel2, blk2, bound),
                    tl_chain(final(self).timelines@, i, rel2, blk2, bound),
                ),
    {
        let idx = match self.timeline_index(tid) {
            Some(k) => k,
            None => {
                return Err(RepoError::NotFound);
            },
        };
        let r = self.timelines[idx].checkpoint_internal(redo, 0, true);
        proof {
            assert forall|k: int|
                0 <= k < old(self).timelines@.len() && (#[trigger] old(
                    self,
                ).timelines@[k]).timeline_id == tid implies k == idx by {
                if k < idx {
                    assert(old(self).timelines@[k].timeline_id != old(
                        self,
                    ).timelines@[idx as int].timeline_id);
                }
                if idx < k {
                    assert(old(self).timelines@[idx as int].timeline_id != old(
                        self,
                    ).timelines@[k].timeline_id);
                }
            }
            lemma_update_wf(old(self).timelines@, self.timelines@, idx as int);
            assert forall|i: int, rel2: RelishTag, blk2: u32, bound: int|
                0 <= i < old(self).timelines@.len() implies crate::redo::chain_pres(
                *redo,
                #[trigger] tl_chain(old(self).timelines@, i, rel2, blk2, bound),
                tl_chain(self.timelines@, i, rel2, blk2, bound),
            ) by {
                crate::laws::lemma_checkpoint_reads_preserved(
                    *redo,
                    old(self).timelines@,
                    self.timelines@,
                    idx as int,
                    i,
                    rel2,
                    blk2,
                    bound,
                );
            }
        }
        r
    }

    /// One garbage-collection pass. Timelines under the optional target
    /// filter whose last-record LSN lies at or past `horizon` are visited: the
    /// branch points of their children are collected as the LSNs to
    /// retain, the timeline is optionally checkpointed first so all work
    /// is materialized, and its versions older than the horizon are
    /// swept — the sweep itself removes nothing yet. No page
    /// reconstruction result changes.
    pub fn gc_iteration<R: RedoManager>(
        &mut self,
        redo: &R,
        target_timelineid: Option<u128>,
        horizon: u64,
        checkpoint_before_gc: bool,
    ) -> (r: Result<GcResult, RepoError>)
        requires
            old(self).wf(),
        ensures
            final(self).wf(),
            final(self).tenant_id == old(self).tenant_id,
            final(self).timelines@.len() == old(self).timelines@.len(),
            forall|j: int|
                0 <= j < old(self).timelines@.len() ==> #[trigger] final(self).timelines@[j] == (
                BufferedTimeline {
                    store: final(self).timelines@[j].store,
                    ..old(self).timelines@[j]
                }) && final(self).timelines@[j].store@.meta == old(
                    self,
                ).timelines@[j].store@.meta && crate::timeline::data_shape_preserved(
                    old(self).timelines@[j],
                    final(self).timelines@[j],
                ),
            forall|i: int, rel2: RelishTag, blk2: u32, bound: int|
                0 <= i < old(self).timelines@.len() ==> crate::redo::chain_pres(
                    *redo,
                    #[trigger] tl_chain(old(self).timelines@, i, rel2, blk2, bound),
                    tl_chain(final(self).timelines@, i, rel2, blk2, bound),
                ),
            !checkpoint_before_gc ==> *final(self) == *old(self),
            r matches Ok(g) ==> g == (GcResult {
                versions_examined: 0,
                versions_removed: 0,
                elapsed_micros: 0,
            }),
            r is Ok <==> (forall|i: int|
                0 <= i < old(self).timelines@.len() && #[trigger] gc_eligible(
                    old(self).timelines@,
                    i,
                    target_timelineid,
                    horizon,
                ) ==> (!checkpoint_before_gc || crate::timeline::materialize_ok(
                    *redo,
                    old(self).timelines@[i].store@.data,
                    0,
                ))),
    {
        let mut totals = GcResult::default();
        let n = self.timelines.len();
        let mut i: usize = 0;
        proof {
            assert forall|ii: int, rel2: RelishTag, blk2: u32, bound: int|
                0 <= ii < old(self).timelines@.len() implies crate::redo::chain_pres(
                *redo,
                #[trigger] tl_chain(old(self).timelines@, ii, rel2, blk2, bound),
                tl_chain(self.timelines@, ii, rel2, blk2, bound),
            ) by {
                crate::redo::lemma_chain_pres_refl(
                    *redo,
                    tl_chain(old(self).timelines@, ii, rel2, blk2, bound),
                );
            }
        }
        while i < n
            invariant
                self.wf(),
                old(self).wf(),
                n == old(self).timelines@.len(),
                self.timelines@.len() == n,
                i <= n,
                self.tenant_id == old(self).tenant_id,
                totals == (GcResult { versions_examined: 0, versions_removed: 0, elapsed_micros: 0 }),
                forall|j: int|
                    0 <= j < n ==> #[trigger] self.timelines@[j] == (BufferedTimeline {
                        store: self.timelines@[j].store,
                        ..old(self).timelines@[j]
                    }) && self.timelines@[j].store@.meta == old(self).timelines@[j].store@.meta
                        && crate::timeline::data_shape_preserved(
                        old(self).timelines@[j],
                        self.timelines@[j],
                    ),
                forall|j: int| i <= j < n ==> #[trigger] self.timelines@[j] == old(self).timelines@[j],
                forall|ii: int, rel2: RelishTag, blk2: u32, bound: int|
                    0 <= ii < n ==> crate::redo::chain_pres(
                        *redo,
                        #[trigger] tl_chain(old(self).timelines@, ii, rel2, blk2, bound),
                        tl_chain(self.timelines@, ii, rel2, blk2, bound),
                    ),
                !checkpoint_before_gc ==> *self == *old(self),
                forall|j: int|
                    0 <= j < i && #[trigger] gc_eligible(
                        old(self).timelines@,
                        j,
                        target_timelineid,
                        horizon,
                    ) ==> (!checkpoint_before_gc || crate::timeline::materialize_ok(
                        *redo,
                        old(self).timelines@[j].store@.data,
                        0,
                    )),
            decreases n - i,
        {
            let in_target = match &target_timelineid {
                None => true,
                Some(t) => self.timelines[i].timeline_id == *t,
            };
            let cutoff_opt = self.timelines[i].last_record_lsn.checked_sub(horizon);
            let eligible = in_target && cutoff_opt.is_some();
            proof {
                assert(self.timelines@[i as int] == old(self).timelines@[i as int]);
                assert(eligible == gc_eligible(
                    old(self).timelines@,
                    i as int,
                    target_timelineid,
                    horizon,
                ));
            }
            if eligible {
                let cutoff = match cutoff_opt {
                    Some(c) => c,
                    None => Lsn(0),
                };
                if checkpoint_before_gc {
                    let ghost mid = self.timelines@;
                    let cr = self.timelines[i].checkpoint_internal(redo, 0, true);
                    proof {
                        lemma_update_wf(mid, self.timelines@, i as int);
                        assert forall|ii: int, rel2: RelishTag, blk2: u32, bound: int|
                            0 <= ii < n implies crate::redo::chain_pres(
                            *redo,
                            #[trigger] tl_chain(old(self).timelines@, ii, rel2, blk2, bound),
                            tl_chain(self.timelines@, ii, rel2, blk2, bound),
                        ) by {
                            crate::laws::lemma_checkpoint_reads_preserved(
                                *redo,
                                mid,
                                self.timelines@,
                                i as int,
                                ii,
                                rel2,
                                blk2,
                                bound,
                            );
                            crate::redo::lemma_chain_pres_trans(
                                *redo,
                                tl_chain(old(self).timelines@, ii, rel2, blk2, bound),
                                tl_chain(mid, ii, rel2, blk2, bound),
                                tl_chain(self.timelines@, ii, rel2, blk2, bound),
                            );
                        }
                    }
                    match cr {
                        Ok(()) => {
                        },
                        Err(e) => {
                            proof {
                                assert(!crate::timeline::materialize_ok(
                                    *redo,
                                    old(self).timelines@[i as int].store@.data,
                                    0,
                                ));
                            }
                            return Err(e);
                        },
                    }
                }
                let mut branchpoints: Vec<Lsn> = Vec::new();
                let mut j: usize = 0;
                while j < n
                    invariant
                        n == self.timelines@.len(),
                        j <= n,
                    decreases n - j,
                {
                    match &self.timelines[j].ancestor {
                        Some(a) => {
                            if a.idx == i {
                                branchpoints.push(a.lsn);
                            }
                        },
                        None => {
                        },
                    }
                    j = j + 1;
                }
                let res = match self.timelines[i].gc_timeline(&branchpoints, cutoff) {
                    Ok(g) => g,
                    Err(e) => {
                        return vstd::pervasive::unreached();
                    },
                };
                totals.accumulate(&res);
            }
            i = i + 1;
        }
        Ok(totals)
    }

    /// The LSN timeline `tid`'s history starts at: the branch point at
    /// the root of its ancestor chain, zero for a root timeline.
    pub fn get_start_lsn(&self, tid: u128) -> (r: Result<Lsn, RepoError>)
        requires
            self.wf(),
        ensures
            !has_tl(self.timelines@, tid) ==> r == Err::<Lsn, RepoError>(RepoError::NotFound),
            forall|k: int|
                0 <= k < self.timelines@.len() && (#[trigger] self.timelines@[k]).timeline_id
                    == tid ==> r == Ok::<Lsn, RepoError>(Lsn(tl_start(self.timelines@, k))),
    {
        let idx = match self.timeline_index(tid) {
            Some(k) => k,
            None => {
                return Err(RepoError::NotFound);
            },
        };
        Ok(self.start_query(idx))
    }

    /// Walk the ancestor chain down to its root.
    fn start_query(&self, idx: usize) -> (r: Lsn)
        requires
            self.wf(),
            idx < self.timelines@.len(),
        ensures
            r.0 == tl_start(self.timelines@, idx as int),
        decreases idx,
    {
        match &self.timelines[idx].ancestor {
            None => Lsn(0),
            Some(a) => self.start_query(a.idx),
        }
    }

    /// The logical size in bytes of timeline `tid` at `lsn`: one page
    /// per block of every relation fork of tablespace and database zero
    /// and of every SLRU segment that exists at `lsn`.
    pub fn get_current_logical_size_non_incremental(&self, tid: u128, lsn: Lsn) -> (r: Result<
        u64,
        RepoError,
    >)
        requires
            self.wf(),
        ensures
            !has_tl(self.timelines@, tid) ==> r == Err::<u64, RepoError>(RepoError::NotFound),
            forall|k: int|
                0 <= k < self.timelines@.len() && (#[trigger] self.timelines@[k]).timeline_id
                    == tid ==> r == Ok::<u64, RepoError>(logical_size_spec(self.timelines@, k, lsn)),
    {
        let idx = match self.timeline_index(tid) {
            Some(k) => k,
            None => {
                return Err(RepoError::NotFound);
            },
        };
        let ghost tls = self.timelines@;
        let f_rels = RelishFilter::InDb { spcnode: 0, dbnode: 0 };
        let rels = self.timelines[idx].store.list_relishes(&f_rels, lsn);
        let f_non = RelishFilter::NonRel;
        let nonrels = self.timelines[idx].store.list_relishes(&f_non, lsn);
        let mut blocks: u128 = 0;
        let mut m: usize = 0;
        proof {
            assert(rels@.take(0) =~= Seq::<RelishTag>::empty());
        }
        while m < rels.len()
            invariant
                self.wf(),
                tls == self.timelines@,
                idx < tls.len(),
                m <= rels@.len(),
                blocks as int == sum_rel_blocks(tls, idx as int, rels@.take(m as int), lsn.0 as int),
            decreases rels@.len() - m,
        {
            proof {
                assert(rels@.take(m + 1).drop_last() =~= rels@.take(m as int));
                assert(rels@.take(m + 1).last() == rels@[m as int]);
                lemma_sum_bounds(tls, idx as int, rels@.take(m as int), lsn.0 as int);
                assert((m as int) * (u32::MAX as int) < (0x10000000000000000 as int) * (
                0x100000000 as int)) by (nonlinear_arith)
                    requires
                        0 <= m as int <= 0xFFFFFFFFFFFFFFFF as int,
                ;
            }
            let sz: u32 = match self.size_query(idx, &rels[m], lsn) {
                Some(s) => s,
                None => 0,
            };
            blocks = blocks + sz as u128;
            m = m + 1;
        }
        proof {
            assert(rels@.take(rels@.len() as int) =~= rels@);
        }
        let mut slru_blocks: u128 = 0;
        let mut q: usize = 0;
        proof {
            assert(nonrels@.take(0) =~= Seq::<RelishTag>::empty());
        }
        while q < nonrels.len()
            invariant
                self.wf(),
                tls == self.timelines@,
                idx < tls.len(),
                q <= nonrels@.len(),
                slru_blocks as int == sum_slru_blocks(
                    tls,
                    idx as int,
                    nonrels@.take(q as int),
                    lsn.0 as int,
                ),
            decreases nonrels@.len() - q,
        {
            proof {
                assert(nonrels@.take(q + 1).drop_last() =~= nonrels@.take(q as int));
                assert(nonrels@.take(q + 1).last() == nonrels@[q as int]);
                lemma_sum_bounds(tls, idx as int, nonrels@.take(q as int), lsn.0 as int);
                assert((q as int) * (u32::MAX as int) < (0x10000000000000000 as int) * (
                0x100000000 as int)) by (nonlinear_arith)
                    requires
                        0 <= q as int <= 0xFFFFFFFFFFFFFFFF as int,
                ;
            }
            let is_slru = match &nonrels[q] {
                RelishTag::Slru { .. } => true,
                _ => false,
            };
            if is_slru {
                let sz: u32 = match self.size_query(idx, &nonrels[q], lsn) {
                    Some(s) => s,
                    None => 0,
                };
                slru_blocks = slru_blocks + sz as u128;
            }
            q = q + 1;
        }
        proof {
            assert(nonrels@.take(nonrels@.len() as int) =~= nonrels@);
            lemma_sum_bounds(tls, idx as int, rels@, lsn.0 as int);
            lemma_sum_bounds(tls, idx as int, nonrels@, lsn.0 as int);
            assert((rels@.len() as int) * (u32::MAX as int) < (0x10000000000000000 as int) * (
            0x100000000 as int)) by (nonlinear_arith)
                requires
                    0 <= rels@.len() as int <= 0xFFFFFFFFFFFFFFFF as int,
            ;
            assert((nonrels@.len() as int) * (u32::MAX as int) < (0x10000000000000000 as int) * (
            0x100000000 as int)) by (nonlinear_arith)
                requires
                    0 <= nonrels@.len() as int <= 0xFFFFFFFFFFFFFFFF as int,
            ;
        }
        let total: u128 = blocks + slru_blocks;
        let bytes: u128 = 8192 * total;
        if bytes > u64::MAX as u128 {
            Ok(u64::MAX)
        } else {
            Ok(bytes as u64)
        }
    }

    /// Initialize the logical-size counter of timeline `tid` from a full
    /// scan at its last-record LSN. Fails when the counter was already
    /// initialized.
    pub fn init_current_logical_size(&mut self, tid: u128) -> (r: Result<(), RepoError>)
        requires
            old(self).wf(),
        ensures
            final(self).wf(),
            final(self).tenant_id == old(self).tenant_id,
            !has_tl(old(self).timelines@, tid) ==> r == Err::<(), RepoError>(RepoError::NotFound)
                && *final(self) == *old(self),
            forall|k: int|
                0 <= k < old(self).timelines@.len() && (#[trigger] old(
                    self,
                ).timelines@[k]).timeline_id == tid ==> ({
                    let pre = old(self).timelines@[k];
                    &&& (pre.current_logical_size != 0 ==> r == Err::<(), RepoError>(
                        RepoError::InvalidRequest,
                    ) && *final(self) == *old(self))
                    &&& (pre.current_logical_size == 0 ==> r is Ok && final(self).timelines@ == old(
                        self,
                    ).timelines@.update(k, (BufferedTimeline {
                        current_logical_size: logical_size_spec(
                            old(self).timelines@,
                            k,
                            pre.last_record_lsn,
                        ),
                        ..pre
                    })))
                }),
    {
        let idx = match self.timeline_index(tid) {
            Some(k) => k,
            None => {
                return Err(RepoError::NotFound);
            },
        };
        if self.timelines[idx].current_logical_size != 0 {
            return Err(RepoError::InvalidRequest);
        }
        let here = self.timelines[idx].last_record_lsn;
        let sz = match self.get_current_logical_size_non_incremental(tid, here) {
            Ok(s) => s,
            Err(_) => {
                return vstd::pervasive::unreached();
            },
        };
        self.timelines[idx].current_logical_size = sz;
        proof {
            assert forall|k: int|
                0 <= k < old(self).timelines@.len() && (#[trigger] old(
                    self,
                ).timelines@[k]).timeline_id == tid implies k == idx by {
                if k < idx {
                    assert(old(self).timelines@[k].timeline_id != old(
                        self,
                    ).timelines@[idx as int].timeline_id);
                }
                if idx < k {
                    assert(old(self).timelines@[idx as int].timeline_id != old(
                        self,
                    ).timelines@[k].timeline_id);
                }
            }
            lemma_update_wf(old(self).timelines@, self.timelines@, idx as int);
        }
        Ok(())
    }

    /// Flush every timeline before shutdown: force-materialize all delta
    /// chains so the stores hold only work that is safe to reload. No
    /// page reconstruction result changes.
    pub fn shutdown<R: RedoManager>(&mut self, redo: &R) -> (r: Result<(), RepoError>)
        requires
            old(self).wf(),
        ensures
            final(self).wf(),
            final(self).tenant_id == old(self).tenant_id,
            final(self).timelines@.len() == old(self).timelines@.len(),
            forall|j: int|
                0 <= j < old(self).timelines@.len() ==> #[trigger] final(self).timelines@[j] == (
                BufferedTimeline {
                    store: final(self).timelines@[j].store,
                    ..old(self).timelines@[j]
                }) && final(self).timelines@[j].store@.meta == old(
                    self,
                ).timelines@[j].store@.meta && crate::timeline::data_shape_preserved(
                    old(self).timelines@[j],
                    final(self).timelines@[j],
                ),
            forall|i: int, rel2: RelishTag, blk2: u32, bound: int|
                0 <= i < old(self).timelines@.len() ==> crate::redo::chain_pres(
                    *redo,
                    #[trigger] tl_chain(old(self).timelines@, i, rel2, blk2, bound),
                    tl_chain(final(self).timelines@, i, rel2, blk2, bound),
                ),
            r is Ok <==> (forall|i: int|
                0 <= i < old(self).timelines@.len() ==> crate::timeline::materialize_ok(
                    *redo,
                    #[trigger] old(self).timelines@[i].store@.data,
                    0,
                )),
    {
        let n = self.timelines.len();
        let mut i: usize = 0;
        proof {
            assert forall|ii: int, rel2: RelishTag, blk2: u32, bound: int|
                0 <= ii < old(self).timelines@.len() implies crate::redo::chain_pres(
                *redo,
                #[trigger] tl_chain(old(self).timelines@, ii, rel2, blk2, bound),
                tl_chain(self.timelines@, ii, rel2, blk2, bound),
            ) by {
                crate::redo::lemma_chain_pres_refl(
                    *redo,
                    tl_chain(old(self).timelines@, ii, rel2, blk2, bound),
                );
            }
        }
        while i < n
            invariant
                self.wf(),
                old(self).wf(),
                n == old(self).timelines@.len(),
                self.timelines@.len() == n,
                i <= n,
                self.tenant_id == old(self).tenant_id,
                forall|j: int|
                    0 <= j < n ==> #[trigger] self.timelines@[j] == (BufferedTimeline {
                        store: self.timelines@[j].store,
                        ..old(self).timelines@[j]
                    }) && self.timelines@[j].store@.meta == old(self).timelines@[j].store@.meta
                        && crate::timeline::data_shape_preserved(
                        old(self).timelines@[j],
                        self.timelines@[j],
                    ),
                forall|j: int| i <= j < n ==> #[trigger] self.timelines@[j] == old(self).timelines@[j],
                forall|ii: int, rel2: RelishTag, blk2: u32, bound: int|
                    0 <= ii < n ==> crate::redo::chain_pres(
                        *redo,
                        #[trigger] tl_chain(old(self).timelines@, ii, rel2, blk2, bound),
                        tl_chain(self.timelines@, ii, rel2, blk2, bound),
                    ),
                forall|j: int|
                    0 <= j < i ==> crate::timeline::materialize_ok(
                        *redo,
                        #[trigger] old(self).timelines@[j].store@.data,
                        0,
                    ),
            decreases n - i,
        {
            let ghost mid = self.timelines@;
            let cr = self.timelines[i].checkpoint_internal(redo, 0, true);
            proof {
                lemma_update_wf(mid, self.timelines@, i as int);
                assert forall|ii: int, rel2: RelishTag, blk2: u32, bound: int|
                    0 <= ii < n implies crate::redo::chain_pres(
                    *redo,
                    #[trigger] tl_chain(old(self).timelines@, ii, rel2, blk2, bound),
                    tl_chain(self.timelines@, ii, rel2, blk2, bound),
                ) by {
                    crate::laws::lemma_checkpoint_reads_preserved(
                        *redo,
                        mid,
                        self.timelines@,
                        i as int,
                        ii,
                        rel2,
                        blk2,
                        bound,
                    );
                    crate::redo::lemma_chain_pres_trans(
                        *redo,
                        tl_chain(old(self).timelines@, ii, rel2, blk2, bound),
                        tl_chain(mid, ii, rel2, blk2, bound),
                        tl_chain(self.timelines@, ii, rel2, blk2, bound),
                    );
                }
            }
            match cr {
                Ok(()) => {
                },
                Err(e) => {
                    proof {
                        assert(!crate::timeline::materialize_ok(
                            *redo,
                            old(self).timelines@[i as int].store@.data,
                            0,
                        ));
                    }
                    return Err(e);
                },
            }
            i = i + 1;
        }
        Ok(())
    }

    /// Collect the reconstruction chain of page `(rel, blknum)` seen
    /// from timeline `idx` at `bound`, following ancestors.
    fn collect_chain(&self, idx: usize, rel: &RelishTag, blknum: u32, bound: Lsn) -> (r: LocalChain)
        requires
            self.wf(),
            idx < self.timelines@.len(),
        ensures
            r.abs() == tl_chain(self.timelines@, idx as int, *rel, blknum, bound.0 as int),
        decreases idx,
    {
        let tl = &self.timelines[idx];
        let local = tl.store.collect_local_chain(rel, blknum, bound);
        let ghost lchain = chain_of(
            page_hist(self.timelines@[idx as int].store@.data, *rel, blknum, bound.0 as int),
        );
        match &tl.ancestor {
            None => local,
            Some(a) => {
                if local.is_complete() {
                    local
                } else {
                    let clamped = if bound.0 <= a.lsn.0 {
                        bound
                    } else {
                        a.lsn
                    };
                    let mut up = self.collect_chain(a.idx, rel, blknum, clamped);
                    let ghost upchain = up.abs();
                    let mut lrecs = local.recs;
                    up.recs.append(&mut lrecs);
                    proof {
                        assert(up.recs@.map(|i: int, c: crate::store::ChainRec| c@) =~= upchain.recs
                            + lchain.recs);
                    }
                    let out = LocalChain { base: up.base, recs: up.recs };
                    proof {
                        assert(out.abs() == tl_chain(
                            self.timelines@,
                            idx as int,
                            *rel,
                            blknum,
                            bound.0 as int,
                        ));
                    }
                    out
                }
            },
        }
    }
}

} // verus!
