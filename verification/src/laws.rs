//! Laws of the repository, stated over the same spec functions its
//! operation contracts use.

use vstd::prelude::*;

use crate::redo::RedoManager;
use crate::relish::RelishTag;
use crate::repository::{page_read_matches, repo_wf, tl_chain, tl_size};
use crate::store::{
    chain_of, data_insert, data_sorted, lemma_hist_congruence, lemma_insert_top,
    lemma_meta_congruence, lemma_meta_insert_frame, lemma_meta_insert_top, meta_hist, meta_insert,
    meta_sorted, meta_visible, page_hist, size_at, store_wf, Chain, DataEntryView, MetaEntryView,
    PageVersionView,
};
use crate::error::RepoError;
use crate::lsn::Lsn;
use crate::timeline::{cur_size, put_effect, BufferedTimeline};

verus! {

/// Read-after-write: storing a full page image under `(rel, blknum,
/// lsn)` makes the reconstruction chain seen from that timeline at `lsn`
/// exactly the image with nothing to replay, whatever the store held
/// before and whether or not the timeline has an ancestor; any result
/// meeting the page-read contract is then the image, bit for bit.
pub proof fn lemma_read_after_write<R: RedoManager>(
    redo: R,
    tls: Seq<BufferedTimeline>,
    k: int,
    rel: RelishTag,
    blknum: u32,
    lsn: u64,
    img: Seq<u8>,
    old_data: Seq<DataEntryView>,
    r: Result<Vec<u8>, RepoError>,
)
    requires
        data_sorted(old_data),
        0 <= k < tls.len(),
        tls[k].store@.data == data_insert(
            old_data,
            (DataEntryView { rel, blknum, lsn, val: PageVersionView::Image(img) }),
        ),
        rel.spec_is_blocky() || blknum == 0,
        page_read_matches(redo, tl_chain(tls, k, rel, blknum, lsn as int), rel, blknum, r),
    ensures
        tl_chain(tls, k, rel, blknum, lsn as int) == (Chain {
            base: Some(img),
            recs: Seq::<(u64, crate::store::WalRecordView)>::empty(),
        }),
        r matches Ok(v) && v@ == img,
{
    let e = DataEntryView { rel, blknum, lsn, val: PageVersionView::Image(img) };
    lemma_insert_top(old_data, e, rel, blknum, lsn as int);
    let h = page_hist(tls[k].store@.data, rel, blknum, lsn as int);
    assert(h == page_hist(old_data, rel, blknum, lsn - 1).push(e));
    assert(h.last() == e);
    let c = chain_of(h);
    assert(c == Chain { base: Some(img), recs: Seq::<(u64, crate::store::WalRecordView)>::empty() });
    assert(tl_chain(tls, k, rel, blknum, lsn as int) == c);
    redo.redo_base_law(img);
}

/// Reverse visibility: when no version of the page was stored in
/// `(li, l]`, a read at `l` reconstructs from exactly the chain that a
/// read at `li` does — the chain terminating at the newest write at or
/// below `li`.
pub proof fn lemma_reverse_visibility(
    data: Seq<DataEntryView>,
    rel: RelishTag,
    blknum: u32,
    li: u64,
    l: u64,
)
    requires
        data_sorted(data),
        li <= l,
        forall|j: int|
            0 <= j < data.len() && (#[trigger] data[j]).rel == rel && data[j].blknum == blknum
                ==> !(li < data[j].lsn <= l),
    ensures
        page_hist(data, rel, blknum, l as int) == page_hist(data, rel, blknum, li as int),
        chain_of(page_hist(data, rel, blknum, l as int)) == chain_of(
            page_hist(data, rel, blknum, li as int),
        ),
{
    assert forall|j: int|
        0 <= j < data.len() && data[j].rel == rel && data[j].blknum == blknum implies ((
    #[trigger] data[j].lsn <= l as int) <==> (data[j].lsn <= li as int)) by {
    }
    lemma_hist_congruence(data, rel, blknum, l as int, li as int);
}

/// Tombstone: once the entity is dropped at `lsn_d`, and no metadata row
/// of it lies above `lsn_d`, every size query from `lsn_d` onward sees
/// the tombstone — the entity does not exist — while queries strictly
/// below `lsn_d` see exactly what they saw before the drop.
pub proof fn lemma_tombstone(meta: Seq<MetaEntryView>, rel: RelishTag, lsn_d: u64, l: u64)
    requires
        meta_sorted(meta),
        lsn_d <= l,
        forall|j: int| 0 <= j < meta.len() && (#[trigger] meta[j]).rel == rel ==> meta[j].lsn <= lsn_d,
    ensures
        size_at(
            meta_insert(meta, (MetaEntryView { rel, lsn: lsn_d, size: None })),
            rel,
            l as int,
        ) == Some(None::<u32>),
        forall|l2: int|
            l2 < lsn_d ==> size_at(
                meta_insert(meta, (MetaEntryView { rel, lsn: lsn_d, size: None })),
                rel,
                l2,
            ) == size_at(meta, rel, l2),
{
    let e = MetaEntryView { rel, lsn: lsn_d, size: None };
    lemma_meta_insert_top(meta, e, rel, l as int);
    let h = meta_hist(meta_insert(meta, e), rel, l as int);
    assert(h == meta_hist(meta, rel, lsn_d - 1).push(e));
    assert(h.last() == e);
    assert forall|l2: int|
        l2 < lsn_d implies size_at(meta_insert(meta, e), rel, l2) == size_at(meta, rel, l2) by {
        assert(!meta_visible(e, rel, l2));
        lemma_meta_insert_frame(meta, e, rel, l2);
    }
}

/// Branch inheritance, page reads: a query on a branched timeline at or
/// below its branch point that matches no page version stored on the
/// timeline itself reconstructs from exactly the parent's chain at the
/// same LSN.
pub proof fn lemma_branch_inheritance_page(
    tls: Seq<BufferedTimeline>,
    c: int,
    rel: RelishTag,
    blknum: u32,
    l: u64,
)
    requires
        repo_wf(tls),
        0 <= c < tls.len(),
        tls[c].ancestor is Some,
        l <= tls[c].ancestor->Some_0.lsn.0,
        page_hist(tls[c].store@.data, rel, blknum, l as int).len() == 0,
    ensures
        tl_chain(tls, c, rel, blknum, l as int) == tl_chain(
            tls,
            tls[c].ancestor->Some_0.idx as int,
            rel,
            blknum,
            l as int,
        ),
{
    let a = tls[c].ancestor->Some_0;
    let local = chain_of(page_hist(tls[c].store@.data, rel, blknum, l as int));
    assert(local == Chain {
        base: None::<Seq<u8>>,
        recs: Seq::<(u64, crate::store::WalRecordView)>::empty(),
    });
    assert(!crate::store::chain_complete(local));
    assert(vstd::math::min(l as int, a.lsn.0 as int) == l as int);
    let up = tl_chain(tls, a.idx as int, rel, blknum, l as int);
    assert(up.recs + local.recs =~= up.recs);
    assert(tl_chain(tls, c, rel, blknum, l as int) =~= up);
}

/// Branch inheritance, size queries: a size query on a branched timeline
/// at or below its branch point that matches no metadata row stored on
/// the timeline itself returns exactly the parent's answer at the same
/// LSN.
pub proof fn lemma_branch_inheritance_size(
    tls: Seq<BufferedTimeline>,
    c: int,
    rel: RelishTag,
    l: u64,
)
    requires
        repo_wf(tls),
        0 <= c < tls.len(),
        tls[c].ancestor is Some,
        l <= tls[c].ancestor->Some_0.lsn.0,
        meta_hist(tls[c].store@.meta, rel, l as int).len() == 0,
    ensures
        tl_size(tls, c, rel, l as int) == tl_size(
            tls,
            tls[c].ancestor->Some_0.idx as int,
            rel,
            l as int,
        ),
{
    let a = tls[c].ancestor->Some_0;
    assert(size_at(tls[c].store@.meta, rel, l as int) is None);
    assert(vstd::math::min(l as int, a.lsn.0 as int) == l as int);
}

/// Checkpoint transparency: when one timeline's store is rewritten so
/// that every local reconstruction chain is preserved in the sense of
/// [`crate::redo::chain_pres`], and nothing else changes, then every
/// page read of every timeline — through any chain of ancestors — is
/// preserved in the same sense: it reconstructs the same page, stays
/// absent, or stays failing. Two such rewrites in a row compose by
/// [`crate::redo::lemma_chain_pres_trans`], which is the idempotence of
/// the checkpoint as readers observe it.
pub proof fn lemma_checkpoint_reads_preserved<R: RedoManager>(
    redo: R,
    pre: Seq<BufferedTimeline>,
    post: Seq<BufferedTimeline>,
    t: int,
    i: int,
    rel: RelishTag,
    blknum: u32,
    bound: int,
)
    requires
        repo_wf(pre),
        0 <= t < pre.len(),
        post.len() == pre.len(),
        forall|j: int| 0 <= j < pre.len() && j != t ==> #[trigger] post[j] == pre[j],
        post[t].ancestor == pre[t].ancestor,
        forall|rel2: RelishTag, blk2: u32, bd: int|
            crate::redo::chain_pres(
                redo,
                chain_of(#[trigger] page_hist(pre[t].store@.data, rel2, blk2, bd)),
                chain_of(page_hist(post[t].store@.data, rel2, blk2, bd)),
            ),
        0 <= i < pre.len(),
    ensures
        crate::redo::chain_pres(
            redo,
            tl_chain(pre, i, rel, blknum, bound),
            tl_chain(post, i, rel, blknum, bound),
        ),
    decreases i,
{
    let lc_pre = chain_of(page_hist(pre[i].store@.data, rel, blknum, bound));
    let lc_post = chain_of(page_hist(post[i].store@.data, rel, blknum, bound));
    if i == t {
        assert(crate::redo::chain_pres(redo, lc_pre, lc_post));
    } else {
        assert(post[i] == pre[i]);
        crate::redo::lemma_chain_pres_refl(redo, lc_pre);
    }
    assert(post[i].ancestor == pre[i].ancestor);
    match pre[i].ancestor {
        None => {
        },
        Some(a) => {
            if crate::store::chain_complete(lc_pre) {
                if !redo.redo_ok(lc_pre.base, lc_pre.recs) {
                    assert(crate::store::chain_complete(lc_post));
                    assert(tl_chain(post, i, rel, blknum, bound) == lc_post);
                } else {
                    assert(crate::store::chain_complete(lc_post));
                    assert(tl_chain(post, i, rel, blknum, bound) == lc_post);
                }
            } else {
                assert(lc_post == lc_pre);
                if 0 <= a.idx < i {
                    let cb = vstd::math::min(bound, a.lsn.0 as int);
                    let up_pre = tl_chain(pre, a.idx as int, rel, blknum, cb);
                    let up_post = tl_chain(post, a.idx as int, rel, blknum, cb);
                    lemma_checkpoint_reads_preserved(
                        redo,
                        pre,
                        post,
                        t,
                        a.idx as int,
                        rel,
                        blknum,
                        cb,
                    );
                    let comb_pre = Chain { base: up_pre.base, recs: up_pre.recs + lc_pre.recs };
                    let comb_post = Chain { base: up_post.base, recs: up_post.recs + lc_post.recs };
                    assert(tl_chain(pre, i, rel, blknum, bound) == comb_pre);
                    assert(tl_chain(post, i, rel, blknum, bound) == comb_post);
                    if !crate::store::chain_complete(up_pre) {
                        assert(up_post == up_pre);
                        crate::redo::lemma_chain_pres_refl(redo, comb_pre);
                    } else {
                        if up_pre.recs.len() > 0 {
                            assert((up_pre.recs + lc_pre.recs)[0] == up_pre.recs[0]);
                        }
                        assert(crate::store::chain_complete(comb_pre));
                        if up_post.recs.len() > 0 {
                            assert((up_post.recs + lc_post.recs)[0] == up_post.recs[0]);
                        }
                        assert(crate::store::chain_complete(comb_post));
                        if !redo.redo_ok(up_pre.base, up_pre.recs) {
                            redo.redo_prefix_law(up_pre.base, up_pre.recs, lc_pre.recs);
                            redo.redo_prefix_law(up_post.base, up_post.recs, lc_post.recs);
                            assert(!redo.redo_ok(comb_pre.base, comb_pre.recs));
                            assert(!redo.redo_ok(comb_post.base, comb_post.recs));
                        } else {
                            redo.redo_compose_law(up_pre.base, up_pre.recs, lc_pre.recs);
                            redo.redo_compose_law(up_post.base, up_post.recs, lc_post.recs);
                            assert(redo.redo_ok(comb_pre.base, comb_pre.recs) == redo.redo_ok(
                                Some(redo.redo_spec(up_pre.base, up_pre.recs)),
                                lc_pre.recs,
                            ));
                            assert(redo.redo_ok(comb_post.base, comb_post.recs) == redo.redo_ok(
                                Some(redo.redo_spec(up_post.base, up_post.recs)),
                                lc_post.recs,
                            ));
                            assert(redo.redo_spec(up_post.base, up_post.recs) == redo.redo_spec(
                                up_pre.base,
                                up_pre.recs,
                            ));
                        }
                    }
                }
            }
        },
    }
}

/// Size growth under a write: storing a version of block `blknum` at
/// `lsn`, with every earlier metadata row of the entity at or below
/// `lsn`, leaves the entity's size at `lsn` defined and at least
/// `blknum + 1`.
pub proof fn lemma_size_after_put(
    pre: BufferedTimeline,
    post: BufferedTimeline,
    rel: RelishTag,
    blknum: u32,
    lsn: Lsn,
    val: PageVersionView,
)
    requires
        store_wf(pre.store@),
        blknum < u32::MAX,
        put_effect(pre, post, rel, blknum, lsn, val),
        forall|j: int|
            0 <= j < pre.store@.meta.len() && (#[trigger] pre.store@.meta[j]).rel == rel
                ==> pre.store@.meta[j].lsn <= lsn.0,
    ensures
        size_at(post.store@.meta, rel, lsn.0 as int) matches Some(Some(s)) && s >= blknum + 1,
{
    let meta = pre.store@.meta;
    if cur_size(meta, rel) <= blknum {
        let e = MetaEntryView { rel, lsn: lsn.0, size: Some((blknum + 1) as u32) };
        lemma_meta_insert_top(meta, e, rel, lsn.0 as int);
        let h = meta_hist(post.store@.meta, rel, lsn.0 as int);
        assert(h == meta_hist(meta, rel, lsn.0 - 1).push(e));
        assert(h.last() == e);
    } else {
        assert(post.store@.meta == meta);
        let cur = cur_size(meta, rel);
        assert(cur > blknum);
        assert(size_at(meta, rel, u64::MAX as int) == Some(Some(cur)));
        assert forall|j: int|
            0 <= j < meta.len() && meta[j].rel == rel implies ((#[trigger] meta[j].lsn
            <= u64::MAX as int) <==> (meta[j].lsn <= lsn.0 as int)) by {
        }
        lemma_meta_congruence(meta, rel, u64::MAX as int, lsn.0 as int);
        assert(size_at(meta, rel, lsn.0 as int) == Some(Some(cur)));
    }
}

} // verus!
