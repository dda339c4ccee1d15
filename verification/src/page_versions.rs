//! The in-memory page-version map of one open layer: for each block, the
//! versions received so far in LSN order.
//!
//! Versions arrive in WAL order, so each block's history only ever grows
//! at its end; an arrival at the last LSN replaces the last version.

use vstd::prelude::*;

use crate::lsn::Lsn;
use crate::store::{copy_bytes, WalRecord, WalRecordView};

verus! {

/// One version of a page in an open layer: a full image, a record to
/// apply, or both.
#[derive(Debug)]
pub struct PageVersion {
    pub page_image: Option<Vec<u8>>,
    pub record: Option<WalRecord>,
}

/// Mathematical image of a [`PageVersion`].
pub struct PageVersionView {
    pub page_image: Option<Seq<u8>>,
    pub record: Option<WalRecordView>,
}

impl View for PageVersion {
    type V = PageVersionView;

    open spec fn view(&self) -> PageVersionView {
        PageVersionView {
            page_image: match self.page_image {
                Some(ref v) => Some(v@),
                None => None,
            },
            record: match self.record {
                Some(ref r) => Some(r@),
                None => None,
            },
        }
    }
}

impl PageVersion {
    /// An identical copy of this version.
    pub fn duplicate(&self) -> (r: PageVersion)
        ensures
            r@ == self@,
    {
        PageVersion {
            page_image: match &self.page_image {
                Some(v) => Some(copy_bytes(v)),
                None => None,
            },
            record: match &self.record {
                Some(r) => Some(r.duplicate()),
                None => None,
            },
        }
    }
}

/// An LSN-ordered vector map from LSN to page version.
#[derive(Debug)]
pub struct VecMap {
    pub entries: Vec<(Lsn, PageVersion)>,
}

impl View for VecMap {
    type V = Seq<(u64, PageVersionView)>;

    open spec fn view(&self) -> Seq<(u64, PageVersionView)> {
        self.entries@.map(|i: int, p: (Lsn, PageVersion)| (p.0.0, p.1@))
    }
}

/// A vector map's keys ascend strictly.
pub open spec fn vm_wf(es: Seq<(u64, PageVersionView)>) -> bool {
    forall|i: int, j: int| 0 <= i < j < es.len() ==> (#[trigger] es[i]).0 < (#[trigger] es[j]).0
}

impl VecMap {
    /// The `(lsn, version)` pairs in LSN order.
    pub fn as_slice(&self) -> (r: &Vec<(Lsn, PageVersion)>)
        ensures
            r == &self.entries,
    {
        &self.entries
    }
}

/// Append at the end of a history, replacing the last entry when the
/// LSN is the same.
pub open spec fn vm_append(
    es: Seq<(u64, PageVersionView)>,
    lsn: u64,
    v: PageVersionView,
) -> Seq<(u64, PageVersionView)> {
    if es.len() > 0 && es.last().0 == lsn {
        es.update(es.len() - 1, (lsn, v))
    } else {
        es.push((lsn, v))
    }
}

/// Per-block page version histories, keyed by block number.
#[derive(Debug)]
pub struct PageVersions {
    pub blocks: Vec<(u32, VecMap)>,
}

impl View for PageVersions {
    type V = Seq<(u32, Seq<(u64, PageVersionView)>)>;

    open spec fn view(&self) -> Seq<(u32, Seq<(u64, PageVersionView)>)> {
        self.blocks@.map(|i: int, b: (u32, VecMap)| (b.0, b.1@))
    }
}

/// The map is well-formed: block numbers ascend strictly and every
/// history's LSNs ascend strictly.
pub open spec fn pv_wf(bs: Seq<(u32, Seq<(u64, PageVersionView)>)>) -> bool {
    &&& forall|i: int, j: int|
        0 <= i < j < bs.len() ==> (#[trigger] bs[i]).0 < (#[trigger] bs[j]).0
    &&& forall|i: int| 0 <= i < bs.len() ==> vm_wf((#[trigger] bs[i]).1)
}

/// Insert a version into the block's history, creating the block in
/// block-number order if it is new.
pub open spec fn pv_append(
    bs: Seq<(u32, Seq<(u64, PageVersionView)>)>,
    blknum: u32,
    lsn: u64,
    v: PageVersionView,
) -> Seq<(u32, Seq<(u64, PageVersionView)>)>
    decreases bs.len(),
{
    if bs.len() == 0 {
        seq![(blknum, seq![(lsn, v)])]
    } else if bs.last().0 < blknum {
        bs.push((blknum, seq![(lsn, v)]))
    } else if bs.last().0 == blknum {
        bs.update(bs.len() - 1, (blknum, vm_append(bs.last().1, lsn, v)))
    } else {
        pv_append(bs.drop_last(), blknum, lsn, v).push(bs.last())
    }
}

/// Whether a version may arrive for this block at this LSN: the block
/// is new, or its history ends at or before the LSN. WAL order
/// guarantees this on the ingest path.
pub open spec fn pv_can_append(
    bs: Seq<(u32, Seq<(u64, PageVersionView)>)>,
    blknum: u32,
    lsn: u64,
) -> bool {
    forall|i: int|
        0 <= i < bs.len() && (#[trigger] bs[i]).0 == blknum ==> (bs[i].1.len() == 0 || bs[i].1.last().0
            <= lsn)
}

/// The replaced version, if the arrival lands on the block's last LSN.
pub open spec fn pv_replaced(
    bs: Seq<(u32, Seq<(u64, PageVersionView)>)>,
    blknum: u32,
    lsn: u64,
) -> Option<PageVersionView> {
    if exists|i: int|
        0 <= i < bs.len() && (#[trigger] bs[i]).0 == blknum && bs[i].1.len() > 0 && bs[i].1.last().0
            == lsn {
        let i = choose|i: int|
            0 <= i < bs.len() && (#[trigger] bs[i]).0 == blknum && bs[i].1.len() > 0
                && bs[i].1.last().0 == lsn;
        Some(bs[i].1.last().1)
    } else {
        None
    }
}

impl PageVersions {
    /// An empty map.
    pub fn new() -> (r: PageVersions)
        ensures
            pv_wf(r@),
            r@.len() == 0,
    {
        let r = PageVersions { blocks: Vec::new() };
        proof {
            assert(r@ =~= Seq::<(u32, Seq<(u64, PageVersionView)>)>::empty());
        }
        r
    }

    /// Whether no block holds any version.
    pub fn is_empty(&self) -> (r: bool)
        ensures
            r == (self@.len() == 0),
    {
        self.blocks.len() == 0
    }

    /// Record a version of `blknum` at `lsn`. The history grows at its
    /// end; an arrival at the block's last LSN replaces that version,
    /// which is returned.
    pub fn append_or_update_last(&mut self, blknum: u32, lsn: Lsn, page_version: PageVersion) -> (r:
        Option<PageVersion>)
        requires
            pv_wf(old(self)@),
            pv_can_append(old(self)@, blknum, lsn.0),
        ensures
            pv_wf(final(self)@),
            final(self)@ == pv_append(old(self)@, blknum, lsn.0, page_version@),
            (match r {
                Some(prev) => pv_replaced(old(self)@, blknum, lsn.0) == Some(prev@),
                None => pv_replaced(old(self)@, blknum, lsn.0) is None,
            }),
    {
        let ghost orig = self@;
        let ghost pvv = page_version@;
        let mut i: usize = self.blocks.len();
        proof {
            assert(orig.take(i as int) =~= orig);
            assert(pv_append(orig, blknum, lsn.0, pvv) + orig.skip(i as int) =~= pv_append(
                orig,
                blknum,
                lsn.0,
                pvv,
            ));
        }
        while i > 0 && blknum < self.blocks[i - 1].0
            invariant
                pv_wf(self@),
                self@ == orig,
                i <= self@.len(),
                pvv == page_version@,
                forall|j: int| i <= j < orig.len() ==> blknum < (#[trigger] orig[j]).0,
                pv_append(orig, blknum, lsn.0, pvv) == pv_append(
                    orig.take(i as int),
                    blknum,
                    lsn.0,
                    pvv,
                ) + orig.skip(i as int),
            decreases i,
        {
            proof {
                let pre = orig.take(i as int);
                assert(pre.last() == orig[i - 1]);
                assert(pre.drop_last() =~= orig.take(i - 1));
                assert(pv_append(orig.take(i - 1), blknum, lsn.0, pvv).push(orig[i - 1]) + orig.skip(
                    i as int,
                ) =~= pv_append(orig.take(i - 1), blknum, lsn.0, pvv) + orig.skip(i - 1));
            }
            i = i - 1;
        }
        if i > 0 && blknum == self.blocks[i - 1].0 {
            let pair = self.blocks.remove(i - 1);
            let b = pair.0;
            let mut entries = pair.1.entries;
            let ghost oldes = orig[i - 1].1;
            proof {
                assert(self.blocks@.len() == orig.len() - 1);
                assert(oldes == pair.1@);
            }
            let nlen = entries.len();
            let mut r: Option<PageVersion> = None;
            if nlen > 0 && entries[nlen - 1].0.0 == lsn.0 {
                let prev = entries.remove(nlen - 1);
                entries.push((lsn, page_version));
                r = Some(prev.1);
                proof {
                    assert(oldes[nlen - 1] == (prev.0.0, prev.1@));
                    assert(oldes.last().1 == prev.1@);
                }
            } else {
                entries.push((lsn, page_version));
            }
            let ghost newes = entries@.map(|q: int, p: (Lsn, PageVersion)| (p.0.0, p.1@));
            self.blocks.insert(i - 1, (b, VecMap { entries }));
            proof {
                assert(newes =~= vm_append(oldes, lsn.0, pvv));
                assert(self@ =~= orig.update(i - 1, (blknum, vm_append(oldes, lsn.0, pvv))));
                let fv = self@;
                assert(pv_append(orig.take(i as int), blknum, lsn.0, pvv) == orig.take(
                    i as int,
                ).update(i - 1, (blknum, vm_append(oldes, lsn.0, pvv))));
                assert(orig.take(i as int).update(i - 1, (blknum, vm_append(oldes, lsn.0, pvv)))
                    + orig.skip(i as int) =~= fv);
                assert forall|p: int, q: int| 0 <= p < q < fv.len() implies (#[trigger] fv[p]).0 < (
                #[trigger] fv[q]).0 by {
                    if p != i - 1 {
                        assert(fv[p] == orig[p]);
                    }
                    if q != i - 1 {
                        assert(fv[q] == orig[q]);
                    }
                }
                assert forall|w: int| 0 <= w < fv.len() implies vm_wf((#[trigger] fv[w]).1) by {
                    if w != i - 1 {
                        assert(fv[w] == orig[w]);
                    } else {
                        assert(fv[w].1 == vm_append(oldes, lsn.0, pvv));
                        assert forall|p: int, q: int|
                            0 <= p < q < fv[w].1.len() implies (#[trigger] fv[w].1[p]).0 < (
                        #[trigger] fv[w].1[q]).0 by {
                            if q < fv[w].1.len() - 1 {
                                assert(fv[w].1[p] == oldes[p] && fv[w].1[q] == oldes[q]);
                            } else {
                                assert(fv[w].1[p] == oldes[p]);
                                assert(oldes[p].0 <= oldes[oldes.len() - 1].0);
                            }
                        }
                    }
                }
                if r is Some {
                    assert(pv_replaced(orig, blknum, lsn.0) == Some(oldes.last().1)) by {
                        assert(0 <= i - 1 < orig.len() && orig[i - 1].0 == blknum && orig[i
                            - 1].1.len() > 0 && orig[i - 1].1.last().0 == lsn.0);
                        let w = choose|w: int|
                            0 <= w < orig.len() && (#[trigger] orig[w]).0 == blknum && orig[w].1.len()
                                > 0 && orig[w].1.last().0 == lsn.0;
                        if w != i - 1 {
                            if w < i - 1 {
                                assert(orig[w].0 < orig[i - 1].0);
                            } else {
                                assert(orig[i - 1].0 < orig[w].0);
                            }
                        }
                    }
                } else {
                    assert(pv_replaced(orig, blknum, lsn.0) is None) by {
                        if exists|w: int|
                            0 <= w < orig.len() && (#[trigger] orig[w]).0 == blknum && orig[w].1.len()
                                > 0 && orig[w].1.last().0 == lsn.0 {
                            let w = choose|w: int|
                                0 <= w < orig.len() && (#[trigger] orig[w]).0 == blknum
                                    && orig[w].1.len() > 0 && orig[w].1.last().0 == lsn.0;
                            if w < i - 1 {
                                assert(orig[w].0 < orig[i - 1].0);
                            } else if w > i - 1 {
                                assert(orig[i - 1].0 < orig[w].0);
                            }
                            assert(false);
                        }
                    }
                }
            }
            r
        } else {
            let vm = VecMap { entries: vec![(lsn, page_version)] };
            proof {
                assert(vm@ =~= seq![(lsn.0, pvv)]);
            }
            self.blocks.insert(i, (blknum, vm));
            proof {
                let pre = orig.take(i as int);
                if i > 0 {
                    assert(pre.last() == orig[i - 1]);
                    assert(orig[i - 1].0 < blknum);
                    assert(pv_append(pre, blknum, lsn.0, pvv) == pre.push(
                        (blknum, seq![(lsn.0, pvv)]),
                    ));
                } else {
                    assert(pre =~= Seq::<(u32, Seq<(u64, PageVersionView)>)>::empty());
                    assert(pv_append(pre, blknum, lsn.0, pvv) =~= pre.push(
                        (blknum, seq![(lsn.0, pvv)]),
                    ));
                }
                let fv = self@;
                assert(fv =~= pre.push((blknum, seq![(lsn.0, pvv)])) + orig.skip(i as int));
                assert(fv =~= orig.insert(i as int, (blknum, seq![(lsn.0, pvv)])));
                assert forall|p: int, q: int| 0 <= p < q < fv.len() implies (#[trigger] fv[p]).0 < (
                #[trigger] fv[q]).0 by {
                    let op = if p < i { p } else { p - 1 };
                    let oq = if q < i { q } else { q - 1 };
                    if p == i {
                        assert(fv[q] == orig[oq]);
                    } else if q == i {
                        assert(fv[p] == orig[op]);
                        if op < i - 1 {
                            assert(orig[op].0 < orig[i - 1].0);
                        }
                    } else {
                        assert(fv[p] == orig[op] && fv[q] == orig[oq]);
                    }
                }
                assert forall|w: int| 0 <= w < fv.len() implies vm_wf((#[trigger] fv[w]).1) by {
                    if w < i {
                        assert(fv[w] == orig[w]);
                    } else if w > i {
                        assert(fv[w] == orig[w - 1]);
                    }
                }
                assert(pv_replaced(orig, blknum, lsn.0) is None) by {
                    if exists|w: int|
                        0 <= w < orig.len() && (#[trigger] orig[w]).0 == blknum && orig[w].1.len() > 0
                            && orig[w].1.last().0 == lsn.0 {
                        let w = choose|w: int|
                            0 <= w < orig.len() && (#[trigger] orig[w]).0 == blknum && orig[w].1.len()
                                > 0 && orig[w].1.last().0 == lsn.0;
                        if w < i {
                            if w < i - 1 {
                                assert(orig[w].0 < orig[i - 1].0);
                            }
                            assert(false);
                        } else {
                            assert(blknum < orig[w].0);
                            assert(false);
                        }
                    }
                }
            }
            None
        }
    }
}

/// The history of one block, or empty when the block is unknown.
pub open spec fn block_entries(
    bs: Seq<(u32, Seq<(u64, PageVersionView)>)>,
    blknum: u32,
) -> Seq<(u64, PageVersionView)>
    decreases bs.len(),
{
    if bs.len() == 0 {
        Seq::empty()
    } else if bs.last().0 == blknum {
        bs.last().1
    } else {
        block_entries(bs.drop_last(), blknum)
    }
}

/// A block's history is read off its row.
pub proof fn lemma_block_entries_at(bs: Seq<(u32, Seq<(u64, PageVersionView)>)>, blknum: u32, i: int)
    requires
        pv_wf(bs),
        0 <= i < bs.len(),
        bs[i].0 == blknum,
    ensures
        block_entries(bs, blknum) == bs[i].1,
    decreases bs.len(),
{
    if i == bs.len() - 1 {
        assert(bs.last() == bs[i]);
    } else {
        assert(bs.last() == bs[bs.len() - 1]);
        assert(bs[i].0 < bs[bs.len() - 1].0);
        assert forall|p: int, q: int|
            0 <= p < q < bs.drop_last().len() implies (#[trigger] bs.drop_last()[p]).0 < (
        #[trigger] bs.drop_last()[q]).0 by {
            assert(bs.drop_last()[p] == bs[p] && bs.drop_last()[q] == bs[q]);
        }
        assert forall|p: int| 0 <= p < bs.drop_last().len() implies vm_wf(
            (#[trigger] bs.drop_last()[p]).1,
        ) by {
            assert(bs.drop_last()[p] == bs[p]);
        }
        assert(bs.drop_last()[i] == bs[i]);
        lemma_block_entries_at(bs.drop_last(), blknum, i);
    }
}

/// An unknown block has an empty history.
pub proof fn lemma_block_entries_none(bs: Seq<(u32, Seq<(u64, PageVersionView)>)>, blknum: u32)
    requires
        forall|j: int| 0 <= j < bs.len() ==> (#[trigger] bs[j]).0 != blknum,
    ensures
        block_entries(bs, blknum).len() == 0,
    decreases bs.len(),
{
    if bs.len() > 0 {
        assert(bs.last() == bs[bs.len() - 1]);
        assert forall|j: int| 0 <= j < bs.drop_last().len() implies (#[trigger] bs.drop_last()[j]).0
            != blknum by {
            assert(bs.drop_last()[j] == bs[j]);
        }
        lemma_block_entries_none(bs.drop_last(), blknum);
    }
}

/// The versions of a history with `from <= lsn < till`.
pub open spec fn vm_range(
    es: Seq<(u64, PageVersionView)>,
    from: u64,
    till: u64,
) -> Seq<(u64, PageVersionView)>
    decreases es.len(),
{
    if es.len() == 0 {
        Seq::empty()
    } else {
        let p = vm_range(es.drop_last(), from, till);
        if from <= es.last().0 < till {
            p.push(es.last())
        } else {
            p
        }
    }
}

impl PageVersions {
    /// The versions of block `blknum` with LSN in `[from, till)`,
    /// copied out in LSN order.
    pub fn get_block_lsn_range(&self, blknum: u32, from: Lsn, till: Lsn) -> (r: Vec<
        (Lsn, PageVersion),
    >)
        requires
            pv_wf(self@),
        ensures
            r@.map(|q: int, p: (Lsn, PageVersion)| (p.0.0, p.1@)) == vm_range(
                block_entries(self@, blknum),
                from.0,
                till.0,
            ),
    {
        let ghost bs = self@;
        let mut bi: usize = 0;
        let nblocks = self.blocks.len();
        while bi < nblocks && self.blocks[bi].0 != blknum
            invariant
                bi <= nblocks,
                nblocks == bs.len(),
                bs == self@,
                forall|j: int| 0 <= j < bi ==> (#[trigger] bs[j]).0 != blknum,
            decreases nblocks - bi,
        {
            proof {
                assert(bs[bi as int] == (self.blocks@[bi as int].0, self.blocks@[bi as int].1@));
            }
            bi = bi + 1;
        }
        if bi == nblocks {
            proof {
                lemma_block_entries_none(bs, blknum);
                assert(Seq::<(Lsn, PageVersion)>::empty().map(
                    |q: int, p: (Lsn, PageVersion)| (p.0.0, p.1@),
                ) =~= vm_range(block_entries(bs, blknum), from.0, till.0));
            }
            return Vec::new();
        }
        proof {
            assert(bs[bi as int] == (self.blocks@[bi as int].0, self.blocks@[bi as int].1@));
            lemma_block_entries_at(bs, blknum, bi as int);
        }
        let ghost es = block_entries(bs, blknum);
        let entries = &self.blocks[bi].1.entries;
        let mut out: Vec<(Lsn, PageVersion)> = Vec::new();
        let mut i: usize = 0;
        proof {
            assert(es == self.blocks@[bi as int].1@);
            assert(es.take(0) =~= Seq::<(u64, PageVersionView)>::empty());
            assert(out@.map(|q: int, p: (Lsn, PageVersion)| (p.0.0, p.1@)) =~= Seq::<
                (u64, PageVersionView),
            >::empty());
        }
        while i < entries.len()
            invariant
                i <= entries@.len(),
                es == entries@.map(|q: int, p: (Lsn, PageVersion)| (p.0.0, p.1@)),
                out@.map(|q: int, p: (Lsn, PageVersion)| (p.0.0, p.1@)) == vm_range(
                    es.take(i as int),
                    from.0,
                    till.0,
                ),
            decreases entries@.len() - i,
        {
            let ghost prevout = out@;
            proof {
                assert(es.take(i + 1).drop_last() =~= es.take(i as int));
                assert(es.take(i + 1).last() == es[i as int]);
                assert(es[i as int] == (entries@[i as int].0.0, entries@[i as int].1@));
            }
            let e = &entries[i];
            if from.0 <= e.0.0 && e.0.0 < till.0 {
                out.push((e.0, e.1.duplicate()));
            }
            i = i + 1;
            proof {
                assert(out@.map(|q: int, p: (Lsn, PageVersion)| (p.0.0, p.1@)) =~= vm_range(
                    es.take(i as int),
                    from.0,
                    till.0,
                ));
            }
        }
        proof {
            assert(es.take(es.len() as int) =~= es);
        }
        out
    }
}

/// The versions of a history strictly below the cutoff.
pub open spec fn vm_before(es: Seq<(u64, PageVersionView)>, cutoff: u64) -> Seq<(u64, PageVersionView)>
    decreases es.len(),
{
    if es.len() == 0 {
        Seq::empty()
    } else {
        let p = vm_before(es.drop_last(), cutoff);
        if es.last().0 < cutoff {
            p.push(es.last())
        } else {
            p
        }
    }
}

/// The versions of a history at or past the cutoff.
pub open spec fn vm_after(es: Seq<(u64, PageVersionView)>, cutoff: u64) -> Seq<(u64, PageVersionView)>
    decreases es.len(),
{
    if es.len() == 0 {
        Seq::empty()
    } else {
        let p = vm_after(es.drop_last(), cutoff);
        if es.last().0 >= cutoff {
            p.push(es.last())
        } else {
            p
        }
    }
}

/// Filtering a history keeps it sorted, and every kept version is one
/// of the history's versions.
pub proof fn lemma_vm_filter_props(es: Seq<(u64, PageVersionView)>, cutoff: u64)
    requires
        vm_wf(es),
    ensures
        vm_wf(vm_before(es, cutoff)),
        vm_wf(vm_after(es, cutoff)),
        forall|p: int|
            0 <= p < vm_before(es, cutoff).len() ==> exists|j: int|
                0 <= j < es.len() && es[j] == #[trigger] vm_before(es, cutoff)[p],
        forall|p: int|
            0 <= p < vm_after(es, cutoff).len() ==> exists|j: int|
                0 <= j < es.len() && es[j] == #[trigger] vm_after(es, cutoff)[p],
    decreases es.len(),
{
    if es.len() > 0 {
        assert(es.last() == es[es.len() - 1]);
        assert forall|p: int, q: int|
            0 <= p < q < es.drop_last().len() implies (#[trigger] es.drop_last()[p]).0 < (
        #[trigger] es.drop_last()[q]).0 by {
            assert(es.drop_last()[p] == es[p] && es.drop_last()[q] == es[q]);
        }
        lemma_vm_filter_props(es.drop_last(), cutoff);
        assert forall|p: int|
            0 <= p < vm_before(es, cutoff).len() implies exists|j: int|
            0 <= j < es.len() && es[j] == #[trigger] vm_before(es, cutoff)[p] by {
            let f = vm_before(es, cutoff);
            if es.last().0 < cutoff && p == f.len() - 1 {
                assert(es[es.len() - 1] == f[p]);
            } else {
                let fj = choose|j: int|
                    0 <= j < es.drop_last().len() && es.drop_last()[j] == #[trigger] vm_before(
                        es.drop_last(),
                        cutoff,
                    )[p];
                assert(es[fj] == f[p]);
            }
        }
        assert forall|p: int|
            0 <= p < vm_after(es, cutoff).len() implies exists|j: int|
            0 <= j < es.len() && es[j] == #[trigger] vm_after(es, cutoff)[p] by {
            let f = vm_after(es, cutoff);
            if es.last().0 >= cutoff && p == f.len() - 1 {
                assert(es[es.len() - 1] == f[p]);
            } else {
                let fj = choose|j: int|
                    0 <= j < es.drop_last().len() && es.drop_last()[j] == #[trigger] vm_after(
                        es.drop_last(),
                        cutoff,
                    )[p];
                assert(es[fj] == f[p]);
            }
        }
        assert forall|p: int, q: int|
            0 <= p < q < vm_before(es, cutoff).len() implies (#[trigger] vm_before(es, cutoff)[p]).0
            < (#[trigger] vm_before(es, cutoff)[q]).0 by {
            let f = vm_before(es, cutoff);
            if es.last().0 < cutoff && q == f.len() - 1 {
                let fj = choose|j: int|
                    0 <= j < es.drop_last().len() && es.drop_last()[j] == #[trigger] vm_before(
                        es.drop_last(),
                        cutoff,
                    )[p];
                assert(es[fj].0 < es[es.len() - 1].0);
            }
        }
        assert forall|p: int, q: int|
            0 <= p < q < vm_after(es, cutoff).len() implies (#[trigger] vm_after(es, cutoff)[p]).0
            < (#[trigger] vm_after(es, cutoff)[q]).0 by {
            let f = vm_after(es, cutoff);
            if es.last().0 >= cutoff && q == f.len() - 1 {
                let fj = choose|j: int|
                    0 <= j < es.drop_last().len() && es.drop_last()[j] == #[trigger] vm_after(
                        es.drop_last(),
                        cutoff,
                    )[p];
                assert(es[fj].0 < es[es.len() - 1].0);
            }
        }
    }
}

/// The blocks whose histories keep versions below the cutoff, each with
/// exactly those versions.
pub open spec fn pv_before(
    bs: Seq<(u32, Seq<(u64, PageVersionView)>)>,
    cutoff: u64,
) -> Seq<(u32, Seq<(u64, PageVersionView)>)>
    decreases bs.len(),
{
    if bs.len() == 0 {
        Seq::empty()
    } else {
        let p = pv_before(bs.drop_last(), cutoff);
        if vm_before(bs.last().1, cutoff).len() > 0 {
            p.push((bs.last().0, vm_before(bs.last().1, cutoff)))
        } else {
            p
        }
    }
}

/// The blocks whose histories keep versions at or past the cutoff.
pub open spec fn pv_after(
    bs: Seq<(u32, Seq<(u64, PageVersionView)>)>,
    cutoff: u64,
) -> Seq<(u32, Seq<(u64, PageVersionView)>)>
    decreases bs.len(),
{
    if bs.len() == 0 {
        Seq::empty()
    } else {
        let p = pv_after(bs.drop_last(), cutoff);
        if vm_after(bs.last().1, cutoff).len() > 0 {
            p.push((bs.last().0, vm_after(bs.last().1, cutoff)))
        } else {
            p
        }
    }
}

/// The smallest first LSN among the kept after-histories: what the
/// layering code accumulates while splitting.
pub open spec fn oldest_after(bs: Seq<(u32, Seq<(u64, PageVersionView)>)>, cutoff: u64) -> Option<
    u64,
>
    decreases bs.len(),
{
    if bs.len() == 0 {
        None
    } else {
        let p = oldest_after(bs.drop_last(), cutoff);
        let a = vm_after(bs.last().1, cutoff);
        if a.len() == 0 {
            p
        } else {
            match p {
                None => Some(a[0].0),
                Some(m) => if a[0].0 < m {
                    Some(a[0].0)
                } else {
                    Some(m)
                },
            }
        }
    }
}

/// A vector of exactly the given history, for building split halves.
fn copy_history(entries: &Vec<(Lsn, PageVersion)>, below: bool, cutoff: Lsn) -> (r: Vec<
    (Lsn, PageVersion),
>)
    ensures
        below ==> r@.map(|q: int, p: (Lsn, PageVersion)| (p.0.0, p.1@)) == vm_before(
            entries@.map(|q: int, p: (Lsn, PageVersion)| (p.0.0, p.1@)),
            cutoff.0,
        ),
        !below ==> r@.map(|q: int, p: (Lsn, PageVersion)| (p.0.0, p.1@)) == vm_after(
            entries@.map(|q: int, p: (Lsn, PageVersion)| (p.0.0, p.1@)),
            cutoff.0,
        ),
{
    let ghost es = entries@.map(|q: int, p: (Lsn, PageVersion)| (p.0.0, p.1@));
    let mut out: Vec<(Lsn, PageVersion)> = Vec::new();
    let mut i: usize = 0;
    proof {
        assert(es.take(0) =~= Seq::<(u64, PageVersionView)>::empty());
        assert(out@.map(|q: int, p: (Lsn, PageVersion)| (p.0.0, p.1@)) =~= Seq::<
            (u64, PageVersionView),
        >::empty());
    }
    while i < entries.len()
        invariant
            i <= entries@.len(),
            es == entries@.map(|q: int, p: (Lsn, PageVersion)| (p.0.0, p.1@)),
            below ==> out@.map(|q: int, p: (Lsn, PageVersion)| (p.0.0, p.1@)) == vm_before(
                es.take(i as int),
                cutoff.0,
            ),
            !below ==> out@.map(|q: int, p: (Lsn, PageVersion)| (p.0.0, p.1@)) == vm_after(
                es.take(i as int),
                cutoff.0,
            ),
        decreases entries@.len() - i,
    {
        proof {
            assert(es.take(i + 1).drop_last() =~= es.take(i as int));
            assert(es.take(i + 1).last() == es[i as int]);
            assert(es[i as int] == (entries@[i as int].0.0, entries@[i as int].1@));
        }
        let e = &entries[i];
        let keep = if below {
            e.0.0 < cutoff.0
        } else {
            e.0.0 >= cutoff.0
        };
        if keep {
            out.push((e.0, e.1.duplicate()));
        }
        i = i + 1;
        proof {
            if below {
                assert(out@.map(|q: int, p: (Lsn, PageVersion)| (p.0.0, p.1@)) =~= vm_before(
                    es.take(i as int),
                    cutoff.0,
                ));
            } else {
                assert(out@.map(|q: int, p: (Lsn, PageVersion)| (p.0.0, p.1@)) =~= vm_after(
                    es.take(i as int),
                    cutoff.0,
                ));
            }
        }
    }
    proof {
        assert(es.take(es.len() as int) =~= es);
    }
    out
}

impl PageVersions {
    /// Split the map in two around `cutoff_lsn`: the first half holds
    /// everything strictly below it, the second half `cutoff_lsn` and
    /// everything after, block by block; blocks left empty on a side
    /// are dropped there. The third result is the smallest first LSN
    /// among the second half's histories, which the caller accumulates
    /// as the oldest LSN of the layer being split off.
    pub fn split_at(&self, cutoff_lsn: Lsn) -> (r: (PageVersions, PageVersions, Option<Lsn>))
        requires
            pv_wf(self@),
        ensures
            r.0@ == pv_before(self@, cutoff_lsn.0),
            r.1@ == pv_after(self@, cutoff_lsn.0),
            pv_wf(r.0@),
            pv_wf(r.1@),
            (match r.2 {
                Some(l) => oldest_after(self@, cutoff_lsn.0) == Some(l.0),
                None => oldest_after(self@, cutoff_lsn.0) is None,
            }),
    {
        let ghost bs = self@;
        let mut before = PageVersions::new();
        let mut after = PageVersions::new();
        let mut oldest: Option<Lsn> = None;
        let mut i: usize = 0;
        proof {
            assert(bs.take(0) =~= Seq::<(u32, Seq<(u64, PageVersionView)>)>::empty());
        }
        while i < self.blocks.len()
            invariant
                pv_wf(bs),
                bs == self@,
                i <= bs.len(),
                before@ == pv_before(bs.take(i as int), cutoff_lsn.0),
                after@ == pv_after(bs.take(i as int), cutoff_lsn.0),
                pv_wf(before@),
                pv_wf(after@),
                (match oldest {
                    Some(l) => oldest_after(bs.take(i as int), cutoff_lsn.0) == Some(l.0),
                    None => oldest_after(bs.take(i as int), cutoff_lsn.0) is None,
                }),
                forall|p: int|
                    0 <= p < before@.len() ==> exists|j: int|
                        0 <= j < i && (#[trigger] before@[p]).0 == bs[j].0,
                forall|p: int|
                    0 <= p < after@.len() ==> exists|j: int|
                        0 <= j < i && (#[trigger] after@[p]).0 == bs[j].0,
            decreases self.blocks@.len() - i,
        {
            let ghost es = bs[i as int].1;
            proof {
                assert(bs.take(i + 1).drop_last() =~= bs.take(i as int));
                assert(bs.take(i + 1).last() == bs[i as int]);
                assert(bs[i as int] == (self.blocks@[i as int].0, self.blocks@[i as int].1@));
                lemma_vm_filter_props(es, cutoff_lsn.0);
            }
            let blknum = self.blocks[i].0;
            let before_versions = copy_history(&self.blocks[i].1.entries, true, cutoff_lsn);
            let after_versions = copy_history(&self.blocks[i].1.entries, false, cutoff_lsn);
            let ghost oldbefore = before@;
            let ghost oldafter = after@;
            if before_versions.len() > 0 {
                proof {
                    assert forall|p: int|
                        0 <= p < oldbefore.len() implies (#[trigger] oldbefore[p]).0 < blknum by {
                        let j = choose|j: int| 0 <= j < i && (#[trigger] oldbefore[p]).0 == bs[j].0;
                        assert(bs[j].0 < bs[i as int].0);
                    }
                }
                before.blocks.push((blknum, VecMap { entries: before_versions }));
                proof {
                    assert(before@ =~= oldbefore.push((blknum, vm_before(es, cutoff_lsn.0))));
                    assert forall|p: int, q: int|
                        0 <= p < q < before@.len() implies (#[trigger] before@[p]).0 < (
                    #[trigger] before@[q]).0 by {
                        if q < oldbefore.len() {
                            assert(before@[p] == oldbefore[p] && before@[q] == oldbefore[q]);
                        } else {
                            assert(before@[p] == oldbefore[p]);
                        }
                    }
                    assert forall|p: int| 0 <= p < before@.len() implies vm_wf(
                        (#[trigger] before@[p]).1,
                    ) by {
                        if p < oldbefore.len() {
                            assert(before@[p] == oldbefore[p]);
                        }
                    }
                }
            } else {
                proof {
                    assert(before@ =~= pv_before(bs.take(i + 1), cutoff_lsn.0));
                }
            }
            if after_versions.len() > 0 {
                let first = after_versions[0].0;
                proof {
                    assert(after_versions@.map(|q: int, p: (Lsn, PageVersion)| (p.0.0, p.1@))[0]
                        == (after_versions@[0].0.0, after_versions@[0].1@));
                    assert(vm_after(es, cutoff_lsn.0)[0].0 == first.0);
                    assert forall|p: int|
                        0 <= p < oldafter.len() implies (#[trigger] oldafter[p]).0 < blknum by {
                        let j = choose|j: int| 0 <= j < i && (#[trigger] oldafter[p]).0 == bs[j].0;
                        assert(bs[j].0 < bs[i as int].0);
                    }
                }
                after.blocks.push((blknum, VecMap { entries: after_versions }));
                let new_oldest = match oldest {
                    None => first,
                    Some(m) => {
                        if first.0 < m.0 {
                            first
                        } else {
                            m
                        }
                    },
                };
                oldest = Some(new_oldest);
                proof {
                    assert(after@ =~= oldafter.push((blknum, vm_after(es, cutoff_lsn.0))));
                    assert forall|p: int, q: int|
                        0 <= p < q < after@.len() implies (#[trigger] after@[p]).0 < (
                    #[trigger] after@[q]).0 by {
                        if q < oldafter.len() {
                            assert(after@[p] == oldafter[p] && after@[q] == oldafter[q]);
                        } else {
                            assert(after@[p] == oldafter[p]);
                        }
                    }
                    assert forall|p: int| 0 <= p < after@.len() implies vm_wf(
                        (#[trigger] after@[p]).1,
                    ) by {
                        if p < oldafter.len() {
                            assert(after@[p] == oldafter[p]);
                        }
                    }
                }
            } else {
                proof {
                    assert(after@ =~= pv_after(bs.take(i + 1), cutoff_lsn.0));
                }
            }
            i = i + 1;
        }
        proof {
            assert(bs.take(bs.len() as int) =~= bs);
        }
        (before, after, oldest)
    }
}

/// A cursor over the blocks of a [`PageVersions`], in ascending block
/// order.
#[derive(Debug)]
pub struct OrderedBlockIter<'a> {
    pub page_versions: &'a PageVersions,
    pub cur_block_idx: usize,
}

impl PageVersions {
    /// Iterate through block histories in block order.
    pub fn ordered_block_iter(&self) -> (r: OrderedBlockIter<'_>)
        ensures
            r.page_versions == self,
            r.cur_block_idx == 0,
    {
        OrderedBlockIter { page_versions: self, cur_block_idx: 0 }
    }
}

impl<'a> OrderedBlockIter<'a> {
    /// The next block and its history, or nothing once every block has
    /// been handed out. Asking again after the end stays at the end.
    pub fn next(&mut self) -> (r: Option<(u32, &'a VecMap)>)
        ensures
            final(self).page_versions == old(self).page_versions,
            old(self).cur_block_idx < old(self).page_versions@.len() ==> (r matches Some(p) && p.0
                == old(self).page_versions@[old(self).cur_block_idx as int].0 && p.1@
                == old(self).page_versions@[old(self).cur_block_idx as int].1
                && final(self).cur_block_idx == old(self).cur_block_idx + 1),
            old(self).cur_block_idx >= old(self).page_versions@.len() ==> (r is None
                && final(self).cur_block_idx == old(self).cur_block_idx),
    {
        let pv: &'a PageVersions = self.page_versions;
        if self.cur_block_idx < pv.blocks.len() {
            let b = &pv.blocks[self.cur_block_idx];
            self.cur_block_idx = self.cur_block_idx + 1;
            Some((b.0, &b.1))
        } else {
            None
        }
    }
}

} // verus!
