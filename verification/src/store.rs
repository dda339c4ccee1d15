//! The versioned key/value store of one timeline.
//!
//! The store keeps two sorted tables: `Data` rows keyed by
//! `(relish, block, lsn)` holding page versions, and `Metadata` rows keyed
//! by `(relish, lsn)` holding the entity size or a tombstone. The sort
//! order `entity < block < lsn` makes "latest version at or below an LSN"
//! a scan that ends at the newest visible row, and the page history of a
//! block a contiguous run of rows.

use vstd::prelude::*;

use crate::lsn::Lsn;
use crate::relish::{rel_lt, RelishTag};

verus! {

/// One write-ahead-log record applied to a single page.
#[derive(Debug)]
pub struct WalRecord {
    /// If true, this record alone re-creates the page with no prior base.
    pub will_init: bool,
    /// The record payload handed to the redo manager.
    pub rec: Vec<u8>,
}

/// Mathematical image of a [`WalRecord`].
#[verifier::ext_equal]
pub struct WalRecordView {
    pub will_init: bool,
    pub rec: Seq<u8>,
}

impl View for WalRecord {
    type V = WalRecordView;

    open spec fn view(&self) -> WalRecordView {
        WalRecordView { will_init: self.will_init, rec: self.rec@ }
    }
}

impl WalRecord {
    /// An identical copy of this record.
    pub fn duplicate(&self) -> (r: WalRecord)
        ensures
            r@ == self@,
    {
        WalRecord { will_init: self.will_init, rec: copy_bytes(&self.rec) }
    }
}

/// A stored version of one page: either a full image or a delta record.
#[derive(Debug)]
pub enum PageVersion {
    /// A full base image of the page.
    Image(Vec<u8>),
    /// A WAL record to apply over the previous version.
    Delta(WalRecord),
}

/// Mathematical image of a [`PageVersion`].
#[verifier::ext_equal]
pub enum PageVersionView {
    Image(Seq<u8>),
    Delta(WalRecordView),
}

impl View for PageVersion {
    type V = PageVersionView;

    open spec fn view(&self) -> PageVersionView {
        match self {
            PageVersion::Image(img) => PageVersionView::Image(img@),
            PageVersion::Delta(rec) => PageVersionView::Delta(rec@),
        }
    }
}

/// A byte-for-byte copy of `v`.
pub fn copy_bytes(v: &Vec<u8>) -> (r: Vec<u8>)
    ensures
        r@ == v@,
{
    let mut out: Vec<u8> = Vec::new();
    let mut i: usize = 0;
    while i < v.len()
        invariant
            i <= v.len(),
            out@ == v@.take(i as int),
        decreases v.len() - i,
    {
        out.push(v[i]);
        i = i + 1;
        proof {
            assert(v@.take(i as int) =~= v@.take(i - 1).push(v@[i - 1]));
        }
    }
    proof {
        assert(v@.take(v@.len() as int) =~= v@);
    }
    out
}

/// One row of the `Data` table.
#[derive(Debug)]
pub struct DataEntry {
    pub rel: RelishTag,
    pub blknum: u32,
    pub lsn: Lsn,
    pub val: PageVersion,
}

/// Mathematical image of a [`DataEntry`]; the LSN is a plain integer.
#[verifier::ext_equal]
pub struct DataEntryView {
    pub rel: RelishTag,
    pub blknum: u32,
    pub lsn: u64,
    pub val: PageVersionView,
}

impl View for DataEntry {
    type V = DataEntryView;

    open spec fn view(&self) -> DataEntryView {
        DataEntryView { rel: self.rel, blknum: self.blknum, lsn: self.lsn.0, val: self.val@ }
    }
}

/// One row of the `Metadata` table. `size: None` is a tombstone: the
/// entity was dropped at this LSN.
#[derive(Clone, Copy, Debug, PartialEq, Eq, Structural)]
pub struct MetaEntry {
    pub rel: RelishTag,
    pub lsn: Lsn,
    pub size: Option<u32>,
}

/// Mathematical image of a [`MetaEntry`].
#[verifier::ext_equal]
pub struct MetaEntryView {
    pub rel: RelishTag,
    pub lsn: u64,
    pub size: Option<u32>,
}

impl View for MetaEntry {
    type V = MetaEntryView;

    open spec fn view(&self) -> MetaEntryView {
        MetaEntryView { rel: self.rel, lsn: self.lsn.0, size: self.size }
    }
}

/// Strict order of `Data` rows: entity, then block, then LSN.
pub open spec fn data_lt(a: DataEntryView, b: DataEntryView) -> bool {
    ||| rel_lt(a.rel, b.rel)
    ||| (a.rel == b.rel && a.blknum < b.blknum)
    ||| (a.rel == b.rel && a.blknum == b.blknum && a.lsn < b.lsn)
}

/// Whether two `Data` rows address the same `(entity, block, lsn)` cell.
pub open spec fn data_same_key(a: DataEntryView, b: DataEntryView) -> bool {
    a.rel == b.rel && a.blknum == b.blknum && a.lsn == b.lsn
}

/// Strict order of `Metadata` rows: entity, then LSN.
pub open spec fn meta_lt(a: MetaEntryView, b: MetaEntryView) -> bool {
    ||| rel_lt(a.rel, b.rel)
    ||| (a.rel == b.rel && a.lsn < b.lsn)
}

/// Whether two `Metadata` rows address the same `(entity, lsn)` cell.
pub open spec fn meta_same_key(a: MetaEntryView, b: MetaEntryView) -> bool {
    a.rel == b.rel && a.lsn == b.lsn
}

/// The `Data` table is strictly sorted, which also makes keys unique.
pub open spec fn data_sorted(s: Seq<DataEntryView>) -> bool {
    forall|i: int, j: int| 0 <= i < j < s.len() ==> data_lt(#[trigger] s[i], #[trigger] s[j])
}

/// The `Metadata` table is strictly sorted, which also makes keys unique.
pub open spec fn meta_sorted(s: Seq<MetaEntryView>) -> bool {
    forall|i: int, j: int| 0 <= i < j < s.len() ==> meta_lt(#[trigger] s[i], #[trigger] s[j])
}

/// Whether `e` is a version of page `(rel, blknum)` visible at or below `bound`.
pub open spec fn data_visible(e: DataEntryView, rel: RelishTag, blknum: u32, bound: int) -> bool {
    e.rel == rel && e.blknum == blknum && e.lsn <= bound
}

/// The visible history of page `(rel, blknum)` at `bound`: every stored
/// version with LSN at or below `bound`, in store order (ascending LSN
/// once the table is sorted).
pub open spec fn page_hist(s: Seq<DataEntryView>, rel: RelishTag, blknum: u32, bound: int) -> Seq<DataEntryView>
    decreases s.len(),
{
    if s.len() == 0 {
        Seq::empty()
    } else {
        let p = page_hist(s.drop_last(), rel, blknum, bound);
        if data_visible(s.last(), rel, blknum, bound) {
            p.push(s.last())
        } else {
            p
        }
    }
}

/// Whether `e` is a metadata row of `rel` visible at or below `bound`.
pub open spec fn meta_visible(e: MetaEntryView, rel: RelishTag, bound: int) -> bool {
    e.rel == rel && e.lsn <= bound
}

/// The visible metadata history of `rel` at `bound`, in store order.
pub open spec fn meta_hist(s: Seq<MetaEntryView>, rel: RelishTag, bound: int) -> Seq<MetaEntryView>
    decreases s.len(),
{
    if s.len() == 0 {
        Seq::empty()
    } else {
        let p = meta_hist(s.drop_last(), rel, bound);
        if meta_visible(s.last(), rel, bound) {
            p.push(s.last())
        } else {
            p
        }
    }
}

/// The latest metadata row of `rel` at or below `bound`:
/// `None` when no row is visible, otherwise `Some(size field)` of the
/// newest visible row (whose `None` in turn marks a dropped entity).
pub open spec fn size_at(s: Seq<MetaEntryView>, rel: RelishTag, bound: int) -> Option<Option<u32>> {
    let h = meta_hist(s, rel, bound);
    if h.len() == 0 {
        None
    } else {
        Some(h.last().size)
    }
}

/// A reconstruction chain: the base image to start from (if any) and the
/// delta records to apply over it, in chronological order.
#[verifier::ext_equal]
pub struct Chain {
    pub base: Option<Seq<u8>>,
    pub recs: Seq<(u64, WalRecordView)>,
}

/// A chain can be replayed iff it starts from a base image or from a
/// record that initializes the page.
pub open spec fn chain_complete(c: Chain) -> bool {
    ||| c.base is Some
    ||| (c.recs.len() > 0 && c.recs[0].1.will_init)
}

/// Walk a visible page history backwards from its newest row, collecting
/// delta records until a full image or an initializing record is found.
pub open spec fn chain_of(h: Seq<DataEntryView>) -> Chain
    decreases h.len(),
{
    if h.len() == 0 {
        Chain { base: None, recs: Seq::empty() }
    } else {
        match h.last().val {
            PageVersionView::Image(img) => Chain { base: Some(img), recs: Seq::empty() },
            PageVersionView::Delta(r) => {
                if r.will_init {
                    Chain { base: None, recs: seq![(h.last().lsn, r)] }
                } else {
                    let c = chain_of(h.drop_last());
                    Chain { base: c.base, recs: c.recs.push((h.last().lsn, r)) }
                }
            },
        }
    }
}

/// Total payload bytes of the records of a chain.
pub open spec fn recs_len(recs: Seq<(u64, WalRecordView)>) -> int
    decreases recs.len(),
{
    if recs.len() == 0 {
        0
    } else {
        recs_len(recs.drop_last()) + recs.last().1.rec.len()
    }
}

/// The record carried by a delta row.
pub open spec fn delta_rec(v: PageVersionView) -> WalRecordView
    recommends
        v is Delta,
{
    match v {
        PageVersionView::Delta(r) => r,
        PageVersionView::Image(_) => vstd::pervasive::arbitrary(),
    }
}

/// The `(lsn, record)` pair contributed to a chain by a delta row.
pub open spec fn delta_pair(e: DataEntryView) -> (u64, WalRecordView) {
    (e.lsn, delta_rec(e.val))
}

/// Chain record payload sizes are not negative.
pub proof fn lemma_recs_len_nonneg(recs: Seq<(u64, WalRecordView)>)
    ensures
        recs_len(recs) >= 0,
    decreases recs.len(),
{
    if recs.len() > 0 {
        lemma_recs_len_nonneg(recs.drop_last());
    }
}

/// Insert a row into a sorted `Data` table: rows above the new key shift
/// right, a row with the same key is replaced in place.
pub open spec fn data_insert(s: Seq<DataEntryView>, e: DataEntryView) -> Seq<DataEntryView>
    decreases s.len(),
{
    if s.len() == 0 {
        seq![e]
    } else if data_lt(s.last(), e) {
        s.push(e)
    } else if data_same_key(s.last(), e) {
        s.update(s.len() - 1, e)
    } else {
        data_insert(s.drop_last(), e).push(s.last())
    }
}

/// Insert a row into a sorted `Metadata` table, replacing an equal key.
pub open spec fn meta_insert(s: Seq<MetaEntryView>, e: MetaEntryView) -> Seq<MetaEntryView>
    decreases s.len(),
{
    if s.len() == 0 {
        seq![e]
    } else if meta_lt(s.last(), e) {
        s.push(e)
    } else if meta_same_key(s.last(), e) {
        s.update(s.len() - 1, e)
    } else {
        meta_insert(s.drop_last(), e).push(s.last())
    }
}

/// Two bounds under which exactly the same rows of the page are visible
/// give the same history.
pub proof fn lemma_hist_congruence(
    s: Seq<DataEntryView>,
    rel: RelishTag,
    blknum: u32,
    b1: int,
    b2: int,
)
    requires
        forall|j: int|
            0 <= j < s.len() && s[j].rel == rel && s[j].blknum == blknum ==> ((#[trigger] s[j].lsn
                <= b1) <==> (s[j].lsn <= b2)),
    ensures
        page_hist(s, rel, blknum, b1) == page_hist(s, rel, blknum, b2),
    decreases s.len(),
{
    if s.len() > 0 {
        lemma_hist_congruence(s.drop_last(), rel, blknum, b1, b2);
        assert(s.last() == s[s.len() - 1]);
    }
}

/// A page history with no visible rows is empty.
pub proof fn lemma_hist_empty(s: Seq<DataEntryView>, rel: RelishTag, blknum: u32, bound: int)
    requires
        forall|j: int| 0 <= j < s.len() ==> !data_visible(#[trigger] s[j], rel, blknum, bound),
    ensures
        page_hist(s, rel, blknum, bound).len() == 0,
    decreases s.len(),
{
    if s.len() > 0 {
        lemma_hist_empty(s.drop_last(), rel, blknum, bound);
        assert(s.last() == s[s.len() - 1]);
    }
}

/// In a sorted table, if `s[k]` is visible and nothing after `k` is, then
/// `s[k]` is the newest visible row.
pub proof fn lemma_top_index(
    s: Seq<DataEntryView>,
    rel: RelishTag,
    blknum: u32,
    bound: int,
    k: int,
)
    requires
        data_sorted(s),
        0 <= k < s.len(),
        data_visible(s[k], rel, blknum, bound),
        forall|j: int| k < j < s.len() ==> !data_visible(#[trigger] s[j], rel, blknum, bound),
    ensures
        page_hist(s, rel, blknum, bound).len() > 0,
        page_hist(s, rel, blknum, bound).last() == s[k],
    decreases s.len(),
{
    if k == s.len() - 1 {
        assert(s.last() == s[k]);
    } else {
        assert(!data_visible(s.last(), rel, blknum, bound));
        assert forall|p: int, q: int|
            0 <= p < q < s.drop_last().len() implies data_lt(
            #[trigger] s.drop_last()[p],
            #[trigger] s.drop_last()[q],
        ) by {
            assert(s.drop_last()[p] == s[p] && s.drop_last()[q] == s[q]);
        }
        lemma_top_index(s.drop_last(), rel, blknum, bound, k);
    }
}

/// The newest visible row of a nonempty history pins the history down:
/// the history at the row's own LSN is the same, and dropping the row
/// yields the history strictly below it.
pub proof fn lemma_hist_last(s: Seq<DataEntryView>, rel: RelishTag, blknum: u32, bound: int)
    requires
        data_sorted(s),
        page_hist(s, rel, blknum, bound).len() > 0,
    ensures
        data_visible(page_hist(s, rel, blknum, bound).last(), rel, blknum, bound),
        page_hist(s, rel, blknum, bound) == page_hist(
            s,
            rel,
            blknum,
            page_hist(s, rel, blknum, bound).last().lsn as int,
        ),
        page_hist(s, rel, blknum, bound).drop_last() == page_hist(
            s,
            rel,
            blknum,
            page_hist(s, rel, blknum, bound).last().lsn - 1,
        ),
    decreases s.len(),
{
    let h = page_hist(s, rel, blknum, bound);
    let e = s.last();
    assert(e == s[s.len() - 1]);
    assert forall|p: int, q: int|
        0 <= p < q < s.drop_last().len() implies data_lt(
        #[trigger] s.drop_last()[p],
        #[trigger] s.drop_last()[q],
    ) by {
        assert(s.drop_last()[p] == s[p] && s.drop_last()[q] == s[q]);
    }
    if data_visible(e, rel, blknum, bound) {
        assert(h.last() == e);
        assert forall|j: int|
            0 <= j < s.drop_last().len() && s.drop_last()[j].rel == rel
                && s.drop_last()[j].blknum == blknum implies ((#[trigger] s.drop_last()[j].lsn
            <= bound) <==> (s.drop_last()[j].lsn <= e.lsn as int)) by {
            assert(s.drop_last()[j] == s[j]);
            assert(data_lt(s[j], e));
        }
        lemma_hist_congruence(s.drop_last(), rel, blknum, bound, e.lsn as int);
        assert(page_hist(s, rel, blknum, e.lsn as int) == page_hist(
            s.drop_last(),
            rel,
            blknum,
            e.lsn as int,
        ).push(e));
        assert(h == page_hist(s, rel, blknum, e.lsn as int));
        assert forall|j: int|
            0 <= j < s.drop_last().len() && s.drop_last()[j].rel == rel
                && s.drop_last()[j].blknum == blknum implies ((#[trigger] s.drop_last()[j].lsn
            <= bound) <==> (s.drop_last()[j].lsn <= e.lsn - 1)) by {
            assert(s.drop_last()[j] == s[j]);
            assert(data_lt(s[j], e));
        }
        lemma_hist_congruence(s.drop_last(), rel, blknum, bound, e.lsn - 1);
        assert(!data_visible(e, rel, blknum, e.lsn - 1));
        assert(page_hist(s, rel, blknum, e.lsn - 1) == page_hist(
            s.drop_last(),
            rel,
            blknum,
            e.lsn - 1,
        ));
        assert(h.drop_last() == page_hist(s.drop_last(), rel, blknum, bound));
    } else {
        lemma_hist_last(s.drop_last(), rel, blknum, bound);
        let l = page_hist(s.drop_last(), rel, blknum, bound).last();
        assert(h == page_hist(s.drop_last(), rel, blknum, bound));
        if data_visible(e, rel, blknum, l.lsn as int) {
            assert(data_visible(e, rel, blknum, bound));
            assert(false);
        }
        if data_visible(e, rel, blknum, l.lsn - 1) {
            assert(data_visible(e, rel, blknum, bound));
            assert(false);
        }
    }
}

/// Metadata mirror of [`lemma_hist_congruence`].
pub proof fn lemma_meta_congruence(s: Seq<MetaEntryView>, rel: RelishTag, b1: int, b2: int)
    requires
        forall|j: int|
            0 <= j < s.len() && s[j].rel == rel ==> ((#[trigger] s[j].lsn <= b1) <==> (s[j].lsn
                <= b2)),
    ensures
        meta_hist(s, rel, b1) == meta_hist(s, rel, b2),
    decreases s.len(),
{
    if s.len() > 0 {
        lemma_meta_congruence(s.drop_last(), rel, b1, b2);
        assert(s.last() == s[s.len() - 1]);
    }
}

/// Metadata mirror of [`lemma_hist_empty`].
pub proof fn lemma_meta_empty(s: Seq<MetaEntryView>, rel: RelishTag, bound: int)
    requires
        forall|j: int| 0 <= j < s.len() ==> !meta_visible(#[trigger] s[j], rel, bound),
    ensures
        meta_hist(s, rel, bound).len() == 0,
    decreases s.len(),
{
    if s.len() > 0 {
        lemma_meta_empty(s.drop_last(), rel, bound);
        assert(s.last() == s[s.len() - 1]);
    }
}

/// Metadata mirror of [`lemma_top_index`].
pub proof fn lemma_meta_top_index(s: Seq<MetaEntryView>, rel: RelishTag, bound: int, k: int)
    requires
        meta_sorted(s),
        0 <= k < s.len(),
        meta_visible(s[k], rel, bound),
        forall|j: int| k < j < s.len() ==> !meta_visible(#[trigger] s[j], rel, bound),
    ensures
        meta_hist(s, rel, bound).len() > 0,
        meta_hist(s, rel, bound).last() == s[k],
    decreases s.len(),
{
    if k == s.len() - 1 {
        assert(s.last() == s[k]);
    } else {
        assert(!meta_visible(s.last(), rel, bound));
        assert forall|p: int, q: int|
            0 <= p < q < s.drop_last().len() implies meta_lt(
            #[trigger] s.drop_last()[p],
            #[trigger] s.drop_last()[q],
        ) by {
            assert(s.drop_last()[p] == s[p] && s.drop_last()[q] == s[q]);
        }
        lemma_meta_top_index(s.drop_last(), rel, bound, k);
    }
}

/// A nonempty metadata history ends at an indexable row after which
/// nothing of the entity is visible.
pub proof fn lemma_meta_last_index(s: Seq<MetaEntryView>, rel: RelishTag, bound: int) -> (k: int)
    requires
        meta_sorted(s),
        meta_hist(s, rel, bound).len() > 0,
    ensures
        0 <= k < s.len(),
        s[k] == meta_hist(s, rel, bound).last(),
        meta_visible(s[k], rel, bound),
        forall|j: int| k < j < s.len() ==> !meta_visible(#[trigger] s[j], rel, bound),
    decreases s.len(),
{
    let e = s.last();
    assert(e == s[s.len() - 1]);
    if meta_visible(e, rel, bound) {
        s.len() - 1
    } else {
        assert forall|p: int, q: int|
            0 <= p < q < s.drop_last().len() implies meta_lt(
            #[trigger] s.drop_last()[p],
            #[trigger] s.drop_last()[q],
        ) by {
            assert(s.drop_last()[p] == s[p] && s.drop_last()[q] == s[q]);
        }
        let k = lemma_meta_last_index(s.drop_last(), rel, bound);
        assert(s[k] == s.drop_last()[k]);
        assert forall|j: int| k < j < s.len() implies !meta_visible(#[trigger] s[j], rel, bound) by {
            if j < s.len() - 1 {
                assert(s.drop_last()[j] == s[j]);
            }
        }
        k
    }
}

/// Metadata rows of one entity form a contiguous run of a sorted table.
pub proof fn lemma_meta_contiguous(s: Seq<MetaEntryView>, rel: RelishTag, i: int, m: int, j: int)
    requires
        meta_sorted(s),
        0 <= i <= m <= j < s.len(),
        s[i].rel == rel,
        s[j].rel == rel,
    ensures
        s[m].rel == rel,
{
    if i < m {
        assert(meta_lt(s[i], s[m]));
    }
    if m < j {
        assert(meta_lt(s[m], s[j]));
    }
    crate::relish::lemma_rel_order(s[m].rel, rel);
}

/// Rows of one page form a contiguous run of a sorted `Data` table.
pub proof fn lemma_page_contiguous(
    s: Seq<DataEntryView>,
    rel: RelishTag,
    blknum: u32,
    i: int,
    m: int,
    j: int,
)
    requires
        data_sorted(s),
        0 <= i <= m <= j < s.len(),
        s[i].rel == rel && s[i].blknum == blknum,
        s[j].rel == rel && s[j].blknum == blknum,
    ensures
        s[m].rel == rel && s[m].blknum == blknum,
{
    if i < m {
        assert(data_lt(s[i], s[m]));
    }
    if m < j {
        assert(data_lt(s[m], s[j]));
    }
    crate::relish::lemma_rel_order(s[m].rel, rel);
}

/// One collected delta record together with the LSN it was stored at.
#[derive(Debug)]
#[verifier::ext_equal]
pub struct ChainRec {
    pub lsn: Lsn,
    pub rec: WalRecord,
}

impl View for ChainRec {
    type V = (u64, WalRecordView);

    open spec fn view(&self) -> (u64, WalRecordView) {
        (self.lsn.0, self.rec@)
    }
}

/// The executable form of a reconstruction chain.
#[derive(Debug)]
pub struct LocalChain {
    /// The base image the chain starts from, if one was found.
    pub base: Option<Vec<u8>>,
    /// Delta records to apply over the base, in chronological order.
    pub recs: Vec<ChainRec>,
}

impl LocalChain {
    /// The mathematical chain this value stands for.
    pub open spec fn abs(&self) -> Chain {
        Chain {
            base: match self.base {
                Some(v) => Some(v@),
                None => None,
            },
            recs: self.recs@.map(|i: int, r: ChainRec| r@),
        }
    }

    /// Whether the chain can be replayed without anything older.
    pub fn is_complete(&self) -> (r: bool)
        ensures
            r == chain_complete(self.abs()),
    {
        if self.base.is_some() {
            true
        } else if self.recs.len() > 0 {
            let r = self.recs[0].rec.will_init;
            proof {
                assert(self.recs@.map(|i: int, c: ChainRec| c@)[0] == self.recs@[0]@);
            }
            r
        } else {
            false
        }
    }
}

/// Inserting a row that is not visible to a query leaves the query's
/// page history unchanged.
pub proof fn lemma_insert_frame(
    s: Seq<DataEntryView>,
    e: DataEntryView,
    rel: RelishTag,
    blknum: u32,
    bound: int,
)
    requires
        !data_visible(e, rel, blknum, bound),
    ensures
        page_hist(data_insert(s, e), rel, blknum, bound) == page_hist(s, rel, blknum, bound),
    decreases s.len(),
{
    if s.len() == 0 {
        assert(seq![e].drop_last() =~= Seq::<DataEntryView>::empty());
        assert(data_insert(s, e) == seq![e]);
        assert(seq![e].last() == e);
        assert(!data_visible(seq![e].last(), rel, blknum, bound));
        assert(page_hist(seq![e], rel, blknum, bound) == page_hist(
            seq![e].drop_last(),
            rel,
            blknum,
            bound,
        ));
        assert(page_hist(seq![e].drop_last(), rel, blknum, bound) == page_hist(
            s,
            rel,
            blknum,
            bound,
        ));
        assert(page_hist(data_insert(s, e), rel, blknum, bound) == page_hist(s, rel, blknum, bound));
    } else if data_lt(s.last(), e) {
        assert(s.push(e).drop_last() =~= s);
        assert(data_insert(s, e) == s.push(e));
        assert(page_hist(data_insert(s, e), rel, blknum, bound) == page_hist(s, rel, blknum, bound));
    } else if data_same_key(s.last(), e) {
        let u = s.update(s.len() - 1, e);
        assert(u.last() == e);
        assert(u.drop_last() =~= s.drop_last());
        assert(data_visible(s.last(), rel, blknum, bound) == data_visible(e, rel, blknum, bound));
    } else {
        lemma_insert_frame(s.drop_last(), e, rel, blknum, bound);
        let t = data_insert(s.drop_last(), e).push(s.last());
        assert(t.drop_last() =~= data_insert(s.drop_last(), e));
        assert(t.last() == s.last());
    }
}

/// Inserting a row that becomes the newest visible version of its page
/// makes the history "everything strictly below the row, then the row".
pub proof fn lemma_insert_top(
    s: Seq<DataEntryView>,
    e: DataEntryView,
    rel: RelishTag,
    blknum: u32,
    bound: int,
)
    requires
        data_sorted(s),
        data_visible(e, rel, blknum, bound),
        forall|j: int|
            0 <= j < s.len() && (#[trigger] s[j]).rel == rel && s[j].blknum == blknum ==> !(e.lsn
                < s[j].lsn <= bound),
    ensures
        page_hist(data_insert(s, e), rel, blknum, bound) == page_hist(
            s,
            rel,
            blknum,
            e.lsn - 1,
        ).push(e),
    decreases s.len(),
{
    if s.len() == 0 {
        assert(seq![e].drop_last() =~= Seq::<DataEntryView>::empty());
        assert(seq![e].last() == e);
        assert(data_visible(seq![e].last(), rel, blknum, bound));
        assert(page_hist(seq![e], rel, blknum, bound) == page_hist(
            seq![e].drop_last(),
            rel,
            blknum,
            bound,
        ).push(e));
        assert(page_hist(seq![e].drop_last(), rel, blknum, bound) == page_hist(
            s,
            rel,
            blknum,
            bound,
        ));
        assert(page_hist(s, rel, blknum, bound) =~= Seq::<DataEntryView>::empty());
        assert(page_hist(s, rel, blknum, e.lsn - 1) =~= Seq::<DataEntryView>::empty());
    } else if data_lt(s.last(), e) {
        assert(s.push(e).drop_last() =~= s);
        assert forall|j: int|
            0 <= j < s.len() && s[j].rel == rel && s[j].blknum == blknum implies ((
        #[trigger] s[j].lsn <= bound) <==> (s[j].lsn <= e.lsn - 1)) by {
            if s[j].lsn <= bound {
                if s[j].lsn == e.lsn {
                    if j < s.len() - 1 {
                        assert(data_lt(s[j], s.last()));
                    }
                    assert(data_lt(s[j], e));
                }
            }
        }
        lemma_hist_congruence(s, rel, blknum, bound, e.lsn - 1);
    } else if data_same_key(s.last(), e) {
        let u = s.update(s.len() - 1, e);
        assert(u.last() == e);
        assert(u.drop_last() =~= s.drop_last());
        assert forall|j: int|
            0 <= j < s.drop_last().len() && (#[trigger] s.drop_last()[j]).rel == rel
                && s.drop_last()[j].blknum == blknum implies ((s.drop_last()[j].lsn <= bound) <==> (
        s.drop_last()[j].lsn <= e.lsn - 1)) by {
            assert(s.drop_last()[j] == s[j]);
            assert(data_lt(s[j], s.last()));
        }
        lemma_hist_congruence(s.drop_last(), rel, blknum, bound, e.lsn - 1);
        assert(!data_visible(s.last(), rel, blknum, e.lsn - 1));
        assert(page_hist(s, rel, blknum, e.lsn - 1) == page_hist(
            s.drop_last(),
            rel,
            blknum,
            e.lsn - 1,
        ));
    } else {
        crate::relish::lemma_rel_order(s.last().rel, e.rel);
        assert(data_lt(e, s.last()));
        assert forall|p: int, q: int|
            0 <= p < q < s.drop_last().len() implies data_lt(
            #[trigger] s.drop_last()[p],
            #[trigger] s.drop_last()[q],
        ) by {
            assert(s.drop_last()[p] == s[p] && s.drop_last()[q] == s[q]);
        }
        assert forall|j: int|
            0 <= j < s.drop_last().len() && (#[trigger] s.drop_last()[j]).rel == rel
                && s.drop_last()[j].blknum == blknum implies !(e.lsn < s.drop_last()[j].lsn
            <= bound) by {
            assert(s.drop_last()[j] == s[j]);
        }
        lemma_insert_top(s.drop_last(), e, rel, blknum, bound);
        let t = data_insert(s.drop_last(), e).push(s.last());
        assert(t.drop_last() =~= data_insert(s.drop_last(), e));
        assert(t.last() == s.last());
        if data_visible(s.last(), rel, blknum, bound) {
            assert(e.lsn < s.last().lsn <= bound);
            assert(false);
        }
        if data_visible(s.last(), rel, blknum, e.lsn - 1) {
            assert(data_lt(e, s.last()) && s.last().lsn < e.lsn);
            assert(false);
        }
        assert(page_hist(s, rel, blknum, e.lsn - 1) == page_hist(
            s.drop_last(),
            rel,
            blknum,
            e.lsn - 1,
        ));
    }
}

/// Metadata mirror of [`lemma_insert_frame`].
pub proof fn lemma_meta_insert_frame(s: Seq<MetaEntryView>, e: MetaEntryView, rel: RelishTag, bound: int)
    requires
        !meta_visible(e, rel, bound),
    ensures
        meta_hist(meta_insert(s, e), rel, bound) == meta_hist(s, rel, bound),
    decreases s.len(),
{
    if s.len() == 0 {
        assert(seq![e].drop_last() =~= Seq::<MetaEntryView>::empty());
        assert(seq![e].last() == e);
        assert(!meta_visible(seq![e].last(), rel, bound));
        assert(meta_hist(seq![e], rel, bound) == meta_hist(seq![e].drop_last(), rel, bound));
        assert(meta_hist(seq![e].drop_last(), rel, bound) == meta_hist(s, rel, bound));
    } else if meta_lt(s.last(), e) {
        assert(s.push(e).drop_last() =~= s);
    } else if meta_same_key(s.last(), e) {
        let u = s.update(s.len() - 1, e);
        assert(u.last() == e);
        assert(u.drop_last() =~= s.drop_last());
        assert(meta_visible(s.last(), rel, bound) == meta_visible(e, rel, bound));
    } else {
        lemma_meta_insert_frame(s.drop_last(), e, rel, bound);
        let t = meta_insert(s.drop_last(), e).push(s.last());
        assert(t.drop_last() =~= meta_insert(s.drop_last(), e));
        assert(t.last() == s.last());
    }
}

/// Metadata mirror of [`lemma_insert_top`].
pub proof fn lemma_meta_insert_top(s: Seq<MetaEntryView>, e: MetaEntryView, rel: RelishTag, bound: int)
    requires
        meta_sorted(s),
        meta_visible(e, rel, bound),
        forall|j: int|
            0 <= j < s.len() && (#[trigger] s[j]).rel == rel ==> !(e.lsn < s[j].lsn <= bound),
    ensures
        meta_hist(meta_insert(s, e), rel, bound) == meta_hist(s, rel, e.lsn - 1).push(e),
    decreases s.len(),
{
    if s.len() == 0 {
        assert(seq![e].drop_last() =~= Seq::<MetaEntryView>::empty());
        assert(seq![e].last() == e);
        assert(meta_visible(seq![e].last(), rel, bound));
        assert(meta_hist(seq![e], rel, bound) == meta_hist(seq![e].drop_last(), rel, bound).push(
            e,
        ));
        assert(meta_hist(seq![e].drop_last(), rel, bound) == meta_hist(s, rel, bound));
        assert(meta_hist(s, rel, bound) =~= Seq::<MetaEntryView>::empty());
        assert(meta_hist(s, rel, e.lsn - 1) =~= Seq::<MetaEntryView>::empty());
    } else if meta_lt(s.last(), e) {
        assert(s.push(e).drop_last() =~= s);
        assert forall|j: int|
            0 <= j < s.len() && s[j].rel == rel implies ((#[trigger] s[j].lsn <= bound) <==> (
        s[j].lsn <= e.lsn - 1)) by {
            if s[j].lsn <= bound {
                if s[j].lsn == e.lsn {
                    if j < s.len() - 1 {
                        assert(meta_lt(s[j], s.last()));
                    }
                    assert(meta_lt(s[j], e));
                }
            }
        }
        lemma_meta_congruence(s, rel, bound, e.lsn - 1);
    } else if meta_same_key(s.last(), e) {
        let u = s.update(s.len() - 1, e);
        assert(u.last() == e);
        assert(u.drop_last() =~= s.drop_last());
        assert forall|j: int|
            0 <= j < s.drop_last().len() && (#[trigger] s.drop_last()[j]).rel == rel implies ((
        s.drop_last()[j].lsn <= bound) <==> (s.drop_last()[j].lsn <= e.lsn - 1)) by {
            assert(s.drop_last()[j] == s[j]);
            assert(meta_lt(s[j], s.last()));
        }
        lemma_meta_congruence(s.drop_last(), rel, bound, e.lsn - 1);
        assert(!meta_visible(s.last(), rel, e.lsn - 1));
        assert(meta_hist(s, rel, e.lsn - 1) == meta_hist(s.drop_last(), rel, e.lsn - 1));
    } else {
        crate::relish::lemma_rel_order(s.last().rel, e.rel);
        assert(meta_lt(e, s.last()));
        assert forall|p: int, q: int|
            0 <= p < q < s.drop_last().len() implies meta_lt(
            #[trigger] s.drop_last()[p],
            #[trigger] s.drop_last()[q],
        ) by {
            assert(s.drop_last()[p] == s[p] && s.drop_last()[q] == s[q]);
        }
        assert forall|j: int|
            0 <= j < s.drop_last().len() && (#[trigger] s.drop_last()[j]).rel == rel implies !(
        e.lsn < s.drop_last()[j].lsn <= bound) by {
            assert(s.drop_last()[j] == s[j]);
        }
        lemma_meta_insert_top(s.drop_last(), e, rel, bound);
        let t = meta_insert(s.drop_last(), e).push(s.last());
        assert(t.drop_last() =~= meta_insert(s.drop_last(), e));
        assert(t.last() == s.last());
        if meta_visible(s.last(), rel, bound) {
            assert(e.lsn < s.last().lsn <= bound);
            assert(false);
        }
        if meta_visible(s.last(), rel, e.lsn - 1) {
            assert(false);
        }
        assert(meta_hist(s, rel, e.lsn - 1) == meta_hist(s.drop_last(), rel, e.lsn - 1));
    }
}

/// Inserting a row whose key the table already holds replaces that row
/// in place.
pub proof fn lemma_insert_existing(s: Seq<DataEntryView>, e: DataEntryView, k: int)
    requires
        data_sorted(s),
        0 <= k < s.len(),
        data_same_key(e, s[k]),
    ensures
        data_insert(s, e) == s.update(k, e),
    decreases s.len(),
{
    if k == s.len() - 1 {
        assert(s.last() == s[k]);
        crate::relish::lemma_rel_order(s.last().rel, e.rel);
        assert(!data_lt(s.last(), e));
        assert(data_insert(s, e) == s.update(s.len() - 1, e));
    } else {
        assert(data_lt(s[k], s.last()));
        crate::relish::lemma_rel_order(s.last().rel, e.rel);
        assert(data_lt(e, s.last()));
        assert(!data_lt(s.last(), e) && !data_same_key(s.last(), e));
        assert forall|p: int, q: int|
            0 <= p < q < s.drop_last().len() implies data_lt(
            #[trigger] s.drop_last()[p],
            #[trigger] s.drop_last()[q],
        ) by {
            assert(s.drop_last()[p] == s[p] && s.drop_last()[q] == s[q]);
        }
        assert(s.drop_last()[k] == s[k]);
        lemma_insert_existing(s.drop_last(), e, k);
        assert(data_insert(s, e) == data_insert(s.drop_last(), e).push(s.last()));
        assert(s.drop_last().update(k, e).push(s.last()) =~= s.update(k, e));
    }
}

/// Two tables of the same length that agree on which rows belong to the
/// page and on those rows themselves have the same page history.
pub proof fn lemma_hist_same_entries(
    s1: Seq<DataEntryView>,
    s2: Seq<DataEntryView>,
    rel: RelishTag,
    blknum: u32,
    bound: int,
)
    requires
        s1.len() == s2.len(),
        forall|j: int|
            0 <= j < s1.len() && ((#[trigger] s1[j]).rel == rel && s1[j].blknum == blknum || (
            #[trigger] s2[j]).rel == rel && s2[j].blknum == blknum) ==> s1[j] == s2[j],
    ensures
        page_hist(s1, rel, blknum, bound) == page_hist(s2, rel, blknum, bound),
    decreases s1.len(),
{
    if s1.len() > 0 {
        assert(s1.last() == s1[s1.len() - 1] && s2.last() == s2[s2.len() - 1]);
        assert forall|j: int|
            0 <= j < s1.drop_last().len() && ((#[trigger] s1.drop_last()[j]).rel == rel
                && s1.drop_last()[j].blknum == blknum || (#[trigger] s2.drop_last()[j]).rel == rel
                && s2.drop_last()[j].blknum == blknum) implies s1.drop_last()[j]
            == s2.drop_last()[j] by {
            assert(s1.drop_last()[j] == s1[j] && s2.drop_last()[j] == s2[j]);
        }
        lemma_hist_same_entries(s1.drop_last(), s2.drop_last(), rel, blknum, bound);
    }
}

/// Which entities a listing asks for.
#[derive(Clone, Copy, Debug, PartialEq, Eq, Structural)]
pub enum RelishFilter {
    /// Relation forks of one tablespace and database.
    InDb { spcnode: u32, dbnode: u32 },
    /// Every non-relational entity.
    NonRel,
}

/// Whether `rel` falls under the filter.
pub open spec fn filter_matches(f: RelishFilter, rel: RelishTag) -> bool {
    match f {
        RelishFilter::InDb { spcnode, dbnode } => crate::relish::rel_in_db(rel, spcnode, dbnode),
        RelishFilter::NonRel => crate::relish::is_nonrel(rel),
    }
}

/// Whether row `p` is the newest visible metadata row of its entity, the
/// entity falls under the filter, and the row is not a tombstone: the
/// rows a listing emits.
pub open spec fn is_emit(s: Seq<MetaEntryView>, p: int, f: RelishFilter, bound: int) -> bool {
    &&& 0 <= p < s.len()
    &&& filter_matches(f, s[p].rel)
    &&& s[p].lsn <= bound
    &&& s[p].size is Some
    &&& (p + 1 == s.len() || s[p + 1].rel != s[p].rel || s[p + 1].lsn > bound)
}

/// The entities a scan of the first `n` metadata rows emits, in row
/// order: exactly what a listing returns.
pub open spec fn emit_listing(
    s: Seq<MetaEntryView>,
    f: RelishFilter,
    bound: int,
    n: int,
) -> Seq<RelishTag>
    decreases n,
{
    if n <= 0 {
        Seq::empty()
    } else {
        let p = emit_listing(s, f, bound, n - 1);
        if is_emit(s, n - 1, f, bound) {
            p.push(s[n - 1].rel)
        } else {
            p
        }
    }
}

/// Mathematical image of the whole store.
#[verifier::ext_equal]
pub struct StoreView {
    pub data: Seq<DataEntryView>,
    pub meta: Seq<MetaEntryView>,
}

/// The versioned store: both tables, kept sorted.
#[derive(Debug)]
pub struct VersionedStore {
    data: Vec<DataEntry>,
    meta: Vec<MetaEntry>,
}

impl View for VersionedStore {
    type V = StoreView;

    closed spec fn view(&self) -> StoreView {
        StoreView {
            data: self.data@.map(|i: int, e: DataEntry| e@),
            meta: self.meta@.map(|i: int, e: MetaEntry| e@),
        }
    }
}

/// Well-formedness of a store: both tables strictly sorted.
pub open spec fn store_wf(s: StoreView) -> bool {
    data_sorted(s.data) && meta_sorted(s.meta)
}

impl VersionedStore {
    /// An empty store.
    pub fn new() -> (r: VersionedStore)
        ensures
            store_wf(r@),
            r@.data.len() == 0,
            r@.meta.len() == 0,
    {
        let r = VersionedStore { data: Vec::new(), meta: Vec::new() };
        proof {
            assert(r@.data =~= Seq::<DataEntryView>::empty());
            assert(r@.meta =~= Seq::<MetaEntryView>::empty());
        }
        r
    }

    /// Number of `Data` rows.
    pub fn data_len(&self) -> (n: usize)
        ensures
            n == self@.data.len(),
    {
        self.data.len()
    }

    /// Number of `Metadata` rows.
    pub fn meta_len(&self) -> (n: usize)
        ensures
            n == self@.meta.len(),
    {
        self.meta.len()
    }

    /// Store a page version under `(rel, blknum, lsn)`, replacing any
    /// version already stored under the same key.
    #[verifier::rlimit(60)]
    pub fn data_put(&mut self, rel: RelishTag, blknum: u32, lsn: Lsn, val: PageVersion)
        requires
            store_wf(old(self)@),
        ensures
            store_wf(final(self)@),
            final(self)@.data == data_insert(
                old(self)@.data,
                DataEntryView { rel, blknum, lsn: lsn.0, val: val@ },
            ),
            final(self)@.meta == old(self)@.meta,
    {
        let entry = DataEntry { rel, blknum, lsn, val };
        let ghost ev = entry@;
        let ghost orig = self.data@.map(|i: int, e: DataEntry| e@);
        let mut i: usize = self.data.len();
        proof {
            assert(orig.take(i as int) =~= orig);
            assert(data_insert(orig, ev) + orig.skip(i as int) =~= data_insert(orig, ev));
        }
        while i > 0 && Self::data_entry_lt_exec(&entry, &self.data[i - 1])
            invariant
                i <= self.data.len(),
                store_wf(self@),
                self@ == old(self)@,
                entry@ == ev,
                orig == self@.data,
                forall|j: int| i <= j < orig.len() ==> data_lt(ev, #[trigger] orig[j]),
                data_insert(orig, ev) == data_insert(orig.take(i as int), ev) + orig.skip(i as int),
            decreases i,
        {
            proof {
                let pre = orig.take(i as int);
                assert(pre.last() == orig[i - 1]);
                crate::relish::lemma_rel_order(orig[i - 1].rel, ev.rel);
                assert(!data_lt(pre.last(), ev));
                assert(!data_same_key(pre.last(), ev));
                assert(data_insert(pre, ev) == data_insert(pre.drop_last(), ev).push(pre.last()));
                assert(pre.drop_last() =~= orig.take(i - 1));
                assert(data_insert(orig.take(i - 1), ev).push(orig[i - 1]) + orig.skip(i as int)
                    =~= data_insert(orig.take(i - 1), ev) + orig.skip(i - 1));
            }
            i = i - 1;
        }
        if i > 0 && Self::data_entry_same_key_exec(&entry, &self.data[i - 1]) {
            proof {
                let pre = orig.take(i as int);
                assert(pre.last() == orig[i - 1]);
                assert(data_insert(pre, ev) == pre.update(i - 1, ev));
                assert(pre.update(i - 1, ev) + orig.skip(i as int) =~= orig.update(i - 1, ev));
            }
            let _old_entry = self.data.remove(i - 1);
            self.data.insert(i - 1, entry);
            proof {
                let newdata = self@.data;
                assert(newdata =~= orig.update(i - 1, ev));
                assert forall|p: int, q: int| 0 <= p < q < newdata.len() implies data_lt(
                    #[trigger] newdata[p],
                    #[trigger] newdata[q],
                ) by {
                    if p == i - 1 {
                        assert(data_lt(orig[p], orig[q]));
                    } else if q == i - 1 {
                        assert(data_lt(orig[p], orig[q]));
                    }
                }
            }
        } else {
            proof {
                let pre = orig.take(i as int);
                if i > 0 {
                    assert(pre.last() == orig[i - 1]);
                    crate::relish::lemma_rel_order(orig[i - 1].rel, ev.rel);
                    assert(data_lt(pre.last(), ev));
                    assert(data_insert(pre, ev) == pre.push(ev));
                } else {
                    assert(pre =~= Seq::<DataEntryView>::empty());
                    assert(data_insert(pre, ev) == seq![ev]);
                    assert(pre.push(ev) =~= seq![ev]);
                }
                assert(pre.push(ev) + orig.skip(i as int) =~= orig.insert(i as int, ev));
            }
            self.data.insert(i, entry);
            proof {
                let newdata = self@.data;
                assert(newdata =~= orig.insert(i as int, ev));
                assert forall|p: int, q: int| 0 <= p < q < newdata.len() implies data_lt(
                    #[trigger] newdata[p],
                    #[trigger] newdata[q],
                ) by {
                    let op = if p < i { p } else { p - 1 };
                    let oq = if q < i { q } else { q - 1 };
                    if p == i {
                        assert(newdata[q] == orig[oq]);
                    } else if q == i {
                        assert(newdata[p] == orig[op]);
                        if op < i - 1 {
                            assert(data_lt(orig[op], orig[i - 1]));
                        }
                    } else {
                        assert(newdata[p] == orig[op] && newdata[q] == orig[oq]);
                    }
                }
            }
        }
        proof {
            assert(final(self)@.meta =~= old(self)@.meta);
        }
    }

    /// Store a metadata row under `(rel, lsn)`, replacing any row already
    /// stored under the same key.
    #[verifier::rlimit(60)]
    pub fn meta_put(&mut self, rel: RelishTag, lsn: Lsn, size: Option<u32>)
        requires
            store_wf(old(self)@),
        ensures
            store_wf(final(self)@),
            final(self)@.meta == meta_insert(
                old(self)@.meta,
                MetaEntryView { rel, lsn: lsn.0, size },
            ),
            final(self)@.data == old(self)@.data,
    {
        let entry = MetaEntry { rel, lsn, size };
        let ghost ev = entry@;
        let ghost orig = self.meta@.map(|i: int, e: MetaEntry| e@);
        let mut i: usize = self.meta.len();
        proof {
            assert(orig.take(i as int) =~= orig);
            assert(meta_insert(orig, ev) + orig.skip(i as int) =~= meta_insert(orig, ev));
        }
        while i > 0 && Self::meta_entry_lt_exec(&entry, &self.meta[i - 1])
            invariant
                i <= self.meta.len(),
                store_wf(self@),
                self@ == old(self)@,
                entry@ == ev,
                orig == self@.meta,
                forall|j: int| i <= j < orig.len() ==> meta_lt(ev, #[trigger] orig[j]),
                meta_insert(orig, ev) == meta_insert(orig.take(i as int), ev) + orig.skip(i as int),
            decreases i,
        {
            proof {
                let pre = orig.take(i as int);
                assert(pre.last() == orig[i - 1]);
                crate::relish::lemma_rel_order(orig[i - 1].rel, ev.rel);
                assert(!meta_lt(pre.last(), ev));
                assert(!meta_same_key(pre.last(), ev));
                assert(meta_insert(pre, ev) == meta_insert(pre.drop_last(), ev).push(pre.last()));
                assert(pre.drop_last() =~= orig.take(i - 1));
                assert(meta_insert(orig.take(i - 1), ev).push(orig[i - 1]) + orig.skip(i as int)
                    =~= meta_insert(orig.take(i - 1), ev) + orig.skip(i - 1));
            }
            i = i - 1;
        }
        if i > 0 && Self::meta_entry_same_key_exec(&entry, &self.meta[i - 1]) {
            proof {
                let pre = orig.take(i as int);
                assert(pre.last() == orig[i - 1]);
                assert(meta_insert(pre, ev) == pre.update(i - 1, ev));
                assert(pre.update(i - 1, ev) + orig.skip(i as int) =~= orig.update(i - 1, ev));
            }
            let _old_entry = self.meta.remove(i - 1);
            self.meta.insert(i - 1, entry);
            proof {
                let newmeta = self@.meta;
                assert(newmeta =~= orig.update(i - 1, ev));
                assert forall|p: int, q: int| 0 <= p < q < newmeta.len() implies meta_lt(
                    #[trigger] newmeta[p],
                    #[trigger] newmeta[q],
                ) by {
                    if p == i - 1 {
                        assert(meta_lt(orig[p], orig[q]));
                    } else if q == i - 1 {
                        assert(meta_lt(orig[p], orig[q]));
                    }
                }
            }
        } else {
            proof {
                let pre = orig.take(i as int);
                if i > 0 {
                    assert(pre.last() == orig[i - 1]);
                    crate::relish::lemma_rel_order(orig[i - 1].rel, ev.rel);
                    assert(meta_lt(pre.last(), ev));
                    assert(meta_insert(pre, ev) == pre.push(ev));
                } else {
                    assert(pre =~= Seq::<MetaEntryView>::empty());
                    assert(meta_insert(pre, ev) == seq![ev]);
                    assert(pre.push(ev) =~= seq![ev]);
                }
                assert(pre.push(ev) + orig.skip(i as int) =~= orig.insert(i as int, ev));
            }
            self.meta.insert(i, entry);
            proof {
                let newmeta = self@.meta;
                assert(newmeta =~= orig.insert(i as int, ev));
                assert forall|p: int, q: int| 0 <= p < q < newmeta.len() implies meta_lt(
                    #[trigger] newmeta[p],
                    #[trigger] newmeta[q],
                ) by {
                    let op = if p < i { p } else { p - 1 };
                    let oq = if q < i { q } else { q - 1 };
                    if p == i {
                        assert(newmeta[q] == orig[oq]);
                    } else if q == i {
                        assert(newmeta[p] == orig[op]);
                        if op < i - 1 {
                            assert(meta_lt(orig[op], orig[i - 1]));
                        }
                    } else {
                        assert(newmeta[p] == orig[op] && newmeta[q] == orig[oq]);
                    }
                }
            }
        }
        proof {
            assert(final(self)@.data =~= old(self)@.data);
        }
    }

    /// Index of the newest version of page `(rel, blknum)` with LSN at or
    /// below `bound`, or `None` when the page has no visible version.
    pub fn find_top(&self, rel: &RelishTag, blknum: u32, bound: Lsn) -> (r: Option<usize>)
        requires
            store_wf(self@),
        ensures
            match r {
                None => page_hist(self@.data, *rel, blknum, bound.0 as int).len() == 0,
                Some(k) => {
                    let h = page_hist(self@.data, *rel, blknum, bound.0 as int);
                    &&& h.len() > 0
                    &&& k < self@.data.len()
                    &&& self@.data[k as int] == h.last()
                    &&& data_visible(self@.data[k as int], *rel, blknum, bound.0 as int)
                },
            },
    {
        let ghost s = self@.data;
        let ghost bd = bound.0 as int;
        let mut best: Option<usize> = None;
        let mut i: usize = 0;
        proof {
            assert(s.take(0) =~= Seq::<DataEntryView>::empty());
        }
        while i < self.data.len()
            invariant
                store_wf(self@),
                s == self@.data,
                i <= s.len(),
                bd == bound.0 as int,
                match best {
                    None => page_hist(s.take(i as int), *rel, blknum, bd).len() == 0,
                    Some(k) => {
                        let h = page_hist(s.take(i as int), *rel, blknum, bd);
                        &&& h.len() > 0
                        &&& k < i
                        &&& s[k as int] == h.last()
                        &&& data_visible(s[k as int], *rel, blknum, bd)
                    },
                },
            decreases self.data.len() - i,
        {
            let e = &self.data[i];
            proof {
                assert(s.take(i + 1).drop_last() =~= s.take(i as int));
                assert(s.take(i + 1).last() == s[i as int]);
            }
            if e.rel.cmp_key(rel) == 0 && e.blknum == blknum && e.lsn.0 <= bound.0 {
                best = Some(i);
            }
            i = i + 1;
        }
        proof {
            assert(s.take(s.len() as int) =~= s);
        }
        best
    }

    /// Collect the reconstruction chain of page `(rel, blknum)` visible at
    /// `bound` from this store alone: the base image, if one is stored,
    /// and the delta records above it in chronological order.
    pub fn collect_local_chain(&self, rel: &RelishTag, blknum: u32, bound: Lsn) -> (r: LocalChain)
        requires
            store_wf(self@),
        ensures
            r.abs() == chain_of(page_hist(self@.data, *rel, blknum, bound.0 as int)),
    {
        let ghost s = self@.data;
        let ghost bd = bound.0 as int;
        let ghost hfull = page_hist(s, *rel, blknum, bd);
        let top_opt = self.find_top(rel, blknum, bound);
        let top = match top_opt {
            None => {
                let r = LocalChain { base: None, recs: Vec::new() };
                proof {
                    assert(r.abs().recs =~= chain_of(hfull).recs);
                }
                return r;
            },
            Some(k) => k,
        };
        proof {
            lemma_hist_last(s, *rel, blknum, bd);
            assert(hfull == page_hist(s, *rel, blknum, s[top as int].lsn as int));
        }
        let dlen: usize = self.data.len();
        let mut cur: usize = top;
        let mut base: Option<Vec<u8>> = None;
        loop
            invariant_except_break
                store_wf(self@),
                s == self@.data,
                hfull == page_hist(s, *rel, blknum, bd),
                s.len() == dlen,
                0 <= cur <= top < s.len(),
                s[cur as int].rel == *rel && s[cur as int].blknum == blknum,
                forall|p: int|
                    cur < p <= top ==> (#[trigger] s[p]).rel == *rel && s[p].blknum == blknum
                        && s[p].val is Delta && !delta_rec(s[p].val).will_init,
                base is None,
                chain_of(hfull) == (Chain {
                    base: chain_of(page_hist(s, *rel, blknum, s[cur as int].lsn as int)).base,
                    recs: chain_of(page_hist(s, *rel, blknum, s[cur as int].lsn as int)).recs
                        + Seq::new((top - cur) as nat, |j: int| delta_pair(s[cur + 1 + j])),
                }),
            ensures
                ({
                    let first = if base is Some { cur + 1 } else { cur as int };
                    &&& cur <= top < s.len()
                    &&& s.len() == dlen
                    &&& s == self@.data
                    &&& 0 <= first <= top + 1
                    &&& forall|p: int|
                        first <= p <= top ==> (#[trigger] s[p]).val is Delta && s[p].rel == *rel
                            && s[p].blknum == blknum
                    &&& chain_of(hfull).recs == Seq::new(
                        (top + 1 - first) as nat,
                        |j: int| delta_pair(s[first + j]),
                    )
                    &&& chain_of(hfull).base == (match base {
                        Some(v) => Some(v@),
                        None => None::<Seq<u8>>,
                    })
                }),
            decreases cur,
        {
            let ghost hcur = page_hist(s, *rel, blknum, s[cur as int].lsn as int);
            proof {
                lemma_top_index(s, *rel, blknum, s[cur as int].lsn as int, cur as int);
                assert(hcur.last() == s[cur as int]);
            }
            match &self.data[cur].val {
                PageVersion::Image(img) => {
                    proof {
                        assert(chain_of(hcur) == Chain {
                            base: Some(img@),
                            recs: Seq::<(u64, WalRecordView)>::empty(),
                        });
                        assert(chain_of(hfull).recs =~= Seq::new(
                            (top - cur) as nat,
                            |j: int| delta_pair(s[cur + 1 + j]),
                        ));
                    }
                    base = Some(copy_bytes(img));
                    break;
                },
                PageVersion::Delta(r) => {
                    if r.will_init {
                        proof {
                            assert(chain_of(hcur) == Chain {
                                base: None::<Seq<u8>>,
                                recs: seq![(s[cur as int].lsn, delta_rec(s[cur as int].val))],
                            });
                            assert(chain_of(hfull).recs =~= Seq::new(
                                (top + 1 - cur) as nat,
                                |j: int| delta_pair(s[cur + j]),
                            ));
                        }
                        break;
                    }
                    proof {
                        lemma_hist_last(s, *rel, blknum, s[cur as int].lsn as int);
                        assert(hcur.drop_last() == page_hist(
                            s,
                            *rel,
                            blknum,
                            s[cur as int].lsn - 1,
                        ));
                        assert(chain_of(hcur) == Chain {
                            base: chain_of(hcur.drop_last()).base,
                            recs: chain_of(hcur.drop_last()).recs.push(delta_pair(s[cur as int])),
                        });
                    }
                    let has_pred = cur > 0 && {
                        let p = &self.data[cur - 1];
                        p.rel.cmp_key(rel) == 0 && p.blknum == blknum
                    };
                    if has_pred {
                        proof {
                            lemma_top_index(s, *rel, blknum, s[cur as int].lsn - 1, cur - 1);
                            lemma_hist_last(s, *rel, blknum, s[cur as int].lsn - 1);
                            assert(page_hist(s, *rel, blknum, s[cur as int].lsn - 1)
                                == page_hist(s, *rel, blknum, s[cur - 1].lsn as int));
                            assert(chain_of(page_hist(s, *rel, blknum, s[cur - 1].lsn as int)).recs
                                + Seq::new((top - (cur - 1)) as nat, |j: int| delta_pair(s[cur + j]))
                                =~= (chain_of(page_hist(s, *rel, blknum, s[cur - 1].lsn as int)).recs
                                    .push(delta_pair(s[cur as int])))
                                + Seq::new((top - cur) as nat, |j: int| delta_pair(s[cur + 1 + j])));
                        }
                        cur = cur - 1;
                    } else {
                        proof {
                            assert forall|j: int|
                                0 <= j < s.len() implies !data_visible(
                                #[trigger] s[j],
                                *rel,
                                blknum,
                                s[cur as int].lsn - 1,
                            ) by {
                                if j < cur && s[j].rel == *rel && s[j].blknum == blknum {
                                    if cur == 0 {
                                    } else {
                                        lemma_page_contiguous(s, *rel, blknum, j, cur - 1, cur as int);
                                    }
                                } else if j >= cur && s[j].rel == *rel && s[j].blknum == blknum {
                                    if j > cur {
                                        assert(data_lt(s[cur as int], s[j]));
                                    }
                                }
                            }
                            lemma_hist_empty(s, *rel, blknum, s[cur as int].lsn - 1);
                            assert(chain_of(hcur) == Chain {
                                base: None::<Seq<u8>>,
                                recs: seq![(s[cur as int].lsn, delta_rec(s[cur as int].val))],
                            });
                            assert(chain_of(hfull).recs =~= Seq::new(
                                (top + 1 - cur) as nat,
                                |j: int| delta_pair(s[cur + j]),
                            ));
                        }
                        break;
                    }
                },
            }
        }
        let first: usize = if base.is_some() {
            cur + 1
        } else {
            cur
        };
        let mut recs: Vec<ChainRec> = Vec::new();
        let mut j: usize = first;
        proof {
            assert(recs@.map(|i: int, r: ChainRec| r@) =~= Seq::<(u64, WalRecordView)>::empty());
        }
        while j <= top
            invariant
                store_wf(self@),
                s == self@.data,
                first <= j <= top + 1,
                top < s.len(),
                s.len() == dlen,
                forall|p: int|
                    first <= p <= top ==> (#[trigger] s[p]).val is Delta,
                recs@.map(|i: int, r: ChainRec| r@) == Seq::new(
                    (j - first) as nat,
                    |q: int| delta_pair(s[first + q]),
                ),
            decreases top + 1 - j,
        {
            let ghost prevvec = recs@;
            proof {
                assert(s[j as int] == self.data@[j as int]@);
            }
            match &self.data[j].val {
                PageVersion::Delta(r) => {
                    let c = ChainRec { lsn: self.data[j].lsn, rec: r.duplicate() };
                    proof {
                        assert(c@ == delta_pair(s[j as int]));
                    }
                    recs.push(c);
                },
                PageVersion::Image(_) => {
                    proof {
                        assert(s[j as int].val is Delta);
                        assert(false);
                    }
                    return vstd::pervasive::unreached();
                },
            }
            j = j + 1;
            proof {
                let newm = recs@.map(|i: int, r: ChainRec| r@);
                let tgt = Seq::new((j - first) as nat, |q: int| delta_pair(s[first + q]));
                let prevm = prevvec.map(|i: int, r: ChainRec| r@);
                assert(prevm == Seq::new((j - 1 - first) as nat, |q: int| delta_pair(s[first + q])));
                assert(newm.len() == tgt.len());
                assert forall|q: int| 0 <= q < newm.len() implies newm[q] == tgt[q] by {
                    assert(newm[q] == recs@[q]@);
                    if q < newm.len() - 1 {
                        assert(recs@[q] == prevvec[q]);
                        assert(prevm[q] == prevvec[q]@);
                        assert(prevm[q] == delta_pair(s[first + q]));
                    } else {
                        assert(recs@[q]@ == delta_pair(s[j - 1]));
                    }
                }
                assert(newm =~= tgt);
            }
        }
        let out = LocalChain { base, recs };
        proof {
            assert(out.abs().recs == chain_of(hfull).recs);
            assert(out.abs() == chain_of(hfull));
        }
        out
    }

    /// The latest metadata row of `rel` at or below `bound`:
    /// `None` when no row is visible, `Some(None)` when the entity was
    /// dropped, `Some(Some(size))` otherwise.
    pub fn size_lookup(&self, rel: &RelishTag, bound: Lsn) -> (r: Option<Option<u32>>)
        requires
            store_wf(self@),
        ensures
            r == size_at(self@.meta, *rel, bound.0 as int),
    {
        let ghost s = self@.meta;
        let ghost bd = bound.0 as int;
        let mut best: Option<MetaEntry> = None;
        let mut i: usize = 0;
        proof {
            assert(s.take(0) =~= Seq::<MetaEntryView>::empty());
        }
        while i < self.meta.len()
            invariant
                store_wf(self@),
                s == self@.meta,
                i <= s.len(),
                bd == bound.0 as int,
                match best {
                    None => meta_hist(s.take(i as int), *rel, bd).len() == 0,
                    Some(e) => {
                        let h = meta_hist(s.take(i as int), *rel, bd);
                        &&& h.len() > 0
                        &&& e@ == h.last()
                        &&& meta_visible(e@, *rel, bd)
                    },
                },
            decreases self.meta.len() - i,
        {
            let e = self.meta[i];
            proof {
                assert(s.take(i + 1).drop_last() =~= s.take(i as int));
                assert(s.take(i + 1).last() == s[i as int]);
                assert(s[i as int] == self.meta@[i as int]@);
            }
            if e.rel.cmp_key(rel) == 0 && e.lsn.0 <= bound.0 {
                best = Some(e);
            }
            i = i + 1;
        }
        proof {
            assert(s.take(s.len() as int) =~= s);
        }
        match best {
            None => None,
            Some(e) => Some(e.size),
        }
    }

    /// List every entity under the filter that exists (has a visible,
    /// non-tombstone metadata row) at `bound`. The result holds each
    /// entity once.
    pub fn list_relishes(&self, f: &RelishFilter, bound: Lsn) -> (out: Vec<RelishTag>)
        requires
            store_wf(self@),
        ensures
            forall|r: RelishTag|
                #[trigger] out@.contains(r) <==> (filter_matches(*f, r) && size_at(
                    self@.meta,
                    r,
                    bound.0 as int,
                ) matches Some(Some(_))),
            forall|i: int, j: int| 0 <= i < j < out@.len() ==> out@[i] != out@[j],
            out@ == emit_listing(self@.meta, *f, bound.0 as int, self@.meta.len() as int),
    {
        let ghost s = self@.meta;
        let ghost bd = bound.0 as int;
        let mut out: Vec<RelishTag> = Vec::new();
        let mlen: usize = self.meta.len();
        let mut i: usize = 0;
        while i < mlen
            invariant
                store_wf(self@),
                s == self@.meta,
                i <= mlen,
                s.len() == mlen,
                bd == bound.0 as int,
                forall|r: RelishTag|
                    #[trigger] out@.contains(r) <==> exists|p: int|
                        p < i && #[trigger] is_emit(s, p, *f, bd) && s[p].rel == r,
                forall|p: int, q: int| 0 <= p < q < out@.len() ==> out@[p] != out@[q],
                out@ == emit_listing(s, *f, bd, i as int),
            decreases mlen - i,
        {
            let e = self.meta[i];
            proof {
                assert(s[i as int] == self.meta@[i as int]@);
            }
            let in_filter = match f {
                RelishFilter::InDb { spcnode, dbnode } => crate::relish::is_rel_in_db(
                    &e.rel,
                    *spcnode,
                    *dbnode,
                ),
                RelishFilter::NonRel => crate::relish::is_nonrel_tag(&e.rel),
            };
            let is_last = i + 1 == mlen || {
                let n = self.meta[i + 1];
                proof {
                    assert(s[i + 1] == self.meta@[i + 1]@);
                }
                n.rel.cmp_key(&e.rel) != 0 || n.lsn.0 > bound.0
            };
            if in_filter && e.lsn.0 <= bound.0 && e.size.is_some() && is_last {
                proof {
                    assert(is_emit(s, i as int, *f, bd));
                    assert forall|p: int|
                        p < i && #[trigger] is_emit(s, p, *f, bd) implies s[p].rel != s[i as int].rel by {
                        if s[p].rel == s[i as int].rel {
                            lemma_meta_contiguous(s, s[p].rel, p, p + 1, i as int);
                            if p + 1 < i {
                                assert(meta_lt(s[p + 1], s[i as int]));
                            }
                        }
                    }
                }
                let ghost oldout = out@;
                out.push(e.rel);
                proof {
                    assert forall|r: RelishTag| #[trigger] out@.contains(r) implies exists|p: int|
                        p < i + 1 && #[trigger] is_emit(s, p, *f, bd) && s[p].rel == r by {
                        if r == s[i as int].rel {
                            assert(is_emit(s, i as int, *f, bd) && s[i as int].rel == r);
                        } else {
                            let q = choose|q: int| 0 <= q < out@.len() && out@[q] == r;
                            assert(oldout[q] == r);
                            assert(oldout.contains(r));
                        }
                    }
                    assert forall|r: RelishTag|
                        (exists|p: int| p < i + 1 && #[trigger] is_emit(s, p, *f, bd) && s[p].rel == r)
                        implies #[trigger] out@.contains(r) by {
                        let p = choose|p: int| p < i + 1 && #[trigger] is_emit(s, p, *f, bd) && s[p].rel == r;
                        if p < i {
                            assert(oldout.contains(r));
                            let q = choose|q: int| 0 <= q < oldout.len() && oldout[q] == r;
                            assert(out@[q] == r);
                        } else {
                            assert(out@[out@.len() - 1] == r);
                        }
                    }
                    assert forall|p: int, q: int|
                        0 <= p < q < out@.len() implies out@[p] != out@[q] by {
                        if q == out@.len() - 1 {
                            assert(oldout.contains(oldout[p]));
                        }
                    }
                }
            } else {
                proof {
                    assert(!is_emit(s, i as int, *f, bd));
                    assert forall|p: int| p < i + 1 && #[trigger] is_emit(s, p, *f, bd) implies p < i by {
                    }
                }
            }
            i = i + 1;
        }
        proof {
            assert forall|r: RelishTag| #[trigger] out@.contains(r) implies (filter_matches(*f, r)
                && size_at(s, r, bd) matches Some(Some(_))) by {
                let p = choose|p: int| p < mlen && #[trigger] is_emit(s, p, *f, bd) && s[p].rel == r;
                assert forall|j: int| p < j < s.len() implies !meta_visible(#[trigger] s[j], r, bd) by {
                    if s[j].rel == r {
                        lemma_meta_contiguous(s, r, p, p + 1, j);
                        if p + 1 < j {
                            assert(meta_lt(s[p + 1], s[j]));
                        }
                    }
                }
                lemma_meta_top_index(s, r, bd, p);
            }
            assert forall|r: RelishTag| filter_matches(*f, r) && (size_at(s, r, bd) matches Some(
                Some(_),
            )) implies #[trigger] out@.contains(r) by {
                let k = lemma_meta_last_index(s, r, bd);
                assert(is_emit(s, k, *f, bd));
            }
        }
        out
    }

    /// The key of `Data` row `k`.
    pub fn data_key_at(&self, k: usize) -> (r: (RelishTag, u32, Lsn))
        requires
            k < self@.data.len(),
        ensures
            r.0 == self@.data[k as int].rel,
            r.1 == self@.data[k as int].blknum,
            r.2.0 == self@.data[k as int].lsn,
    {
        let e = &self.data[k];
        proof {
            assert(self@.data[k as int] == self.data@[k as int]@);
        }
        (e.rel, e.blknum, e.lsn)
    }

    /// Whether `Data` row `k` holds a delta record.
    pub fn data_is_delta_at(&self, k: usize) -> (r: bool)
        requires
            k < self@.data.len(),
        ensures
            r == (self@.data[k as int].val is Delta),
    {
        proof {
            assert(self@.data[k as int] == self.data@[k as int]@);
        }
        match &self.data[k].val {
            PageVersion::Delta(_) => true,
            PageVersion::Image(_) => false,
        }
    }

    /// Whether `a` sorts strictly before `b` in the `Data` table.
    fn data_entry_lt_exec(a: &DataEntry, b: &DataEntry) -> (r: bool)
        ensures
            r == data_lt(a@, b@),
    {
        let c = a.rel.cmp_key(&b.rel);
        if c == -1 {
            true
        } else if c == 1 {
            false
        } else {
            a.blknum < b.blknum || (a.blknum == b.blknum && a.lsn.0 < b.lsn.0)
        }
    }

    /// Whether `a` and `b` share a `Data` key.
    fn data_entry_same_key_exec(a: &DataEntry, b: &DataEntry) -> (r: bool)
        ensures
            r == data_same_key(a@, b@),
    {
        a.rel.cmp_key(&b.rel) == 0 && a.blknum == b.blknum && a.lsn.0 == b.lsn.0
    }

    /// Whether `a` sorts strictly before `b` in the `Metadata` table.
    fn meta_entry_lt_exec(a: &MetaEntry, b: &MetaEntry) -> (r: bool)
        ensures
            r == meta_lt(a@, b@),
    {
        let c = a.rel.cmp_key(&b.rel);
        if c == -1 {
            true
        } else if c == 1 {
            false
        } else {
            a.lsn.0 < b.lsn.0
        }
    }

    /// Whether `a` and `b` share a `Metadata` key.
    fn meta_entry_same_key_exec(a: &MetaEntry, b: &MetaEntry) -> (r: bool)
        ensures
            r == meta_same_key(a@, b@),
    {
        a.rel.cmp_key(&b.rel) == 0 && a.lsn.0 == b.lsn.0
    }
}

} // verus!
