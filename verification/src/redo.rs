//! The WAL redo collaborator.
//!
//! Page reconstruction hands a base image and a chronological run of
//! delta records to a redo manager, which replays them into a page. The
//! repository does not care how a manager replays records; it relies on
//! two laws every manager must prove: a bare base image replays to
//! itself, and replaying a chain in two halves equals replaying it
//! whole. [`SimpleRedoManager`] is a small verified manager used by the
//! test suite; a production manager wraps an external redo process.

use vstd::prelude::*;

use crate::error::RepoError;
use crate::lsn::Lsn;
use crate::relish::RelishTag;
use crate::store::{ChainRec, WalRecordView};

verus! {

/// Size of one page in bytes.
pub const PAGE_SZ: usize = 8192;

/// The base image as the specification sees it.
pub open spec fn opt_bytes_view(b: Option<Vec<u8>>) -> Option<Seq<u8>> {
    match b {
        Some(v) => Some(v@),
        None => None,
    }
}

/// The record run as the specification sees it.
pub open spec fn chain_recs_view(rs: Seq<ChainRec>) -> Seq<(u64, WalRecordView)> {
    rs.map(|i: int, r: ChainRec| r@)
}

/// Replays WAL records over base images.
pub trait RedoManager: Sized {
    /// Whether replaying `recs` over `base` succeeds.
    spec fn redo_ok(&self, base: Option<Seq<u8>>, recs: Seq<(u64, WalRecordView)>) -> bool;

    /// The page that replaying `recs` over `base` produces.
    spec fn redo_spec(&self, base: Option<Seq<u8>>, recs: Seq<(u64, WalRecordView)>) -> Seq<u8>;

    /// Law: a base image with nothing to replay is the page itself.
    proof fn redo_base_law(&self, b: Seq<u8>)
        ensures
            self.redo_ok(Some(b), Seq::<(u64, WalRecordView)>::empty()),
            self.redo_spec(Some(b), Seq::<(u64, WalRecordView)>::empty()) == b,
    ;

    /// Law: replaying a chain in two halves equals replaying it whole.
    proof fn redo_compose_law(
        &self,
        base: Option<Seq<u8>>,
        r1: Seq<(u64, WalRecordView)>,
        r2: Seq<(u64, WalRecordView)>,
    )
        requires
            self.redo_ok(base, r1),
        ensures
            self.redo_ok(base, r1 + r2) == self.redo_ok(Some(self.redo_spec(base, r1)), r2),
            self.redo_ok(base, r1 + r2) ==> self.redo_spec(base, r1 + r2) == self.redo_spec(
                Some(self.redo_spec(base, r1)),
                r2,
            ),
    ;

    /// Law: a chain that starts from a base — an image, or a record that
    /// initializes the page — and fails to replay still fails with more
    /// records appended.
    proof fn redo_prefix_law(
        &self,
        base: Option<Seq<u8>>,
        r1: Seq<(u64, WalRecordView)>,
        r2: Seq<(u64, WalRecordView)>,
    )
        requires
            base is Some || (r1.len() > 0 && r1[0].1.will_init),
            !self.redo_ok(base, r1),
        ensures
            !self.redo_ok(base, r1 + r2),
    ;

    /// Replay `records` over `base` and hand back the materialized page.
    fn request_redo(
        &self,
        rel: RelishTag,
        blknum: u32,
        lsn: Lsn,
        base: Option<Vec<u8>>,
        records: Vec<ChainRec>,
    ) -> (r: Result<Vec<u8>, RepoError>)
        ensures
            (r is Ok) == self.redo_ok(opt_bytes_view(base), chain_recs_view(records@)),
            r matches Ok(img) ==> img@ == self.redo_spec(
                opt_bytes_view(base),
                chain_recs_view(records@),
            ),
    ;
}

/// How a store change is allowed to rewrite a reconstruction chain
/// without changing what readers observe: an incomplete chain (the
/// empty one included) must stay exactly as it is, a chain the manager
/// cannot replay must stay complete and unreplayable, and a replayable
/// chain may be rewritten into any replayable chain with the same
/// replayed page.
pub open spec fn chain_pres<R: RedoManager>(redo: R, c: crate::store::Chain, c2: crate::store::Chain) -> bool {
    if !crate::store::chain_complete(c) {
        c2 == c
    } else if !redo.redo_ok(c.base, c.recs) {
        crate::store::chain_complete(c2) && !redo.redo_ok(c2.base, c2.recs)
    } else {
        &&& crate::store::chain_complete(c2)
        &&& redo.redo_ok(c2.base, c2.recs)
        &&& redo.redo_spec(c2.base, c2.recs) == redo.redo_spec(c.base, c.recs)
    }
}

/// Chain preservation is reflexive.
pub proof fn lemma_chain_pres_refl<R: RedoManager>(redo: R, c: crate::store::Chain)
    ensures
        chain_pres(redo, c, c),
{
}

/// Chain preservation composes: two preserving rewrites in a row
/// preserve.
pub proof fn lemma_chain_pres_trans<R: RedoManager>(
    redo: R,
    a: crate::store::Chain,
    b: crate::store::Chain,
    c: crate::store::Chain,
)
    requires
        chain_pres(redo, a, b),
        chain_pres(redo, b, c),
    ensures
        chain_pres(redo, a, c),
{
}

/// A sequence of `n` zero bytes.
pub open spec fn zeros(n: nat) -> Seq<u8> {
    Seq::new(n, |i: int| 0u8)
}

/// `s` cut or zero-padded to exactly one page.
pub open spec fn pad_page(s: Seq<u8>) -> Seq<u8> {
    if s.len() >= PAGE_SZ {
        s.take(PAGE_SZ as int)
    } else {
        s + zeros((PAGE_SZ - s.len()) as nat)
    }
}

/// `page` with its prefix overwritten by `d`; the length is kept.
pub open spec fn patch_prefix(page: Seq<u8>, d: Seq<u8>) -> Seq<u8> {
    Seq::new(page.len(), |i: int| if i < d.len() { d[i] } else { page[i] })
}

/// One record applied to the page state.
pub open spec fn apply_one(page: Seq<u8>, r: WalRecordView) -> Seq<u8> {
    if r.will_init {
        pad_page(r.rec)
    } else {
        patch_prefix(page, r.rec)
    }
}

/// All records applied in order, oldest first.
pub open spec fn replay(page: Seq<u8>, recs: Seq<(u64, WalRecordView)>) -> Seq<u8>
    decreases recs.len(),
{
    if recs.len() == 0 {
        page
    } else {
        replay(apply_one(page, recs[0].1), recs.drop_first())
    }
}

/// Replaying one more record at the end applies it to the replayed page.
pub proof fn lemma_replay_push(page: Seq<u8>, recs: Seq<(u64, WalRecordView)>, x: (u64, WalRecordView))
    ensures
        replay(page, recs.push(x)) == apply_one(replay(page, recs), x.1),
    decreases recs.len(),
{
    if recs.len() == 0 {
        assert(recs.push(x)[0] == x);
        assert(recs.push(x).drop_first() =~= Seq::<(u64, WalRecordView)>::empty());
        assert(replay(page, recs.push(x)) == replay(
            apply_one(page, x.1),
            recs.push(x).drop_first(),
        ));
        assert(replay(apply_one(page, x.1), recs.push(x).drop_first()) == apply_one(page, x.1));
        assert(replay(page, recs) == page);
    } else {
        assert(recs.push(x)[0] == recs[0]);
        assert(recs.push(x).drop_first() =~= recs.drop_first().push(x));
        lemma_replay_push(apply_one(page, recs[0].1), recs.drop_first(), x);
    }
}

/// Replaying a concatenation replays the halves in turn.
pub proof fn lemma_replay_concat(
    page: Seq<u8>,
    r1: Seq<(u64, WalRecordView)>,
    r2: Seq<(u64, WalRecordView)>,
)
    ensures
        replay(page, r1 + r2) == replay(replay(page, r1), r2),
    decreases r1.len(),
{
    if r1.len() == 0 {
        assert(r1 + r2 =~= r2);
    } else {
        assert((r1 + r2)[0] == r1[0]);
        assert((r1 + r2).drop_first() =~= r1.drop_first() + r2);
        lemma_replay_concat(apply_one(page, r1[0].1), r1.drop_first(), r2);
    }
}

/// A verified redo manager: an initializing record becomes the page, cut
/// or zero-padded to page size; any other record overwrites the page
/// prefix with its payload.
pub struct SimpleRedoManager;

impl RedoManager for SimpleRedoManager {
    open spec fn redo_ok(&self, base: Option<Seq<u8>>, recs: Seq<(u64, WalRecordView)>) -> bool {
        match base {
            Some(_) => true,
            None => recs.len() > 0 && recs[0].1.will_init,
        }
    }

    open spec fn redo_spec(&self, base: Option<Seq<u8>>, recs: Seq<(u64, WalRecordView)>) -> Seq<u8> {
        match base {
            Some(b) => replay(b, recs),
            None => replay(Seq::empty(), recs),
        }
    }

    proof fn redo_base_law(&self, b: Seq<u8>) {
    }

    proof fn redo_compose_law(
        &self,
        base: Option<Seq<u8>>,
        r1: Seq<(u64, WalRecordView)>,
        r2: Seq<(u64, WalRecordView)>,
    ) {
        let start: Seq<u8> = match base {
            Some(b) => b,
            None => Seq::empty(),
        };
        lemma_replay_concat(start, r1, r2);
        if r1.len() > 0 {
            assert((r1 + r2)[0] == r1[0]);
        }
    }

    proof fn redo_prefix_law(
        &self,
        base: Option<Seq<u8>>,
        r1: Seq<(u64, WalRecordView)>,
        r2: Seq<(u64, WalRecordView)>,
    ) {
        if r1.len() > 0 {
            assert((r1 + r2)[0] == r1[0]);
        }
    }

    fn request_redo(
        &self,
        rel: RelishTag,
        blknum: u32,
        lsn: Lsn,
        base: Option<Vec<u8>>,
        records: Vec<ChainRec>,
    ) -> (r: Result<Vec<u8>, RepoError>) {
        let ghost bview = opt_bytes_view(base);
        let ghost rview = chain_recs_view(records@);
        let mut page: Vec<u8> = match base {
            Some(b) => b,
            None => {
                if records.len() == 0 || !records[0].rec.will_init {
                    proof {
                        if records@.len() > 0 {
                            assert(rview[0] == records@[0]@);
                        }
                    }
                    return Err(RepoError::Corruption);
                }
                proof {
                    assert(rview[0] == records@[0]@);
                }
                Vec::new()
            },
        };
        let ghost start = page@;
        let mut i: usize = 0;
        proof {
            assert(rview.take(0) =~= Seq::<(u64, WalRecordView)>::empty());
        }
        while i < records.len()
            invariant
                i <= records.len(),
                rview == chain_recs_view(records@),
                page@ == replay(start, rview.take(i as int)),
            decreases records.len() - i,
        {
            let r = &records[i].rec;
            proof {
                assert(rview[i as int] == records@[i as int]@);
                assert(rview.take(i + 1) =~= rview.take(i as int).push(rview[i as int]));
                lemma_replay_push(start, rview.take(i as int), rview[i as int]);
            }
            if r.will_init {
                page = pad_page_exec(&r.rec);
            } else {
                page = patch_prefix_exec(page, &r.rec);
            }
            i = i + 1;
        }
        proof {
            assert(rview.take(records@.len() as int) =~= rview);
        }
        Ok(page)
    }
}

/// `v` cut or zero-padded to exactly one page.
fn pad_page_exec(v: &Vec<u8>) -> (r: Vec<u8>)
    ensures
        r@ == pad_page(v@),
{
    let mut out: Vec<u8> = Vec::new();
    let mut i: usize = 0;
    let n: usize = if v.len() >= PAGE_SZ {
        PAGE_SZ
    } else {
        v.len()
    };
    while i < n
        invariant
            i <= n,
            n <= v.len(),
            out@ == v@.take(i as int),
        decreases n - i,
    {
        out.push(v[i]);
        i = i + 1;
        proof {
            assert(v@.take(i as int) =~= v@.take(i - 1).push(v@[i - 1]));
        }
    }
    while out.len() < PAGE_SZ
        invariant
            out@.len() >= n || n <= out@.len(),
            out@ == v@.take(n as int) + zeros((out@.len() - n) as nat),
            n <= out@.len() <= PAGE_SZ,
        decreases PAGE_SZ - out.len(),
    {
        out.push(0);
        proof {
            assert(v@.take(n as int) + zeros((out@.len() - n) as nat) =~= (v@.take(n as int)
                + zeros((out@.len() - 1 - n) as nat)).push(0u8));
        }
    }
    proof {
        if v@.len() >= PAGE_SZ {
            assert(out@ =~= pad_page(v@));
        } else {
            assert(v@.take(v@.len() as int) =~= v@);
            assert(out@ =~= pad_page(v@));
        }
    }
    out
}

/// `page` with its prefix overwritten by `d`; the length is kept.
fn patch_prefix_exec(page: Vec<u8>, d: &Vec<u8>) -> (r: Vec<u8>)
    ensures
        r@ == patch_prefix(page@, d@),
{
    let mut out: Vec<u8> = Vec::new();
    let mut i: usize = 0;
    while i < page.len()
        invariant
            i <= page.len(),
            out@.len() == i,
            forall|j: int|
                0 <= j < i ==> out@[j] == (if j < d@.len() {
                    d@[j]
                } else {
                    page@[j]
                }),
        decreases page.len() - i,
    {
        if i < d.len() {
            out.push(d[i]);
        } else {
            out.push(page[i]);
        }
        i = i + 1;
    }
    proof {
        assert(out@ =~= patch_prefix(page@, d@));
    }
    out
}

} // verus!
