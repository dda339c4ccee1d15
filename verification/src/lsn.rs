//! Log sequence numbers: 64-bit positions in the write-ahead log.
//!
//! Record boundaries are 8-byte aligned; every write into the versioned
//! store and every advance of the visibility horizon must use an aligned LSN.

use vstd::prelude::*;

verus! {

/// Number of bytes an LSN must be aligned to at a record boundary.
pub const LSN_ALIGN: u64 = 8;

/// A position in the write-ahead log.
#[derive(Clone, Copy, Debug, PartialEq, Eq, Structural, Hash)]
pub struct Lsn(pub u64);

/// Whether `v` sits on a record boundary.
pub open spec fn lsn_aligned(v: u64) -> bool {
    v % 8 == 0
}

/// The smallest multiple of 8 that is at least `v` (as a mathematical value).
pub open spec fn lsn_align_up(v: u64) -> int {
    if v % 8 == 0 {
        v as int
    } else {
        v + 8 - (v % 8)
    }
}

impl Lsn {
    /// The zero LSN, used as the lower bound of every scan.
    pub fn zero() -> (r: Lsn)
        ensures
            r.0 == 0,
    {
        Lsn(0)
    }

    /// True iff this LSN sits on a record boundary.
    pub fn is_aligned(&self) -> (r: bool)
        ensures
            r == lsn_aligned(self.0),
    {
        self.0 % LSN_ALIGN == 0
    }

    /// Bytes of padding needed to reach the next record boundary.
    pub fn calc_padding(&self) -> (r: u64)
        ensures
            r < 8,
            self.0 + r == lsn_align_up(self.0) || self.0 + r > u64::MAX,
            lsn_aligned(self.0) ==> r == 0,
    {
        (LSN_ALIGN - self.0 % LSN_ALIGN) % LSN_ALIGN
    }

    /// Round this LSN up to the next record boundary, if it fits.
    pub fn align_up(&self) -> (r: Option<Lsn>)
        ensures
            match r {
                Some(l) => l.0 == lsn_align_up(self.0) && lsn_aligned(l.0),
                None => lsn_align_up(self.0) > u64::MAX,
            },
    {
        let pad = self.calc_padding();
        if self.0 <= u64::MAX - pad {
            Some(Lsn(self.0 + pad))
        } else {
            None
        }
    }

    /// Subtract `other`, saturating at `None` on underflow.
    pub fn checked_sub(&self, other: u64) -> (r: Option<Lsn>)
        ensures
            match r {
                Some(l) => l.0 == self.0 - other,
                None => self.0 < other,
            },
    {
        if self.0 >= other {
            Some(Lsn(self.0 - other))
        } else {
            None
        }
    }
}

/// The end of the last record the timeline ingested, together with the
/// start of the record before it.
#[derive(Clone, Copy, Debug, PartialEq, Eq, Structural)]
pub struct RecordLsn {
    /// End of the last processed record: the visibility horizon readers wait on.
    pub last: Lsn,
    /// Start of the previous record, kept for restart bookkeeping.
    pub prev: Lsn,
}

} // verus!
