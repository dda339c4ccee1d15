//! Entity identifiers for the versioned store.
//!
//! A relish is a relation fork or a non-relational physical object (an
//! SLRU segment, the checkpoint blob, the control file). Relishes are
//! totally ordered so that store keys sort by entity first; blocky
//! relishes are indexable by a 32-bit block number, the others hold a
//! single value at block 0.

use vstd::prelude::*;

verus! {

/// Identifier of one fork of one relation.
#[derive(Clone, Copy, Debug, PartialEq, Eq, Structural, Hash, PartialOrd, Ord)]
pub struct RelTag {
    pub spcnode: u32,
    pub dbnode: u32,
    pub relnode: u32,
    pub forknum: u8,
}

/// Identifier of a physical storage object.
#[derive(Clone, Copy, Debug, PartialEq, Eq, Structural, Hash, PartialOrd, Ord)]
pub enum RelishTag {
    /// A relation fork, block-addressable.
    Relation(RelTag),
    /// One segment of an SLRU (clog, multixact, ...), block-addressable.
    Slru { slru: u8, segno: u32 },
    /// A two-phase transaction state file, single-valued.
    TwoPhase { xid: u32 },
    /// The checkpoint blob, single-valued.
    Checkpoint,
    /// The control file, single-valued.
    ControlFile,
}

/// The full sort key of a relish: rank followed by the variant's fields.
pub open spec fn rel_key(r: RelishTag) -> (int, int, int, int, int) {
    match r {
        RelishTag::Relation(t) => (0, t.spcnode as int, t.dbnode as int, t.relnode as int, t.forknum as int),
        RelishTag::Slru { slru, segno } => (1, slru as int, segno as int, 0, 0),
        RelishTag::TwoPhase { xid } => (2, xid as int, 0, 0, 0),
        RelishTag::Checkpoint => (3, 0, 0, 0, 0),
        RelishTag::ControlFile => (4, 0, 0, 0, 0),
    }
}

/// Lexicographic order on sort keys.
pub open spec fn key_lt(a: (int, int, int, int, int), b: (int, int, int, int, int)) -> bool {
    ||| a.0 < b.0
    ||| (a.0 == b.0 && a.1 < b.1)
    ||| (a.0 == b.0 && a.1 == b.1 && a.2 < b.2)
    ||| (a.0 == b.0 && a.1 == b.1 && a.2 == b.2 && a.3 < b.3)
    ||| (a.0 == b.0 && a.1 == b.1 && a.2 == b.2 && a.3 == b.3 && a.4 < b.4)
}

/// Strict total order on relishes.
pub open spec fn rel_lt(a: RelishTag, b: RelishTag) -> bool {
    key_lt(rel_key(a), rel_key(b))
}

/// Two relishes with the same sort key are the same relish.
pub proof fn lemma_rel_key_injective(a: RelishTag, b: RelishTag)
    requires
        rel_key(a) == rel_key(b),
    ensures
        a == b,
{
}

/// The order on relishes is trichotomous.
pub proof fn lemma_rel_order(a: RelishTag, b: RelishTag)
    ensures
        rel_lt(a, b) || a == b || rel_lt(b, a),
        rel_lt(a, b) ==> !rel_lt(b, a) && a != b,
{
    if !rel_lt(a, b) && !rel_lt(b, a) {
        lemma_rel_key_injective(a, b);
    }
}

impl RelishTag {
    /// Whether this relish is addressable by block number.
    pub open spec fn spec_is_blocky(self) -> bool {
        match self {
            RelishTag::Relation(_) => true,
            RelishTag::Slru { .. } => true,
            _ => false,
        }
    }

    /// Whether this relish is addressable by block number.
    pub fn is_blocky(&self) -> (r: bool)
        ensures
            r == self.spec_is_blocky(),
    {
        match self {
            RelishTag::Relation(_) => true,
            RelishTag::Slru { .. } => true,
            _ => false,
        }
    }

    /// Three-way comparison in the store order: -1, 0, or 1.
    pub fn cmp_key(&self, other: &RelishTag) -> (c: i8)
        ensures
            c == -1 <==> rel_lt(*self, *other),
            c == 0 <==> *self == *other,
            c == 1 <==> rel_lt(*other, *self),
    {
        proof {
            lemma_rel_order(*self, *other);
        }
        let a = self.exec_key();
        let b = other.exec_key();
        if a.0 < b.0 {
            -1
        } else if a.0 > b.0 {
            1
        } else if a.1 < b.1 {
            -1
        } else if a.1 > b.1 {
            1
        } else if a.2 < b.2 {
            -1
        } else if a.2 > b.2 {
            1
        } else if a.3 < b.3 {
            -1
        } else if a.3 > b.3 {
            1
        } else if a.4 < b.4 {
            -1
        } else if a.4 > b.4 {
            1
        } else {
            proof {
                lemma_rel_key_injective(*self, *other);
            }
            0
        }
    }

    /// The sort key as machine integers.
    fn exec_key(&self) -> (k: (u8, u32, u32, u32, u8))
        ensures
            rel_key(*self) == (k.0 as int, k.1 as int, k.2 as int, k.3 as int, k.4 as int),
    {
        match self {
            RelishTag::Relation(t) => (0, t.spcnode, t.dbnode, t.relnode, t.forknum),
            RelishTag::Slru { slru, segno } => (1, *slru as u32, *segno, 0, 0),
            RelishTag::TwoPhase { xid } => (2, *xid, 0, 0, 0),
            RelishTag::Checkpoint => (3, 0, 0, 0, 0),
            RelishTag::ControlFile => (4, 0, 0, 0, 0),
        }
    }
}

/// Whether `r` is a relation fork in the given tablespace and database.
pub open spec fn rel_in_db(r: RelishTag, spcnode: u32, dbnode: u32) -> bool {
    r matches RelishTag::Relation(t) && t.spcnode == spcnode && t.dbnode == dbnode
}

/// Whether `r` identifies a relation fork in the given tablespace and database.
pub fn is_rel_in_db(r: &RelishTag, spcnode: u32, dbnode: u32) -> (b: bool)
    ensures
        b == rel_in_db(*r, spcnode, dbnode),
{
    match r {
        RelishTag::Relation(t) => t.spcnode == spcnode && t.dbnode == dbnode,
        _ => false,
    }
}

/// Whether `r` is a non-relational entity.
pub open spec fn is_nonrel(r: RelishTag) -> bool {
    !(r matches RelishTag::Relation(_))
}

/// Whether `r` identifies a non-relational entity.
pub fn is_nonrel_tag(r: &RelishTag) -> (b: bool)
    ensures
        b == is_nonrel(*r),
{
    match r {
        RelishTag::Relation(_) => false,
        _ => true,
    }
}

} // verus!
