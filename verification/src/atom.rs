//! The sixteen atom kinds and their fixed comparison ranks.

use vstd::prelude::*;

verus! {

/// One of the sixteen element kinds.  `Repeat` is a marker for a polymer
/// fragment that tiles along a fixed lattice direction, not a real element.
#[derive(Clone, Copy, PartialEq, Eq, Structural, Debug, Hash)]
pub enum AtomKind {
    Salt,
    Air,
    Earth,
    Fire,
    Water,
    Quicksilver,
    Gold,
    Silver,
    Copper,
    Iron,
    Tin,
    Lead,
    Vitae,
    Mors,
    Repeat,
    Quintessence,
}

/// The fixed comparison rank of an atom kind, 1 through 16 in declaration
/// order.  The rank is used only by the canonical ordering; it has no
/// chemical meaning.
pub open spec fn rank(k: AtomKind) -> int {
    match k {
        AtomKind::Salt => 1,
        AtomKind::Air => 2,
        AtomKind::Earth => 3,
        AtomKind::Fire => 4,
        AtomKind::Water => 5,
        AtomKind::Quicksilver => 6,
        AtomKind::Gold => 7,
        AtomKind::Silver => 8,
        AtomKind::Copper => 9,
        AtomKind::Iron => 10,
        AtomKind::Tin => 11,
        AtomKind::Lead => 12,
        AtomKind::Vitae => 13,
        AtomKind::Mors => 14,
        AtomKind::Repeat => 15,
        AtomKind::Quintessence => 16,
    }
}

/// Executable rank table.
pub fn rank_exec(k: AtomKind) -> (r: u8)
    ensures
        r as int == rank(k),
{
    match k {
        AtomKind::Salt => 1,
        AtomKind::Air => 2,
        AtomKind::Earth => 3,
        AtomKind::Fire => 4,
        AtomKind::Water => 5,
        AtomKind::Quicksilver => 6,
        AtomKind::Gold => 7,
        AtomKind::Silver => 8,
        AtomKind::Copper => 9,
        AtomKind::Iron => 10,
        AtomKind::Tin => 11,
        AtomKind::Lead => 12,
        AtomKind::Vitae => 13,
        AtomKind::Mors => 14,
        AtomKind::Repeat => 15,
        AtomKind::Quintessence => 16,
    }
}

/// Distinct kinds have distinct ranks.
pub proof fn lemma_rank_injective(a: AtomKind, b: AtomKind)
    requires
        rank(a) == rank(b),
    ensures
        a == b,
{
}

} // verus!
