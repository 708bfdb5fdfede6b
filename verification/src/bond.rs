//! Bonds between grid cells and their comparison ranks.

use vstd::prelude::*;
use crate::hex::HexIndex;

verus! {

/// A bond is either plain or a triplex carrying up to three independent
/// colored strands.
#[derive(Clone, Copy, PartialEq, Eq, Structural, Debug, Hash)]
pub enum BondType {
    Normal,
    Triplex { red: bool, black: bool, yellow: bool },
}

/// An undirected edge between two grid cells, with a bond type.  Canonical
/// storage keeps the lexicographically smaller endpoint in `start`; the
/// normalization pass re-establishes that orientation after every transform.
#[derive(Clone, Copy, PartialEq, Eq, Structural, Debug, Hash)]
pub struct Bond {
    pub start: HexIndex,
    pub end: HexIndex,
    pub ty: BondType,
}

impl View for Bond {
    type V = ((int, int), (int, int), BondType);

    open spec fn view(&self) -> ((int, int), (int, int), BondType) {
        (self.start@, self.end@, self.ty)
    }
}

/// Comparison rank of a bond type: `Normal` sorts before every `Triplex`,
/// and triplexes compare by the `(red, black, yellow)` tuple with
/// `false < true`.
pub open spec fn bt_rank(t: BondType) -> int {
    match t {
        BondType::Normal => 0,
        BondType::Triplex { red, black, yellow } => 1 + (if red {
            4int
        } else {
            0int
        }) + (if black {
            2int
        } else {
            0int
        }) + (if yellow {
            1int
        } else {
            0int
        }),
    }
}

/// Executable rank of a bond type.
pub fn bt_rank_exec(t: &BondType) -> (r: u8)
    ensures
        r as int == bt_rank(*t),
{
    match t {
        BondType::Normal => 0,
        BondType::Triplex { red, black, yellow } => {
            let mut r: u8 = 1;
            if *red {
                r = r + 4;
            }
            if *black {
                r = r + 2;
            }
            if *yellow {
                r = r + 1;
            }
            r
        },
    }
}

/// Distinct bond types have distinct ranks.
pub proof fn lemma_bt_rank_injective(a: BondType, b: BondType)
    requires
        bt_rank(a) == bt_rank(b),
    ensures
        a == b,
{
}

} // verus!
