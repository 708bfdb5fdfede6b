//! The canonical total order on positioned atoms and on normalized bonds,
//! together with executable comparators and lexicographic comparison of
//! whole sequences.

use vstd::prelude::*;
use vstd::relations::*;
use crate::atom::{AtomKind, rank, rank_exec, lemma_rank_injective};
use crate::bond::{Bond, BondType, bt_rank, bt_rank_exec, lemma_bt_rank_injective};
use crate::hex::HexIndex;
use crate::seqorder::{lex_le, lemma_lex_skip};

verus! {

/// Model of one placed atom: its position and its kind.
pub type PlacedAtom = ((int, int), AtomKind);

/// Model of one bond: both endpoints and the bond type.
pub type PlacedBond = ((int, int), (int, int), BondType);

/// Model of an atom entry of the executable representation.
pub open spec fn atom_model(e: (HexIndex, AtomKind)) -> PlacedAtom {
    (e.0@, e.1)
}

/// Model of an executable atom list.
pub open spec fn atoms_model(s: Seq<(HexIndex, AtomKind)>) -> Seq<PlacedAtom> {
    s.map_values(|e: (HexIndex, AtomKind)| atom_model(e))
}

/// Model of an executable bond list.
pub open spec fn bonds_model(s: Seq<Bond>) -> Seq<PlacedBond> {
    s.map_values(|b: Bond| b@)
}

/// Strict lexicographic order on positions, `q` before `r`.
pub open spec fn pos_lt(a: (int, int), b: (int, int)) -> bool {
    a.0 < b.0 || (a.0 == b.0 && a.1 < b.1)
}

/// Non-strict lexicographic order on positions.
pub open spec fn pos_le(a: (int, int), b: (int, int)) -> bool {
    a == b || pos_lt(a, b)
}

/// Canonical order on placed atoms: by `q`, then `r`, then atom rank.
pub open spec fn atom_le(a: PlacedAtom, b: PlacedAtom) -> bool {
    pos_lt(a.0, b.0) || (a.0 == b.0 && rank(a.1) <= rank(b.1))
}

/// Canonical order on normalized bonds: by first endpoint, then second
/// endpoint, then bond-type rank.
pub open spec fn bond_le(a: PlacedBond, b: PlacedBond) -> bool {
    pos_lt(a.0, b.0) || (a.0 == b.0 && (pos_lt(a.1, b.1) || (a.1 == b.1 && bt_rank(a.2)
        <= bt_rank(b.2))))
}

/// The atom order as a relation value.
pub open spec fn atom_leq() -> spec_fn(PlacedAtom, PlacedAtom) -> bool {
    |a: PlacedAtom, b: PlacedAtom| atom_le(a, b)
}

/// The bond order as a relation value.
pub open spec fn bond_leq() -> spec_fn(PlacedBond, PlacedBond) -> bool {
    |a: PlacedBond, b: PlacedBond| bond_le(a, b)
}

/// The atom order is a total order.
pub proof fn lemma_atom_order_total()
    ensures
        total_ordering(atom_leq()),
{
    let leq = atom_leq();
    assert forall|x: PlacedAtom, y: PlacedAtom| #[trigger] leq(x, y) && #[trigger] leq(y, x)
        implies x == y by {
        lemma_rank_injective(x.1, y.1);
    }
    assert forall|x: PlacedAtom, y: PlacedAtom| #[trigger] leq(x, y) || #[trigger] leq(y, x) by {
        if !atom_le(x, y) {
            assert(atom_le(y, x));
        }
    }
    assert(reflexive(leq));
    assert(antisymmetric(leq));
    assert(transitive(leq));
    assert(strongly_connected(leq));
}

/// The bond order is a total order.
pub proof fn lemma_bond_order_total()
    ensures
        total_ordering(bond_leq()),
{
    let leq = bond_leq();
    assert forall|x: PlacedBond, y: PlacedBond| #[trigger] leq(x, y) && #[trigger] leq(y, x)
        implies x == y by {
        lemma_bt_rank_injective(x.2, y.2);
    }
    assert forall|x: PlacedBond, y: PlacedBond| #[trigger] leq(x, y) || #[trigger] leq(y, x) by {
        if !bond_le(x, y) {
            assert(bond_le(y, x));
        }
    }
    assert(reflexive(leq));
    assert(antisymmetric(leq));
    assert(transitive(leq));
    assert(strongly_connected(leq));
}

/// Equality of two atom entries.
pub fn atom_entry_eq(a: &(HexIndex, AtomKind), b: &(HexIndex, AtomKind)) -> (r: bool)
    ensures
        r == (atom_model(*a) == atom_model(*b)),
{
    a.0 == b.0 && a.1 == b.1
}

/// Equality of two bonds.
pub fn bond_eq(a: &Bond, b: &Bond) -> (r: bool)
    ensures
        r == (a@ == b@),
{
    a.start == b.start && a.end == b.end && a.ty == b.ty
}

/// Executable atom order.
pub fn atom_le_exec(a: &(HexIndex, AtomKind), b: &(HexIndex, AtomKind)) -> (r: bool)
    ensures
        r == atom_le(atom_model(*a), atom_model(*b)),
{
    if a.0.q != b.0.q {
        a.0.q < b.0.q
    } else if a.0.r != b.0.r {
        a.0.r < b.0.r
    } else {
        rank_exec(a.1) <= rank_exec(b.1)
    }
}

/// Executable bond order.
pub fn bond_le_exec(a: &Bond, b: &Bond) -> (r: bool)
    ensures
        r == bond_le(a@, b@),
{
    if a.start.q != b.start.q {
        a.start.q < b.start.q
    } else if a.start.r != b.start.r {
        a.start.r < b.start.r
    } else if a.end.q != b.end.q {
        a.end.q < b.end.q
    } else if a.end.r != b.end.r {
        a.end.r < b.end.r
    } else {
        bt_rank_exec(&a.ty) <= bt_rank_exec(&b.ty)
    }
}

/// Three-way lexicographic comparison of two atom lists under the canonical
/// atom order: negative, zero or positive as the first compares below, equal
/// to, or above the second.
pub fn lex_cmp_atoms(s: &Vec<(HexIndex, AtomKind)>, t: &Vec<(HexIndex, AtomKind)>) -> (r: i8)
    ensures
        (r == 0) == (atoms_model(s@) == atoms_model(t@)),
        (r < 0) == (atoms_model(s@) != atoms_model(t@) && lex_le(
            atoms_model(s@),
            atoms_model(t@),
            atom_leq(),
        )),
        (r > 0) == (atoms_model(s@) != atoms_model(t@) && lex_le(
            atoms_model(t@),
            atoms_model(s@),
            atom_leq(),
        )),
{
    proof {
        lemma_atom_order_total();
    }
    let ghost a = atoms_model(s@);
    let ghost b = atoms_model(t@);
    let n = if s.len() < t.len() {
        s.len()
    } else {
        t.len()
    };
    let mut i: usize = 0;
    while i < n
        invariant
            0 <= i <= n,
            n <= s.len(),
            n <= t.len(),
            n == s.len() || n == t.len(),
            a == atoms_model(s@),
            b == atoms_model(t@),
            a.len() == s.len(),
            b.len() == t.len(),
            forall|j: int| 0 <= j < i ==> a[j] == b[j],
        decreases n - i,
    {
        if !atom_entry_eq(&s[i], &t[i]) {
            proof {
                lemma_lex_skip(a, b, atom_leq(), i as int);
                lemma_lex_skip(b, a, atom_leq(), i as int);
                assert(a.skip(i as int)[0] == a[i as int]);
                assert(b.skip(i as int)[0] == b[i as int]);
            }
            if atom_le_exec(&s[i], &t[i]) {
                proof {
                    if atom_le(b[i as int], a[i as int]) {
                        assert(a[i as int] == b[i as int]);
                    }
                }
                return -1;
            } else {
                proof {
                    assert(atom_le(b[i as int], a[i as int]));
                }
                return 1;
            }
        }
        i += 1;
    }
    if s.len() == t.len() {
        proof {
            assert(a =~= b);
        }
        0
    } else if s.len() < t.len() {
        proof {
            lemma_lex_skip(a, b, atom_leq(), a.len() as int);
            lemma_lex_skip(b, a, atom_leq(), a.len() as int);
            assert(a.skip(a.len() as int).len() == 0);
            assert(b.skip(a.len() as int).len() > 0);
            assert(a.len() != b.len());
        }
        -1
    } else {
        proof {
            lemma_lex_skip(b, a, atom_leq(), b.len() as int);
            lemma_lex_skip(a, b, atom_leq(), b.len() as int);
            assert(b.skip(b.len() as int).len() == 0);
            assert(a.skip(b.len() as int).len() > 0);
            assert(a.len() != b.len());
        }
        1
    }
}

/// Three-way lexicographic comparison of two bond lists under the canonical
/// bond order.
pub fn lex_cmp_bonds(s: &Vec<Bond>, t: &Vec<Bond>) -> (r: i8)
    ensures
        (r == 0) == (bonds_model(s@) == bonds_model(t@)),
        (r < 0) == (bonds_model(s@) != bonds_model(t@) && lex_le(
            bonds_model(s@),
            bonds_model(t@),
            bond_leq(),
        )),
        (r > 0) == (bonds_model(s@) != bonds_model(t@) && lex_le(
            bonds_model(t@),
            bonds_model(s@),
            bond_leq(),
        )),
{
    proof {
        lemma_bond_order_total();
    }
    let ghost a = bonds_model(s@);
    let ghost b = bonds_model(t@);
    let n = if s.len() < t.len() {
        s.len()
    } else {
        t.len()
    };
    let mut i: usize = 0;
    while i < n
        invariant
            0 <= i <= n,
            n <= s.len(),
            n <= t.len(),
            n == s.len() || n == t.len(),
            a == bonds_model(s@),
            b == bonds_model(t@),
            a.len() == s.len(),
            b.len() == t.len(),
            forall|j: int| 0 <= j < i ==> a[j] == b[j],
        decreases n - i,
    {
        if !bond_eq(&s[i], &t[i]) {
            proof {
                lemma_lex_skip(a, b, bond_leq(), i as int);
                lemma_lex_skip(b, a, bond_leq(), i as int);
                assert(a.skip(i as int)[0] == a[i as int]);
                assert(b.skip(i as int)[0] == b[i as int]);
            }
            if bond_le_exec(&s[i], &t[i]) {
                proof {
                    if bond_le(b[i as int], a[i as int]) {
                        assert(a[i as int] == b[i as int]);
                    }
                }
                return -1;
            } else {
                proof {
                    assert(bond_le(b[i as int], a[i as int]));
                }
                return 1;
            }
        }
        i += 1;
    }
    if s.len() == t.len() {
        proof {
            assert(a =~= b);
        }
        0
    } else if s.len() < t.len() {
        proof {
            lemma_lex_skip(a, b, bond_leq(), a.len() as int);
            lemma_lex_skip(b, a, bond_leq(), a.len() as int);
            assert(a.skip(a.len() as int).len() == 0);
            assert(b.skip(a.len() as int).len() > 0);
            assert(a.len() != b.len());
        }
        -1
    } else {
        proof {
            lemma_lex_skip(b, a, bond_leq(), b.len() as int);
            lemma_lex_skip(a, b, bond_leq(), b.len() as int);
            assert(b.skip(b.len() as int).len() == 0);
            assert(a.skip(b.len() as int).len() > 0);
            assert(a.len() != b.len());
        }
        1
    }
}

} // verus!
