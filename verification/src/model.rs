//! The mathematical model of molecules and of canonicalization: sequences of
//! placed atoms and bonds, the symmetry transforms, position normalization,
//! and the selection of the minimal rotation candidate.

use vstd::prelude::*;
use vstd::relations::*;
use crate::atom::AtomKind;
use crate::hex::{add_pos, neg_pos, rotp, mirror_pos, in_range, lemma_rotp_add,
    lemma_rotp_linear, lemma_rotp_zero};
use crate::order::{PlacedAtom, PlacedBond, atom_leq, bond_leq, pos_le,
    lemma_atom_order_total, lemma_bond_order_total};
use crate::seqorder::{lex_le, dedup_sorted, lemma_lex_refl, lemma_lex_antisym, lemma_lex_trans,
    lemma_lex_connected, lemma_dedup_sort_same_set, lemma_map_same_set};

verus! {

/// The model of a molecule: the placed atoms and the bonds, as sequences.
/// A canonical molecule stores both sorted and without duplicates, so that
/// sequence equality coincides with equality of the atom map and bond set.
#[verifier::ext_equal]
pub struct MoleculeModel {
    pub atoms: Seq<PlacedAtom>,
    pub bonds: Seq<PlacedBond>,
}

/// Translate every atom by `d`.
pub open spec fn translate_atoms(s: Seq<PlacedAtom>, d: (int, int)) -> Seq<PlacedAtom> {
    s.map_values(|a: PlacedAtom| (add_pos(a.0, d), a.1))
}

/// Rotate every atom `k` steps about the origin.
pub open spec fn rot_atoms(s: Seq<PlacedAtom>, k: int) -> Seq<PlacedAtom> {
    s.map_values(|a: PlacedAtom| (rotp(a.0, k), a.1))
}

/// Mirror every atom.
pub open spec fn mirror_atoms(s: Seq<PlacedAtom>) -> Seq<PlacedAtom> {
    s.map_values(|a: PlacedAtom| (mirror_pos(a.0), a.1))
}

/// Translate both endpoints of every bond by `d`.
pub open spec fn translate_bonds(s: Seq<PlacedBond>, d: (int, int)) -> Seq<PlacedBond> {
    s.map_values(|b: PlacedBond| (add_pos(b.0, d), add_pos(b.1, d), b.2))
}

/// Rotate both endpoints of every bond `k` steps about the origin.
pub open spec fn rot_bonds(s: Seq<PlacedBond>, k: int) -> Seq<PlacedBond> {
    s.map_values(|b: PlacedBond| (rotp(b.0, k), rotp(b.1, k), b.2))
}

/// Mirror both endpoints of every bond.
pub open spec fn mirror_bonds(s: Seq<PlacedBond>) -> Seq<PlacedBond> {
    s.map_values(|b: PlacedBond| (mirror_pos(b.0), mirror_pos(b.1), b.2))
}

/// Canonical endpoint order of one bond: the lexicographically smaller
/// endpoint first.
pub open spec fn norm_bond(b: PlacedBond) -> PlacedBond {
    if pos_le(b.0, b.1) {
        b
    } else {
        (b.1, b.0, b.2)
    }
}

/// Canonical endpoint order of every bond.
pub open spec fn norm_bonds(s: Seq<PlacedBond>) -> Seq<PlacedBond> {
    s.map_values(|b: PlacedBond| norm_bond(b))
}

/// Translate a whole molecule.
pub open spec fn translate_mol(m: MoleculeModel, d: (int, int)) -> MoleculeModel {
    MoleculeModel { atoms: translate_atoms(m.atoms, d), bonds: translate_bonds(m.bonds, d) }
}

/// Rotate a whole molecule about the origin.
pub open spec fn rot_mol(m: MoleculeModel, k: int) -> MoleculeModel {
    MoleculeModel { atoms: rot_atoms(m.atoms, k), bonds: rot_bonds(m.bonds, k) }
}

/// One position rotated about an arbitrary pivot.
pub open spec fn rot_about_pos(p: (int, int), c: (int, int), k: int) -> (int, int) {
    add_pos(rotp(add_pos(p, neg_pos(c)), k), c)
}

/// Rotate a whole molecule about an arbitrary pivot.
pub open spec fn rot_about_mol(m: MoleculeModel, c: (int, int), k: int) -> MoleculeModel {
    MoleculeModel {
        atoms: m.atoms.map_values(|a: PlacedAtom| (rot_about_pos(a.0, c, k), a.1)),
        bonds: m.bonds.map_values(
            |b: PlacedBond| (rot_about_pos(b.0, c, k), rot_about_pos(b.1, c, k), b.2),
        ),
    }
}

/// Mirror a whole molecule.
pub open spec fn mirror_mol(m: MoleculeModel) -> MoleculeModel {
    MoleculeModel { atoms: mirror_atoms(m.atoms), bonds: mirror_bonds(m.bonds) }
}

/// The smallest `q` coordinate among the atoms, `0` when there are none.
pub open spec fn min_q(s: Seq<PlacedAtom>) -> int
    decreases s.len(),
{
    if s.len() == 0 {
        0
    } else if s.len() == 1 {
        s[0].0.0
    } else {
        let rest = min_q(s.drop_first());
        if s[0].0.0 <= rest {
            s[0].0.0
        } else {
            rest
        }
    }
}

/// The smallest `r` coordinate among the atoms, `0` when there are none.
pub open spec fn min_r(s: Seq<PlacedAtom>) -> int
    decreases s.len(),
{
    if s.len() == 0 {
        0
    } else if s.len() == 1 {
        s[0].0.1
    } else {
        let rest = min_r(s.drop_first());
        if s[0].0.1 <= rest {
            s[0].0.1
        } else {
            rest
        }
    }
}

/// The translation that position normalization applies: move the smallest
/// atom coordinates to zero, independently in `q` and `r`.
pub open spec fn norm_offset(m: MoleculeModel) -> (int, int) {
    (-min_q(m.atoms), -min_r(m.atoms))
}

/// Position normalization: translate by the normalizing offset, re-establish
/// the canonical endpoint order of every bond, and store both sequences
/// sorted without duplicates.
pub open spec fn posnorm(m: MoleculeModel) -> MoleculeModel {
    let d = norm_offset(m);
    MoleculeModel {
        atoms: dedup_sorted(translate_atoms(m.atoms, d).sort_by(atom_leq())),
        bonds: dedup_sorted(norm_bonds(translate_bonds(m.bonds, d)).sort_by(bond_leq())),
    }
}

/// Whether some atom is the `Repeat` marker.
pub open spec fn has_repeat(s: Seq<PlacedAtom>) -> bool {
    exists|i: int| 0 <= i < s.len() && s[i].1 == AtomKind::Repeat
}

/// The canonical total order on candidate molecules: compare the atom
/// sequences lexicographically, and only on a tie the bond sequences.
pub open spec fn mol_le(a: MoleculeModel, b: MoleculeModel) -> bool {
    if a.atoms == b.atoms {
        lex_le(a.bonds, b.bonds, bond_leq())
    } else {
        lex_le(a.atoms, b.atoms, atom_leq())
    }
}

/// The `k`-th rotation candidate of a molecule.
pub open spec fn candidate(m: MoleculeModel, k: int) -> MoleculeModel {
    posnorm(rot_mol(m, k))
}

/// The minimal candidate among the first `k`, keeping the earlier candidate
/// on ties.
pub open spec fn best_upto(m: MoleculeModel, k: int) -> MoleculeModel
    decreases k,
{
    if k <= 1 {
        candidate(m, 0)
    } else {
        let b = best_upto(m, k - 1);
        let c = candidate(m, k - 1);
        if mol_le(b, c) {
            b
        } else {
            c
        }
    }
}

/// The canonical form: a molecule containing a `Repeat` atom is only
/// position-normalized; every other molecule is reduced to the minimal of
/// its six rotation candidates.
pub open spec fn canon(m: MoleculeModel) -> MoleculeModel {
    if has_repeat(m.atoms) {
        posnorm(m)
    } else {
        best_upto(m, 6)
    }
}

/// Every coordinate of the molecule has magnitude at most `b`.
pub open spec fn bounded_mol(m: MoleculeModel, b: int) -> bool {
    (forall|i: int| 0 <= i < m.atoms.len() ==> in_range(#[trigger] m.atoms[i].0, b))
        && (forall|i: int|
        0 <= i < m.bonds.len() ==> in_range(#[trigger] m.bonds[i].0, b) && in_range(
            m.bonds[i].1,
            b,
        ))
}

/// A molecule either has an atom to anchor position normalization, or is
/// entirely empty.  Without an atom the normalizing offset is zero, so a
/// molecule of dangling bonds alone is not moved by normalization.
pub open spec fn anchored(m: MoleculeModel) -> bool {
    m.atoms.len() > 0 || m.bonds.len() == 0
}

/// The candidate order is reflexive.
pub proof fn lemma_mol_le_refl(a: MoleculeModel)
    ensures
        mol_le(a, a),
{
    lemma_lex_refl(a.bonds, bond_leq());
    lemma_lex_refl(a.atoms, atom_leq());
}

/// The candidate order is antisymmetric.
pub proof fn lemma_mol_le_antisym(a: MoleculeModel, b: MoleculeModel)
    requires
        mol_le(a, b),
        mol_le(b, a),
    ensures
        a == b,
{
    lemma_atom_order_total();
    lemma_bond_order_total();
    if a.atoms == b.atoms {
        lemma_lex_antisym(a.bonds, b.bonds, bond_leq());
        assert(a =~= b);
    } else {
        lemma_lex_antisym(a.atoms, b.atoms, atom_leq());
        assert(false);
    }
}

/// The candidate order is transitive.
pub proof fn lemma_mol_le_trans(a: MoleculeModel, b: MoleculeModel, c: MoleculeModel)
    requires
        mol_le(a, b),
        mol_le(b, c),
    ensures
        mol_le(a, c),
{
    lemma_atom_order_total();
    lemma_bond_order_total();
    if a.atoms == b.atoms && b.atoms == c.atoms {
        lemma_lex_trans(a.bonds, b.bonds, c.bonds, bond_leq());
    } else if a.atoms == b.atoms {
        assert(lex_le(b.atoms, c.atoms, atom_leq()));
    } else if b.atoms == c.atoms {
        assert(lex_le(a.atoms, b.atoms, atom_leq()));
    } else {
        lemma_lex_trans(a.atoms, b.atoms, c.atoms, atom_leq());
        if a.atoms == c.atoms {
            lemma_lex_antisym(a.atoms, b.atoms, atom_leq());
            assert(false);
        }
    }
}

/// The candidate order is total.
pub proof fn lemma_mol_le_connected(a: MoleculeModel, b: MoleculeModel)
    ensures
        mol_le(a, b) || mol_le(b, a),
{
    lemma_atom_order_total();
    lemma_bond_order_total();
    if a.atoms == b.atoms {
        lemma_lex_connected(a.bonds, b.bonds, bond_leq());
    } else {
        lemma_lex_connected(a.atoms, b.atoms, atom_leq());
    }
}

/// The selected candidate is one of the candidates.
pub proof fn lemma_best_is_candidate(m: MoleculeModel, k: int)
    requires
        1 <= k,
    ensures
        exists|j: int| 0 <= j < k && best_upto(m, k) == candidate(m, j),
    decreases k,
{
    if k == 1 {
        assert(best_upto(m, 1) == candidate(m, 0));
    } else {
        lemma_best_is_candidate(m, k - 1);
        if mol_le(best_upto(m, k - 1), candidate(m, k - 1)) {
            let j = choose|j: int| 0 <= j < k - 1 && best_upto(m, k - 1) == candidate(m, j);
            assert(0 <= j < k && best_upto(m, k) == candidate(m, j));
        } else {
            assert(best_upto(m, k) == candidate(m, k - 1));
        }
    }
}

/// The selected candidate is below every candidate.
pub proof fn lemma_best_le_all(m: MoleculeModel, k: int)
    requires
        1 <= k,
    ensures
        forall|j: int| 0 <= j < k ==> mol_le(best_upto(m, k), #[trigger] candidate(m, j)),
    decreases k,
{
    if k == 1 {
        lemma_mol_le_refl(candidate(m, 0));
    } else {
        lemma_best_le_all(m, k - 1);
        let b = best_upto(m, k - 1);
        let c = candidate(m, k - 1);
        if mol_le(b, c) {
            assert(best_upto(m, k) == b);
        } else {
            lemma_mol_le_connected(b, c);
            assert(mol_le(c, b));
            assert forall|j: int| 0 <= j < k implies mol_le(best_upto(m, k), #[trigger] candidate(
                m,
                j,
            )) by {
                if j < k - 1 {
                    lemma_mol_le_trans(c, b, candidate(m, j));
                } else {
                    lemma_mol_le_refl(c);
                }
            }
        }
    }
}

/// Anything that is one of the candidates and below all of them is the
/// selected candidate: the choice is unique.
pub proof fn lemma_best_unique(m: MoleculeModel, x: MoleculeModel)
    requires
        exists|j: int| 0 <= j < 6 && x == candidate(m, j),
        forall|j: int| 0 <= j < 6 ==> mol_le(x, #[trigger] candidate(m, j)),
    ensures
        x == best_upto(m, 6),
{
    lemma_best_is_candidate(m, 6);
    lemma_best_le_all(m, 6);
    let b = best_upto(m, 6);
    let jb = choose|j: int| 0 <= j < 6 && b == candidate(m, j);
    let jx = choose|j: int| 0 <= j < 6 && x == candidate(m, j);
    assert(mol_le(x, candidate(m, jb)));
    assert(mol_le(b, candidate(m, jx)));
    lemma_mol_le_antisym(x, b);
}

/// A normalized bond has its endpoints in canonical order.
pub proof fn lemma_norm_bond_ordered(b: PlacedBond)
    ensures
        pos_le(norm_bond(b).0, norm_bond(b).1),
{
}

/// Molecules with equal candidate lists select the same candidate.
pub proof fn lemma_best_congruence(m1: MoleculeModel, m2: MoleculeModel, k: int)
    requires
        1 <= k,
        forall|j: int| 0 <= j < k ==> #[trigger] candidate(m1, j) == candidate(m2, j),
    ensures
        best_upto(m1, k) == best_upto(m2, k),
    decreases k,
{
    if k == 1 {
        assert(candidate(m1, 0) == candidate(m2, 0));
    } else {
        lemma_best_congruence(m1, m2, k - 1);
        assert(candidate(m1, k - 1) == candidate(m2, k - 1));
    }
}

/// The minimum `q` is attained and is a lower bound.
pub proof fn lemma_min_q_props(s: Seq<PlacedAtom>)
    requires
        s.len() > 0,
    ensures
        exists|i: int| 0 <= i < s.len() && #[trigger] s[i].0.0 == min_q(s),
        forall|i: int| 0 <= i < s.len() ==> min_q(s) <= #[trigger] s[i].0.0,
    decreases s.len(),
{
    if s.len() == 1 {
        assert(s[0].0.0 == min_q(s));
    } else {
        lemma_min_q_props(s.drop_first());
        let j = choose|j: int|
            0 <= j < s.drop_first().len() && #[trigger] s.drop_first()[j].0.0 == min_q(
                s.drop_first(),
            );
        assert(s[j + 1].0.0 == min_q(s.drop_first()));
        if s[0].0.0 <= min_q(s.drop_first()) {
            assert(s[0].0.0 == min_q(s));
        } else {
            assert(s[j + 1].0.0 == min_q(s));
        }
        assert forall|i: int| 0 <= i < s.len() implies min_q(s) <= #[trigger] s[i].0.0 by {
            if i > 0 {
                assert(s.drop_first()[i - 1] == s[i]);
                assert(min_q(s.drop_first()) <= s.drop_first()[i - 1].0.0);
            }
        }
    }
}

/// The minimum `r` is attained and is a lower bound.
pub proof fn lemma_min_r_props(s: Seq<PlacedAtom>)
    requires
        s.len() > 0,
    ensures
        exists|i: int| 0 <= i < s.len() && #[trigger] s[i].0.1 == min_r(s),
        forall|i: int| 0 <= i < s.len() ==> min_r(s) <= #[trigger] s[i].0.1,
    decreases s.len(),
{
    if s.len() == 1 {
        assert(s[0].0.1 == min_r(s));
    } else {
        lemma_min_r_props(s.drop_first());
        let j = choose|j: int|
            0 <= j < s.drop_first().len() && #[trigger] s.drop_first()[j].0.1 == min_r(
                s.drop_first(),
            );
        assert(s[j + 1].0.1 == min_r(s.drop_first()));
        if s[0].0.1 <= min_r(s.drop_first()) {
            assert(s[0].0.1 == min_r(s));
        } else {
            assert(s[j + 1].0.1 == min_r(s));
        }
        assert forall|i: int| 0 <= i < s.len() implies min_r(s) <= #[trigger] s[i].0.1 by {
            if i > 0 {
                assert(s.drop_first()[i - 1] == s[i]);
                assert(min_r(s.drop_first()) <= s.drop_first()[i - 1].0.1);
            }
        }
    }
}

/// Appending an atom updates the minimum `q` coordinate.
pub proof fn lemma_min_q_push(s: Seq<PlacedAtom>, a: PlacedAtom)
    ensures
        min_q(s.push(a)) == if s.len() == 0 {
            a.0.0
        } else if min_q(s) <= a.0.0 {
            min_q(s)
        } else {
            a.0.0
        },
    decreases s.len(),
{
    if s.len() == 0 {
    } else if s.len() == 1 {
        assert(s.push(a).drop_first() =~= seq![a]);
        assert(min_q(seq![a]) == a.0.0);
        assert(s.push(a)[0] == s[0]);
    } else {
        assert(s.push(a).drop_first() =~= s.drop_first().push(a));
        lemma_min_q_push(s.drop_first(), a);
    }
}

/// Appending an atom updates the minimum `r` coordinate.
pub proof fn lemma_min_r_push(s: Seq<PlacedAtom>, a: PlacedAtom)
    ensures
        min_r(s.push(a)) == if s.len() == 0 {
            a.0.1
        } else if min_r(s) <= a.0.1 {
            min_r(s)
        } else {
            a.0.1
        },
    decreases s.len(),
{
    if s.len() == 0 {
    } else if s.len() == 1 {
        assert(s.push(a).drop_first() =~= seq![a]);
        assert(min_r(seq![a]) == a.0.1);
        assert(s.push(a)[0] == s[0]);
    } else {
        assert(s.push(a).drop_first() =~= s.drop_first().push(a));
        lemma_min_r_push(s.drop_first(), a);
    }
}

/// Rotation about the origin at most doubles the coordinate bound.
pub proof fn lemma_bounded_rot_mol(m: MoleculeModel, b: int, k: int)
    requires
        bounded_mol(m, b),
        0 <= k < 6,
        0 <= b,
    ensures
        bounded_mol(rot_mol(m, k), 2 * b),
{
    assert forall|i: int| 0 <= i < m.atoms.len() implies in_range(
        #[trigger] rot_mol(m, k).atoms[i].0,
        2 * b,
    ) by {
        crate::hex::lemma_rotp_bounded(m.atoms[i].0, k, b);
    }
    assert forall|i: int|
        0 <= i < m.bonds.len() implies in_range(#[trigger] rot_mol(m, k).bonds[i].0, 2 * b)
            && in_range(rot_mol(m, k).bonds[i].1, 2 * b) by {
        crate::hex::lemma_rotp_bounded(m.bonds[i].0, k, b);
        crate::hex::lemma_rotp_bounded(m.bonds[i].1, k, b);
    }
}

/// Sequences with the same elements have the same coordinate minima.
pub proof fn lemma_min_same_elements(s: Seq<PlacedAtom>, t: Seq<PlacedAtom>)
    requires
        forall|x: PlacedAtom| s.contains(x) <==> t.contains(x),
        s.len() > 0,
        t.len() > 0,
    ensures
        min_q(s) == min_q(t),
        min_r(s) == min_r(t),
{
    lemma_min_q_props(s);
    lemma_min_q_props(t);
    lemma_min_r_props(s);
    lemma_min_r_props(t);
    let iq = choose|i: int| 0 <= i < s.len() && #[trigger] s[i].0.0 == min_q(s);
    assert(s.contains(s[iq]));
    assert(t.contains(s[iq]));
    let jq = choose|j: int| 0 <= j < t.len() && t[j] == s[iq];
    assert(min_q(t) <= t[jq].0.0);
    let iq2 = choose|i: int| 0 <= i < t.len() && #[trigger] t[i].0.0 == min_q(t);
    assert(t.contains(t[iq2]));
    assert(s.contains(t[iq2]));
    let jq2 = choose|j: int| 0 <= j < s.len() && s[j] == t[iq2];
    assert(min_q(s) <= s[jq2].0.0);
    let ir = choose|i: int| 0 <= i < s.len() && #[trigger] s[i].0.1 == min_r(s);
    assert(s.contains(s[ir]));
    assert(t.contains(s[ir]));
    let jr = choose|j: int| 0 <= j < t.len() && t[j] == s[ir];
    assert(min_r(t) <= t[jr].0.1);
    let ir2 = choose|i: int| 0 <= i < t.len() && #[trigger] t[i].0.1 == min_r(t);
    assert(t.contains(t[ir2]));
    assert(s.contains(t[ir2]));
    let jr2 = choose|j: int| 0 <= j < s.len() && s[j] == t[ir2];
    assert(min_r(s) <= s[jr2].0.1);
}

/// Translation shifts the coordinate minima by the offset.
pub proof fn lemma_min_translate(s: Seq<PlacedAtom>, d: (int, int))
    requires
        s.len() > 0,
    ensures
        min_q(translate_atoms(s, d)) == min_q(s) + d.0,
        min_r(translate_atoms(s, d)) == min_r(s) + d.1,
    decreases s.len(),
{
    if s.len() == 1 {
    } else {
        lemma_min_translate(s.drop_first(), d);
        assert(translate_atoms(s, d).drop_first() =~= translate_atoms(s.drop_first(), d));
    }
}

/// Two translations compose by adding the offsets.
pub proof fn lemma_translate_translate_atoms(s: Seq<PlacedAtom>, c1: (int, int), c2: (int, int))
    ensures
        translate_atoms(translate_atoms(s, c1), c2) == translate_atoms(s, add_pos(c1, c2)),
{
    assert(translate_atoms(translate_atoms(s, c1), c2) =~= translate_atoms(s, add_pos(c1, c2)));
}

/// Two bond translations compose by adding the offsets.
pub proof fn lemma_translate_translate_bonds(s: Seq<PlacedBond>, c1: (int, int), c2: (int, int))
    ensures
        translate_bonds(translate_bonds(s, c1), c2) == translate_bonds(s, add_pos(c1, c2)),
{
    assert(translate_bonds(translate_bonds(s, c1), c2) =~= translate_bonds(s, add_pos(c1, c2)));
}

/// Rotating a whole molecule twice rotates by the sum.
pub proof fn lemma_rot_mol_compose(m: MoleculeModel, j: int, k: int)
    requires
        0 <= j,
        0 <= k,
    ensures
        rot_mol(rot_mol(m, j), k) == rot_mol(m, j + k),
{
    assert forall|i: int| 0 <= i < m.atoms.len() implies #[trigger] rot_atoms(
        rot_atoms(m.atoms, j),
        k,
    )[i] == rot_atoms(m.atoms, j + k)[i] by {
        lemma_rotp_add(m.atoms[i].0, j, k);
    }
    assert(rot_atoms(rot_atoms(m.atoms, j), k) =~= rot_atoms(m.atoms, j + k));
    assert forall|i: int| 0 <= i < m.bonds.len() implies #[trigger] rot_bonds(
        rot_bonds(m.bonds, j),
        k,
    )[i] == rot_bonds(m.bonds, j + k)[i] by {
        lemma_rotp_add(m.bonds[i].0, j, k);
        lemma_rotp_add(m.bonds[i].1, j, k);
    }
    assert(rot_bonds(rot_bonds(m.bonds, j), k) =~= rot_bonds(m.bonds, j + k));
    assert(rot_mol(rot_mol(m, j), k) =~= rot_mol(m, j + k));
}

/// Rotation counts reduce modulo six on whole molecules.
pub proof fn lemma_rot_mol_wrap(m: MoleculeModel, k: int)
    requires
        6 <= k,
    ensures
        rot_mol(m, k) == rot_mol(m, k - 6),
{
    assert forall|i: int| 0 <= i < m.atoms.len() implies #[trigger] rot_atoms(m.atoms, k)[i]
        == rot_atoms(m.atoms, k - 6)[i] by {
        crate::hex::lemma_rotp_wrap(m.atoms[i].0, k);
    }
    assert(rot_atoms(m.atoms, k) =~= rot_atoms(m.atoms, k - 6));
    assert forall|i: int| 0 <= i < m.bonds.len() implies #[trigger] rot_bonds(m.bonds, k)[i]
        == rot_bonds(m.bonds, k - 6)[i] by {
        crate::hex::lemma_rotp_wrap(m.bonds[i].0, k);
        crate::hex::lemma_rotp_wrap(m.bonds[i].1, k);
    }
    assert(rot_bonds(m.bonds, k) =~= rot_bonds(m.bonds, k - 6));
    assert(rot_mol(m, k) =~= rot_mol(m, k - 6));
}

/// Rotating a translated molecule translates the rotated molecule by the
/// rotated offset.
pub proof fn lemma_rot_translate_mol(m: MoleculeModel, d: (int, int), k: int)
    requires
        0 <= k,
    ensures
        rot_mol(translate_mol(m, d), k) == translate_mol(rot_mol(m, k), rotp(d, k)),
{
    assert forall|i: int| 0 <= i < m.atoms.len() implies #[trigger] rot_atoms(
        translate_atoms(m.atoms, d),
        k,
    )[i] == translate_atoms(rot_atoms(m.atoms, k), rotp(d, k))[i] by {
        lemma_rotp_linear(m.atoms[i].0, d, k);
    }
    assert(rot_atoms(translate_atoms(m.atoms, d), k) =~= translate_atoms(
        rot_atoms(m.atoms, k),
        rotp(d, k),
    ));
    assert forall|i: int| 0 <= i < m.bonds.len() implies #[trigger] rot_bonds(
        translate_bonds(m.bonds, d),
        k,
    )[i] == translate_bonds(rot_bonds(m.bonds, k), rotp(d, k))[i] by {
        lemma_rotp_linear(m.bonds[i].0, d, k);
        lemma_rotp_linear(m.bonds[i].1, d, k);
    }
    assert(rot_bonds(translate_bonds(m.bonds, d), k) =~= translate_bonds(
        rot_bonds(m.bonds, k),
        rotp(d, k),
    ));
    assert(rot_mol(translate_mol(m, d), k) =~= translate_mol(rot_mol(m, k), rotp(d, k)));
}

/// Rotating translated atoms is translating the rotated atoms by the
/// rotated offset.
pub proof fn lemma_rot_translate_atoms_seq(s: Seq<PlacedAtom>, d: (int, int), k: int)
    requires
        0 <= k,
    ensures
        rot_atoms(translate_atoms(s, d), k) == translate_atoms(rot_atoms(s, k), rotp(d, k)),
{
    assert forall|i: int| 0 <= i < s.len() implies #[trigger] rot_atoms(
        translate_atoms(s, d),
        k,
    )[i] == translate_atoms(rot_atoms(s, k), rotp(d, k))[i] by {
        lemma_rotp_linear(s[i].0, d, k);
    }
    assert(rot_atoms(translate_atoms(s, d), k) =~= translate_atoms(rot_atoms(s, k), rotp(d, k)));
}

/// Rotating translated bonds is translating the rotated bonds by the
/// rotated offset.
pub proof fn lemma_rot_translate_bonds_seq(s: Seq<PlacedBond>, d: (int, int), k: int)
    requires
        0 <= k,
    ensures
        rot_bonds(translate_bonds(s, d), k) == translate_bonds(rot_bonds(s, k), rotp(d, k)),
{
    assert forall|i: int| 0 <= i < s.len() implies #[trigger] rot_bonds(
        translate_bonds(s, d),
        k,
    )[i] == translate_bonds(rot_bonds(s, k), rotp(d, k))[i] by {
        lemma_rotp_linear(s[i].0, d, k);
        lemma_rotp_linear(s[i].1, d, k);
    }
    assert(rot_bonds(translate_bonds(s, d), k) =~= translate_bonds(rot_bonds(s, k), rotp(d, k)));
}

/// A rotation about an arbitrary pivot is a rotation about the origin
/// followed by a translation.
pub proof fn lemma_rot_about_decompose(m: MoleculeModel, c: (int, int), k: int)
    requires
        0 <= k,
    ensures
        rot_about_mol(m, c, k) == translate_mol(rot_mol(m, k), add_pos(c, neg_pos(rotp(c, k)))),
{
    lemma_rotp_zero(k);
    lemma_rotp_linear(c, neg_pos(c), k);
    assert(rotp(add_pos(c, neg_pos(c)), k) == (0int, 0int));
    assert(rotp(neg_pos(c), k) == neg_pos(rotp(c, k)));
    assert forall|i: int| 0 <= i < m.atoms.len() implies #[trigger] rot_about_mol(m, c, k).atoms[i]
        == translate_mol(rot_mol(m, k), add_pos(c, neg_pos(rotp(c, k)))).atoms[i] by {
        lemma_rotp_linear(m.atoms[i].0, neg_pos(c), k);
    }
    assert(rot_about_mol(m, c, k).atoms =~= translate_mol(
        rot_mol(m, k),
        add_pos(c, neg_pos(rotp(c, k))),
    ).atoms);
    assert forall|i: int| 0 <= i < m.bonds.len() implies #[trigger] rot_about_mol(m, c, k).bonds[i]
        == translate_mol(rot_mol(m, k), add_pos(c, neg_pos(rotp(c, k)))).bonds[i] by {
        lemma_rotp_linear(m.bonds[i].0, neg_pos(c), k);
        lemma_rotp_linear(m.bonds[i].1, neg_pos(c), k);
    }
    assert(rot_about_mol(m, c, k).bonds =~= translate_mol(
        rot_mol(m, k),
        add_pos(c, neg_pos(rotp(c, k))),
    ).bonds);
    assert(rot_about_mol(m, c, k) =~= translate_mol(
        rot_mol(m, k),
        add_pos(c, neg_pos(rotp(c, k))),
    ));
}

/// Endpoint normalization is idempotent.
pub proof fn lemma_norm_bond_idem(b: PlacedBond)
    ensures
        norm_bond(norm_bond(b)) == norm_bond(b),
{
}

/// Endpoint normalization ignores the endpoint order of its input.
pub proof fn lemma_norm_bond_swap(b: PlacedBond)
    ensures
        norm_bond((b.1, b.0, b.2)) == norm_bond(b),
{
}

/// Endpoint normalization commutes with translating both endpoints.
pub proof fn lemma_norm_translate_bonds(s: Seq<PlacedBond>, d: (int, int))
    ensures
        norm_bonds(translate_bonds(s, d)) == translate_bonds(norm_bonds(s), d),
{
    assert(norm_bonds(translate_bonds(s, d)) =~= translate_bonds(norm_bonds(s), d));
}

/// Rotating normalized bonds and renormalizing is renormalizing the rotated
/// originals: normalization only reorders the endpoint pair.
pub proof fn lemma_norm_rot_bonds(s: Seq<PlacedBond>, k: int)
    ensures
        norm_bonds(rot_bonds(norm_bonds(s), k)) == norm_bonds(rot_bonds(s, k)),
{
    assert forall|i: int| 0 <= i < s.len() implies #[trigger] norm_bonds(
        rot_bonds(norm_bonds(s), k),
    )[i] == norm_bonds(rot_bonds(s, k))[i] by {
        let b = s[i];
        if !pos_le(b.0, b.1) {
            lemma_norm_bond_swap((rotp(b.0, k), rotp(b.1, k), b.2));
        }
    }
    assert(norm_bonds(rot_bonds(norm_bonds(s), k)) =~= norm_bonds(rot_bonds(s, k)));
}

/// Atom kinds decide the `Repeat` test, so any reposition of the same atoms
/// keeps it.
pub proof fn lemma_has_repeat_posmap(s: Seq<PlacedAtom>, t: Seq<PlacedAtom>)
    requires
        t.len() == s.len(),
        forall|i: int| 0 <= i < s.len() ==> #[trigger] t[i].1 == s[i].1,
    ensures
        has_repeat(t) == has_repeat(s),
{
    if has_repeat(s) {
        let i = choose|i: int| 0 <= i < s.len() && s[i].1 == AtomKind::Repeat;
        assert(t[i].1 == AtomKind::Repeat);
    }
    if has_repeat(t) {
        let i = choose|i: int| 0 <= i < t.len() && t[i].1 == AtomKind::Repeat;
        assert(s[i].1 == AtomKind::Repeat);
    }
}

/// The `Repeat` test depends only on the set of atoms.
pub proof fn lemma_has_repeat_same_set(s: Seq<PlacedAtom>, t: Seq<PlacedAtom>)
    requires
        forall|x: PlacedAtom| s.contains(x) <==> t.contains(x),
    ensures
        has_repeat(t) == has_repeat(s),
{
    if has_repeat(s) {
        let i = choose|i: int| 0 <= i < s.len() && s[i].1 == AtomKind::Repeat;
        assert(s.contains(s[i]));
        assert(t.contains(s[i]));
        let j = choose|j: int| 0 <= j < t.len() && t[j] == s[i];
        assert(t[j].1 == AtomKind::Repeat);
    }
    if has_repeat(t) {
        let i = choose|i: int| 0 <= i < t.len() && t[i].1 == AtomKind::Repeat;
        assert(t.contains(t[i]));
        assert(s.contains(t[i]));
        let j = choose|j: int| 0 <= j < s.len() && s[j] == t[i];
        assert(s[j].1 == AtomKind::Repeat);
    }
}

/// The master normalization lemma: two molecules whose atom sets and whose
/// normalized bond sets agree up to one common translation have the same
/// position-normalized form.
pub proof fn lemma_posnorm_shift(x: MoleculeModel, y: MoleculeModel, d: (int, int))
    requires
        forall|p: PlacedAtom| x.atoms.contains(p) <==> translate_atoms(y.atoms, d).contains(p),
        (x.atoms.len() == 0) == (y.atoms.len() == 0),
        y.atoms.len() > 0 || d == (0int, 0int) || (x.bonds.len() == 0 && y.bonds.len() == 0),
        forall|b: PlacedBond|
            norm_bonds(x.bonds).contains(b) <==> translate_bonds(norm_bonds(y.bonds), d).contains(
                b,
            ),
    ensures
        posnorm(x) == posnorm(y),
{
    lemma_atom_order_total();
    lemma_bond_order_total();
    let dx = norm_offset(x);
    let dy = norm_offset(y);
    if y.atoms.len() == 0 {
        assert(x.atoms.len() == 0);
        assert(dx == (0int, 0int) && dy == (0int, 0int));
        assert(translate_atoms(x.atoms, dx) =~= translate_atoms(translate_atoms(y.atoms, d), dx));
        if x.bonds.len() == 0 && y.bonds.len() == 0 {
            assert(translate_atoms(x.atoms, dx).len() == 0);
            assert(translate_atoms(y.atoms, dy).len() == 0);
            lemma_dedup_sort_same_set(
                translate_atoms(x.atoms, dx),
                translate_atoms(y.atoms, dy),
                atom_leq(),
            );
            assert(norm_bonds(translate_bonds(x.bonds, dx)).len() == 0);
            assert(norm_bonds(translate_bonds(y.bonds, dy)).len() == 0);
            lemma_dedup_sort_same_set(
                norm_bonds(translate_bonds(x.bonds, dx)),
                norm_bonds(translate_bonds(y.bonds, dy)),
                bond_leq(),
            );
        } else {
            assert(d == (0int, 0int));
            assert(translate_atoms(y.atoms, d) =~= y.atoms);
            lemma_dedup_sort_same_set(
                translate_atoms(x.atoms, dx),
                translate_atoms(y.atoms, dy),
                atom_leq(),
            );
            lemma_norm_translate_bonds(x.bonds, dx);
            lemma_norm_translate_bonds(y.bonds, dy);
            assert(translate_bonds(norm_bonds(x.bonds), dx) =~= norm_bonds(x.bonds));
            assert(translate_bonds(norm_bonds(y.bonds), dy) =~= norm_bonds(y.bonds));
            assert(translate_bonds(norm_bonds(y.bonds), d) =~= norm_bonds(y.bonds));
            lemma_dedup_sort_same_set(
                norm_bonds(translate_bonds(x.bonds, dx)),
                norm_bonds(translate_bonds(y.bonds, dy)),
                bond_leq(),
            );
        }
    } else {
        assert(x.atoms.len() > 0);
        // the minima of x are those of y shifted by d
        lemma_min_same_elements(x.atoms, translate_atoms(y.atoms, d));
        lemma_min_translate(y.atoms, d);
        assert(dx == add_pos(dy, neg_pos(d)));
        // atoms: both pipelines translate the same set to the same place
        lemma_map_same_set(
            x.atoms,
            translate_atoms(y.atoms, d),
            |a: PlacedAtom| (add_pos(a.0, dx), a.1),
        );
        lemma_translate_translate_atoms(y.atoms, d, dx);
        assert(add_pos(d, dx) == dy);
        assert(forall|p: PlacedAtom|
            translate_atoms(x.atoms, dx).contains(p) <==> #[trigger] translate_atoms(
                y.atoms,
                dy,
            ).contains(p));
        lemma_dedup_sort_same_set(
            translate_atoms(x.atoms, dx),
            translate_atoms(y.atoms, dy),
            atom_leq(),
        );
        // bonds: normalize first, then the same translation argument
        lemma_norm_translate_bonds(x.bonds, dx);
        lemma_norm_translate_bonds(y.bonds, dy);
        lemma_map_same_set(
            norm_bonds(x.bonds),
            translate_bonds(norm_bonds(y.bonds), d),
            |b: PlacedBond| (add_pos(b.0, dx), add_pos(b.1, dx), b.2),
        );
        lemma_translate_translate_bonds(norm_bonds(y.bonds), d, dx);
        assert(forall|b: PlacedBond|
            translate_bonds(norm_bonds(x.bonds), dx).contains(b) <==> #[trigger] translate_bonds(
                norm_bonds(y.bonds),
                dy,
            ).contains(b));
        lemma_dedup_sort_same_set(
            norm_bonds(translate_bonds(x.bonds, dx)),
            norm_bonds(translate_bonds(y.bonds, dy)),
            bond_leq(),
        );
    }
    assert(posnorm(x) =~= posnorm(y));
}

} // verus!
