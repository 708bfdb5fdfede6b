//! The library's guarantees about canonicalization, stated and proved over
//! the molecule model: the canonical form does not depend on where the
//! molecule was drawn or how it was rotated, and canonicalizing twice
//! changes nothing.

use vstd::prelude::*;
use crate::hex::{add_pos, neg_pos, rotp, lemma_rotp_zero};
use crate::model::{MoleculeModel, translate_atoms, translate_bonds, rot_atoms, rot_bonds,
    norm_bonds, norm_bond, translate_mol, rot_mol, rot_about_mol, norm_offset, posnorm,
    has_repeat, mol_le, candidate, best_upto, canon, anchored, lemma_norm_bond_ordered,
    lemma_best_congruence, lemma_norm_translate_bonds, lemma_norm_rot_bonds,
    lemma_has_repeat_posmap, lemma_has_repeat_same_set, lemma_posnorm_shift,
    lemma_rot_mol_compose, lemma_rot_mol_wrap, lemma_rot_translate_mol,
    lemma_rot_translate_atoms_seq, lemma_rot_translate_bonds_seq, lemma_rot_about_decompose,
    lemma_best_is_candidate, lemma_best_le_all, lemma_best_unique, lemma_norm_bond_swap,
    mirror_mol};
use crate::order::{PlacedAtom, PlacedBond, atom_leq, bond_leq, pos_le, lemma_atom_order_total,
    lemma_bond_order_total};
use crate::seqorder::{dedup_sorted, lemma_dedup_sort_contains, lemma_dedup_sort_len_zero,
    lemma_map_same_set};
use crate::hex::{lemma_rotp_add, lemma_rotp_forms, lemma_rotp_linear, lemma_rotp_wrap};

verus! {

/// Position normalization ignores a prior translation: translating an
/// anchored molecule anywhere and normalizing gives the normalized original.
pub proof fn lemma_posnorm_translate(m: MoleculeModel, d: (int, int))
    requires
        anchored(m),
    ensures
        posnorm(translate_mol(m, d)) == posnorm(m),
{
    let x = translate_mol(m, d);
    lemma_norm_translate_bonds(m.bonds, d);
    assert(norm_bonds(x.bonds) == translate_bonds(norm_bonds(m.bonds), d));
    lemma_posnorm_shift(x, m, d);
}

/// Translation invariance: the canonical form of an anchored molecule is
/// unchanged when the whole molecule is first translated by any offset.
pub proof fn lemma_canon_translate(m: MoleculeModel, d: (int, int))
    requires
        anchored(m),
    ensures
        canon(translate_mol(m, d)) == canon(m),
{
    let x = translate_mol(m, d);
    lemma_has_repeat_posmap(m.atoms, x.atoms);
    if has_repeat(m.atoms) {
        lemma_posnorm_translate(m, d);
    } else {
        assert forall|k: int| 0 <= k < 6 implies #[trigger] candidate(x, k) == candidate(m, k) by {
            lemma_rot_translate_mol(m, d, k);
            assert(anchored(rot_mol(m, k)));
            lemma_posnorm_translate(rot_mol(m, k), rotp(d, k));
            assert(rot_mol(x, k) == translate_mol(rot_mol(m, k), rotp(d, k)));
        }
        lemma_best_congruence(x, m, 6);
    }
}

/// Rotating a molecule about the origin permutes its rotation candidates,
/// so the minimal candidate is unchanged.
pub proof fn lemma_canon_rot_origin(m: MoleculeModel, j: int)
    requires
        0 <= j < 6,
        !has_repeat(m.atoms),
    ensures
        canon(rot_mol(m, j)) == canon(m),
{
    let x = rot_mol(m, j);
    lemma_has_repeat_posmap(m.atoms, x.atoms);
    assert forall|i: int| 0 <= i < 6 implies #[trigger] candidate(x, i) == candidate(
        m,
        (i + j) % 6,
    ) by {
        lemma_rot_mol_compose(m, j, i);
        if i + j >= 6 {
            lemma_rot_mol_wrap(m, i + j);
            assert((i + j) % 6 == i + j - 6);
        } else {
            assert((i + j) % 6 == i + j);
        }
    }
    lemma_best_is_candidate(x, 6);
    lemma_best_le_all(x, 6);
    lemma_best_le_all(m, 6);
    let bx = best_upto(x, 6);
    let i0 = choose|i: int| 0 <= i < 6 && bx == candidate(x, i);
    assert(candidate(x, i0) == candidate(m, (i0 + j) % 6));
    assert forall|k: int| 0 <= k < 6 implies mol_le(bx, #[trigger] candidate(m, k)) by {
        let i = if k - j >= 0 {
            k - j
        } else {
            k - j + 6
        };
        assert(0 <= i < 6);
        assert(candidate(x, i) == candidate(m, (i + j) % 6));
        assert((i + j) % 6 == k);
        assert(mol_le(bx, candidate(x, i)));
    }
    assert(0 <= (i0 + j) % 6 < 6 && bx == candidate(m, (i0 + j) % 6));
    lemma_best_unique(m, bx);
}

/// Rotation invariance: the canonical form of an anchored molecule without
/// a `Repeat` atom is unchanged when the molecule is first rotated any
/// number of steps about any pivot.
pub proof fn lemma_canon_rotate(m: MoleculeModel, pivot: (int, int), k: int)
    requires
        0 <= k < 6,
        !has_repeat(m.atoms),
        anchored(m),
    ensures
        canon(rot_about_mol(m, pivot, k)) == canon(m),
{
    lemma_rot_about_decompose(m, pivot, k);
    let c = add_pos(pivot, neg_pos(rotp(pivot, k)));
    assert(anchored(rot_mol(m, k)));
    lemma_has_repeat_posmap(m.atoms, rot_mol(m, k).atoms);
    lemma_canon_translate(rot_mol(m, k), c);
    lemma_canon_rot_origin(m, k);
}

/// Position normalization is idempotent.
pub proof fn lemma_posnorm_idempotent(m: MoleculeModel)
    ensures
        posnorm(posnorm(m)) == posnorm(m),
{
    lemma_atom_order_total();
    lemma_bond_order_total();
    let d = norm_offset(m);
    let x = posnorm(m);
    lemma_dedup_sort_contains(translate_atoms(m.atoms, d), atom_leq());
    lemma_dedup_sort_len_zero(translate_atoms(m.atoms, d), atom_leq());
    lemma_norm_translate_bonds(m.bonds, d);
    let w = translate_bonds(norm_bonds(m.bonds), d);
    assert(norm_bonds(translate_bonds(m.bonds, d)) == w);
    lemma_dedup_sort_contains(w, bond_leq());
    assert forall|i: int| 0 <= i < x.bonds.len() implies #[trigger] norm_bonds(x.bonds)[i]
        == x.bonds[i] by {
        assert(x.bonds.contains(x.bonds[i])) by {
            assert(x.bonds[i] == x.bonds[i]);
        }
        assert(w.contains(x.bonds[i]));
        let j = choose|j: int| 0 <= j < w.len() && w[j] == x.bonds[i];
        lemma_norm_bond_ordered(norm_bonds(m.bonds)[j]);
        assert(pos_le(w[j].0, w[j].1));
        assert(norm_bond(x.bonds[i]) == x.bonds[i]);
    }
    assert(norm_bonds(x.bonds) =~= x.bonds);
    if m.atoms.len() == 0 {
        assert(d == (0int, 0int));
    }
    lemma_posnorm_shift(x, m, d);
}

/// Canonicalizing one rotation candidate once more selects the cyclically
/// shifted candidates of the original molecule.
proof fn lemma_candidate_of_candidate(m: MoleculeModel, k0: int, i: int)
    requires
        0 <= k0 < 6,
        0 <= i < 6,
    ensures
        candidate(candidate(m, k0), i) == candidate(m, (k0 + i) % 6),
{
    lemma_atom_order_total();
    lemma_bond_order_total();
    let mk = rot_mol(m, k0);
    let d0 = norm_offset(mk);
    let cc = candidate(m, k0);
    let kk = (k0 + i) % 6;
    let d = rotp(d0, i);
    let x = rot_mol(cc, i);
    let y = rot_mol(m, kk);
    lemma_rot_mol_compose(m, k0, i);
    if k0 + i >= 6 {
        lemma_rot_mol_wrap(m, k0 + i);
        assert(kk == k0 + i - 6);
    } else {
        assert(kk == k0 + i);
    }
    assert(rot_mol(mk, i) == y);
    // atoms: the set of x's atoms is the set of y's atoms translated by d
    lemma_dedup_sort_contains(translate_atoms(mk.atoms, d0), atom_leq());
    lemma_map_same_set(
        cc.atoms,
        translate_atoms(mk.atoms, d0),
        |a: PlacedAtom| (rotp(a.0, i), a.1),
    );
    lemma_rot_translate_atoms_seq(mk.atoms, d0, i);
    assert(rot_atoms(translate_atoms(mk.atoms, d0), i) == translate_atoms(y.atoms, d));
    assert(forall|p: PlacedAtom|
        x.atoms.contains(p) <==> #[trigger] translate_atoms(y.atoms, d).contains(p));
    // emptiness and anchoring
    lemma_dedup_sort_len_zero(translate_atoms(mk.atoms, d0), atom_leq());
    assert((x.atoms.len() == 0) == (y.atoms.len() == 0));
    if m.atoms.len() == 0 {
        assert(d0 == (0int, 0int));
        lemma_rotp_zero(i);
        assert(d == (0int, 0int));
    }
    // bonds: the set of x's normalized bonds is the set of y's normalized
    // bonds translated by d
    let nb = norm_bonds(mk.bonds);
    lemma_norm_translate_bonds(mk.bonds, d0);
    assert(norm_bonds(translate_bonds(mk.bonds, d0)) == translate_bonds(nb, d0));
    lemma_dedup_sort_contains(translate_bonds(nb, d0), bond_leq());
    lemma_map_same_set(
        cc.bonds,
        translate_bonds(nb, d0),
        |b: PlacedBond| (rotp(b.0, i), rotp(b.1, i), b.2),
    );
    lemma_rot_translate_bonds_seq(nb, d0, i);
    assert(rot_bonds(translate_bonds(nb, d0), i) == translate_bonds(rot_bonds(nb, i), d));
    assert(forall|b: PlacedBond|
        x.bonds.contains(b) <==> #[trigger] translate_bonds(rot_bonds(nb, i), d).contains(b));
    lemma_map_same_set(
        x.bonds,
        translate_bonds(rot_bonds(nb, i), d),
        |b: PlacedBond| norm_bond(b),
    );
    lemma_norm_translate_bonds(rot_bonds(nb, i), d);
    lemma_norm_rot_bonds(mk.bonds, i);
    assert(norm_bonds(rot_bonds(nb, i)) == norm_bonds(y.bonds));
    assert(forall|b: PlacedBond|
        norm_bonds(x.bonds).contains(b) <==> #[trigger] translate_bonds(
            norm_bonds(y.bonds),
            d,
        ).contains(b));
    lemma_posnorm_shift(x, y, d);
}

/// Two molecules hold the same atoms on the same cells and the same bonds
/// between the same cells, regardless of storage order and of the order in
/// which each bond's endpoints were entered.
pub open spec fn mol_same_set(a: MoleculeModel, b: MoleculeModel) -> bool {
    (forall|p: PlacedAtom| a.atoms.contains(p) <==> b.atoms.contains(p)) && (forall|x: PlacedBond|
        norm_bonds(a.bonds).contains(x) <==> norm_bonds(b.bonds).contains(x))
}

/// Canonical forms are complete: two molecules without `Repeat` atoms that
/// share a canonical form are the same molecule up to rotation and
/// translation.
pub proof fn lemma_canon_complete(m: MoleculeModel, n: MoleculeModel)
    requires
        !has_repeat(m.atoms),
        !has_repeat(n.atoms),
        canon(m) == canon(n),
    ensures
        exists|k: int, d: (int, int)|
            0 <= k < 6 && #[trigger] mol_same_set(translate_mol(rot_mol(n, k), d), m),
{
    lemma_atom_order_total();
    lemma_bond_order_total();
    let c = canon(m);
    lemma_best_is_candidate(m, 6);
    lemma_best_is_candidate(n, 6);
    let k1 = choose|j: int| 0 <= j < 6 && best_upto(m, 6) == candidate(m, j);
    let k2 = choose|j: int| 0 <= j < 6 && best_upto(n, 6) == candidate(n, j);
    let x1 = rot_mol(m, k1);
    let x2 = rot_mol(n, k2);
    let d1 = norm_offset(x1);
    let d2 = norm_offset(x2);
    let kk = 6 - k1;
    let dd = add_pos(d2, neg_pos(d1));
    let e = rotp(dd, kk);
    let kx: int = if k2 + kk < 6 {
        k2 + kk
    } else {
        k2 + kk - 6
    };
    // both candidates expose the set of atoms of the shared canonical form
    let t1a = translate_atoms(x1.atoms, d1);
    let t2a = translate_atoms(x2.atoms, d2);
    lemma_dedup_sort_contains(t1a, atom_leq());
    lemma_dedup_sort_contains(t2a, atom_leq());
    assert(c.atoms == dedup_sorted(t1a.sort_by(atom_leq())));
    assert(c.atoms == dedup_sorted(t2a.sort_by(atom_leq())));
    assert forall|p: PlacedAtom| t1a.contains(p) <==> t2a.contains(p) by {
        assert(dedup_sorted(t1a.sort_by(atom_leq())).contains(p) <==> t1a.contains(p));
        assert(dedup_sorted(t2a.sort_by(atom_leq())).contains(p) <==> t2a.contains(p));
    }
    // and likewise the set of its normalized bonds
    lemma_norm_translate_bonds(x1.bonds, d1);
    lemma_norm_translate_bonds(x2.bonds, d2);
    let t1b = translate_bonds(norm_bonds(x1.bonds), d1);
    let t2b = translate_bonds(norm_bonds(x2.bonds), d2);
    lemma_dedup_sort_contains(norm_bonds(translate_bonds(x1.bonds, d1)), bond_leq());
    lemma_dedup_sort_contains(norm_bonds(translate_bonds(x2.bonds, d2)), bond_leq());
    assert(c.bonds == dedup_sorted(t1b.sort_by(bond_leq())));
    assert(c.bonds == dedup_sorted(t2b.sort_by(bond_leq())));
    assert forall|x: PlacedBond| t1b.contains(x) <==> t2b.contains(x) by {
        assert(dedup_sorted(t1b.sort_by(bond_leq())).contains(x) <==> t1b.contains(x));
        assert(dedup_sorted(t2b.sort_by(bond_leq())).contains(x) <==> t2b.contains(x));
    }
    // unwinding the first candidate's transform recovers m itself, and
    // carries the second candidate onto a repositioning of n
    let fa = |a: PlacedAtom| (rotp(add_pos(a.0, neg_pos(d1)), kk), a.1);
    lemma_map_same_set(t1a, t2a, fa);
    assert forall|i: int| 0 <= i < m.atoms.len() implies #[trigger] t1a.map_values(fa)[i]
        == m.atoms[i] by {
        lemma_rotp_add(m.atoms[i].0, k1, kk);
        lemma_rotp_forms(m.atoms[i].0);
    }
    assert(t1a.map_values(fa) =~= m.atoms);
    assert forall|i: int| 0 <= i < n.atoms.len() implies #[trigger] t2a.map_values(fa)[i]
        == translate_atoms(rot_atoms(n.atoms, kx), e)[i] by {
        let q = n.atoms[i].0;
        lemma_rotp_linear(rotp(q, k2), dd, kk);
        lemma_rotp_add(q, k2, kk);
        if k2 + kk >= 6 {
            lemma_rotp_wrap(q, k2 + kk);
        }
    }
    assert(t2a.map_values(fa) =~= translate_atoms(rot_atoms(n.atoms, kx), e));
    assert(forall|p: PlacedAtom|
        m.atoms.contains(p) <==> #[trigger] translate_atoms(rot_atoms(n.atoms, kx), e).contains(
            p,
        ));
    // the same unwinding on bonds, renormalizing the endpoint order
    let fb = |b: PlacedBond|
        norm_bond(
            (rotp(add_pos(b.0, neg_pos(d1)), kk), rotp(add_pos(b.1, neg_pos(d1)), kk), b.2),
        );
    lemma_map_same_set(t1b, t2b, fb);
    assert forall|i: int| 0 <= i < m.bonds.len() implies #[trigger] t1b.map_values(fb)[i]
        == norm_bonds(m.bonds)[i] by {
        let b = m.bonds[i];
        let rb = (rotp(b.0, k1), rotp(b.1, k1), b.2);
        lemma_rotp_add(b.0, k1, kk);
        lemma_rotp_add(b.1, k1, kk);
        lemma_rotp_forms(b.0);
        lemma_rotp_forms(b.1);
        if !pos_le(rb.0, rb.1) {
            lemma_norm_bond_swap((rotp(rb.0, kk), rotp(rb.1, kk), rb.2));
        }
    }
    assert(t1b.map_values(fb) =~= norm_bonds(m.bonds));
    assert forall|i: int| 0 <= i < n.bonds.len() implies #[trigger] t2b.map_values(fb)[i]
        == translate_bonds(norm_bonds(rot_bonds(n.bonds, kx)), e)[i] by {
        let b = n.bonds[i];
        let rb = (rotp(b.0, k2), rotp(b.1, k2), b.2);
        lemma_rotp_linear(norm_bond(rb).0, dd, kk);
        lemma_rotp_linear(norm_bond(rb).1, dd, kk);
        lemma_rotp_add(b.0, k2, kk);
        lemma_rotp_add(b.1, k2, kk);
        if k2 + kk >= 6 {
            lemma_rotp_wrap(b.0, k2 + kk);
            lemma_rotp_wrap(b.1, k2 + kk);
        }
        if !pos_le(rb.0, rb.1) {
            lemma_norm_bond_swap((rotp(rb.0, kk), rotp(rb.1, kk), rb.2));
        }
    }
    assert(t2b.map_values(fb) =~= translate_bonds(norm_bonds(rot_bonds(n.bonds, kx)), e));
    lemma_norm_translate_bonds(rot_bonds(n.bonds, kx), e);
    let target = translate_mol(rot_mol(n, kx), e);
    assert(norm_bonds(target.bonds) == translate_bonds(norm_bonds(rot_bonds(n.bonds, kx)), e));
    assert(forall|x: PlacedBond|
        norm_bonds(target.bonds).contains(x) <==> #[trigger] norm_bonds(m.bonds).contains(x));
    assert(0 <= kx < 6 && mol_same_set(translate_mol(rot_mol(n, kx), e), m));
}

/// Chirality sensitivity: the mirror image of a molecule without internal
/// mirror symmetry has a different canonical form, since matching never
/// searches reflections.  "No internal mirror symmetry" says exactly that no
/// rotation and translation carries the mirror image back onto the molecule.
pub proof fn lemma_chirality_sensitive(m: MoleculeModel)
    requires
        !has_repeat(m.atoms),
        forall|k: int, d: (int, int)|
            0 <= k < 6 ==> !#[trigger] mol_same_set(
                translate_mol(rot_mol(mirror_mol(m), k), d),
                m,
            ),
    ensures
        canon(m) != canon(mirror_mol(m)),
{
    lemma_has_repeat_posmap(m.atoms, mirror_mol(m).atoms);
    if canon(m) == canon(mirror_mol(m)) {
        lemma_canon_complete(m, mirror_mol(m));
        let (k, d) = choose|k: int, d: (int, int)|
            0 <= k < 6 && #[trigger] mol_same_set(
                translate_mol(rot_mol(mirror_mol(m), k), d),
                m,
            );
        assert(false);
    }
}

/// Idempotence: canonicalizing a canonical form changes nothing.
pub proof fn lemma_canon_idempotent(m: MoleculeModel)
    ensures
        canon(canon(m)) == canon(m),
{
    lemma_atom_order_total();
    let cm = canon(m);
    if has_repeat(m.atoms) {
        let d = norm_offset(m);
        lemma_dedup_sort_contains(translate_atoms(m.atoms, d), atom_leq());
        lemma_has_repeat_same_set(translate_atoms(m.atoms, d), cm.atoms);
        lemma_has_repeat_posmap(m.atoms, translate_atoms(m.atoms, d));
        assert(has_repeat(cm.atoms));
        lemma_posnorm_idempotent(m);
    } else {
        lemma_best_is_candidate(m, 6);
        let k0 = choose|j: int| 0 <= j < 6 && best_upto(m, 6) == candidate(m, j);
        assert(cm == candidate(m, k0));
        let mk = rot_mol(m, k0);
        let d0 = norm_offset(mk);
        lemma_dedup_sort_contains(translate_atoms(mk.atoms, d0), atom_leq());
        lemma_has_repeat_same_set(translate_atoms(mk.atoms, d0), cm.atoms);
        lemma_has_repeat_posmap(mk.atoms, translate_atoms(mk.atoms, d0));
        lemma_has_repeat_posmap(m.atoms, mk.atoms);
        assert(!has_repeat(cm.atoms));
        assert forall|i: int| 0 <= i < 6 implies #[trigger] candidate(cm, i) == candidate(
            m,
            (k0 + i) % 6,
        ) by {
            lemma_candidate_of_candidate(m, k0, i);
        }
        lemma_best_le_all(m, 6);
        assert((k0 + 0) % 6 == k0);
        assert(candidate(cm, 0) == candidate(m, k0));
        assert forall|j: int| 0 <= j < 6 implies mol_le(cm, #[trigger] candidate(cm, j)) by {
            assert(candidate(cm, j) == candidate(m, (k0 + j) % 6));
            assert(0 <= (k0 + j) % 6 < 6);
            assert(mol_le(cm, candidate(m, (k0 + j) % 6)));
        }
        assert(exists|j: int| 0 <= j < 6 && cm == candidate(cm, j)) by {
            assert(cm == candidate(cm, 0));
        }
        lemma_best_unique(cm, cm);
    }
}

} // verus!
