use hexmol::atom::AtomKind;
use hexmol::bond::{Bond, BondType};
use hexmol::hex::HexIndex;
use hexmol::molecule::Molecule;

fn hx(q: i64, r: i64) -> HexIndex {
    HexIndex { q, r }
}

fn triangle() -> Molecule {
    // an asymmetric labeled triangle: three distinct kinds on three
    // mutually adjacent cells
    let mut m = Molecule::new();
    m.add_atom(hx(0, 0), AtomKind::Fire);
    m.add_atom(hx(1, 0), AtomKind::Water);
    m.add_atom(hx(0, 1), AtomKind::Salt);
    m.add_bond(Bond { start: hx(0, 0), end: hx(1, 0), ty: BondType::Normal });
    m.add_bond(Bond { start: hx(1, 0), end: hx(0, 1), ty: BondType::Normal });
    m
}

#[test]
fn translation_invariance_concrete() {
    let m = triangle();
    let c1 = m.normalized();
    let shifted = m.translated(hx(17, -4));
    let c2 = shifted.normalized();
    assert!(c1.matches(&c2));
}

#[test]
fn rotation_invariance_concrete() {
    let m = triangle();
    let c1 = m.normalized();
    for k in 0..6u8 {
        let rotated = m.rotated(hx(3, -2), k);
        let c2 = rotated.normalized();
        assert!(c1.matches(&c2));
    }
}

#[test]
fn idempotence_concrete() {
    let m = triangle();
    let c1 = m.normalized();
    let c2 = c1.normalized();
    assert!(c1.matches(&c2));
}

#[test]
fn chirality_sensitivity() {
    // the triangle has three distinct kinds, so its mirror image reverses
    // their cyclic order and no rotation can recover it
    let m = triangle();
    let c1 = m.normalized();
    let mm = m.mirrored();
    let c2 = mm.normalized();
    assert!(!c1.matches(&c2));
    // and indeed none of the six candidates of the mirror image matches
    for k in 0..6u8 {
        let cand = mm.rotated(hx(0, 0), k).position_normalized();
        assert!(!c1.matches(&cand));
    }
}

#[test]
fn repeat_short_circuit() {
    // a Repeat-containing molecule is only position-normalized: rotating it
    // first gives a different canonical form
    let mut m = Molecule::new();
    m.add_atom(hx(0, 0), AtomKind::Repeat);
    m.add_atom(hx(1, 0), AtomKind::Fire);
    let c = m.normalized();
    // the canonical form is exactly the position-normalized form
    assert!(c.matches(&m.position_normalized()));
    // rotating by one step before canonicalizing yields a different form
    let r = m.rotated(hx(0, 0), 1);
    let cr = r.normalized();
    assert!(!c.matches(&cr));
}

#[test]
fn bond_endpoint_normalization() {
    let mut m = Molecule::new();
    m.add_atom(hx(0, 0), AtomKind::Gold);
    m.add_atom(hx(2, 0), AtomKind::Gold);
    m.add_bond(Bond { start: hx(2, 0), end: hx(0, 0), ty: BondType::Normal });
    let c = m.position_normalized();
    assert_eq!(c.bonds.len(), 1);
    assert_eq!(c.bonds[0].start, hx(0, 0));
    assert_eq!(c.bonds[0].end, hx(2, 0));
}

#[test]
fn six_candidate_minimality() {
    let m = triangle();
    let canonical = m.normalized();
    let mut equal_count = 0;
    for k in 0..6u8 {
        let cand = m.rotated(hx(0, 0), k).position_normalized();
        if canonical.matches(&cand) {
            equal_count += 1;
        }
        // the canonical form is minimal under the candidate order
        assert!(canonical.le_mol(&cand));
    }
    assert_eq!(equal_count, 1);
}

#[test]
fn reversed_duplicate_bonds_collapse() {
    // the same bond entered with its endpoints in both orders collapses to
    // one bond in the canonical form
    let mut m = Molecule::new();
    m.add_atom(hx(0, 0), AtomKind::Iron);
    m.add_atom(hx(1, 0), AtomKind::Iron);
    m.add_bond(Bond { start: hx(0, 0), end: hx(1, 0), ty: BondType::Normal });
    m.add_bond(Bond { start: hx(1, 0), end: hx(0, 0), ty: BondType::Normal });
    assert_eq!(m.bonds.len(), 2);
    let c = m.position_normalized();
    assert_eq!(c.bonds.len(), 1);
}

#[test]
fn add_atom_replaces_kind() {
    let mut m = Molecule::new();
    m.add_atom(hx(0, 0), AtomKind::Fire);
    m.add_atom(hx(0, 0), AtomKind::Water);
    assert_eq!(m.atoms.len(), 1);
    assert_eq!(m.atoms[0].1, AtomKind::Water);
}

#[test]
fn add_bond_deduplicates_exact() {
    let mut m = Molecule::new();
    let b = Bond { start: hx(0, 0), end: hx(1, 0), ty: BondType::Normal };
    m.add_bond(b);
    m.add_bond(b);
    assert_eq!(m.bonds.len(), 1);
}

#[test]
fn triplex_bond_ordering() {
    // Normal sorts before Triplex, and triplex strands compare
    // red-black-yellow with false before true
    let mut m = Molecule::new();
    m.add_atom(hx(0, 0), AtomKind::Gold);
    m.add_atom(hx(1, 0), AtomKind::Gold);
    m.add_atom(hx(2, 0), AtomKind::Gold);
    m.add_bond(Bond {
        start: hx(1, 0),
        end: hx(2, 0),
        ty: BondType::Triplex { red: true, black: false, yellow: false },
    });
    m.add_bond(Bond { start: hx(0, 0), end: hx(1, 0), ty: BondType::Normal });
    let c = m.position_normalized();
    assert_eq!(c.bonds.len(), 2);
    assert_eq!(c.bonds[0].ty, BondType::Normal);
    assert_eq!(
        c.bonds[1].ty,
        BondType::Triplex { red: true, black: false, yellow: false }
    );
}

#[test]
fn canonical_form_anchors_at_origin() {
    let mut m = Molecule::new();
    m.add_atom(hx(7, 9), AtomKind::Vitae);
    m.add_atom(hx(8, 11), AtomKind::Mors);
    let c = m.normalized();
    let mut min_q = i64::MAX;
    let mut min_r = i64::MAX;
    for (p, _) in &c.atoms {
        min_q = min_q.min(p.q);
        min_r = min_r.min(p.r);
    }
    assert_eq!(min_q, 0);
    assert_eq!(min_r, 0);
}

#[test]
fn empty_molecule_canonicalizes_to_itself() {
    let m = Molecule::new();
    let c = m.normalized();
    assert_eq!(c.atoms.len(), 0);
    assert_eq!(c.bonds.len(), 0);
}
