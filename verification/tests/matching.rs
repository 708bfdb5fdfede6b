use hexmol::atom::AtomKind;
use hexmol::hex::HexIndex;
use hexmol::molecule::Molecule;
use hexmol::table::{Appearance, Role, lookup};

fn hx(q: i64, r: i64) -> HexIndex {
    HexIndex { q, r }
}

fn fire_table() -> Vec<(Molecule, Vec<Appearance>)> {
    let mut r1 = Molecule::new();
    r1.add_atom(hx(0, 0), AtomKind::Fire);
    let r1c = r1.normalized();
    vec![(
        r1c,
        vec![Appearance {
            puzzle: "puzzle-x".to_string(),
            role: Role::Product,
            name: "Fire Product".to_string(),
        }],
    )]
}

#[test]
fn lookup_correctness() {
    let table = fire_table();
    let mut m = Molecule::new();
    m.add_atom(hx(5, -3), AtomKind::Fire);
    let apps = lookup(&table, &m);
    assert_eq!(apps.len(), 1);
    assert_eq!(apps[0].puzzle, "puzzle-x");
    assert_eq!(apps[0].role, Role::Product);
    assert_eq!(apps[0].name, "Fire Product");
}

#[test]
fn lookup_no_match() {
    let table = fire_table();
    let mut m = Molecule::new();
    m.add_atom(hx(0, 0), AtomKind::Quintessence);
    let apps = lookup(&table, &m);
    assert_eq!(apps.len(), 0);
}

#[test]
fn lookup_first_matching_entry_wins() {
    let mut table = fire_table();
    // a second entry with the same canonical molecule is shadowed by the first
    let mut r2 = Molecule::new();
    r2.add_atom(hx(2, 2), AtomKind::Fire);
    let r2c = r2.normalized();
    table.push((
        r2c,
        vec![Appearance {
            puzzle: "puzzle-y".to_string(),
            role: Role::Reagent,
            name: "Shadowed".to_string(),
        }],
    ));
    let mut m = Molecule::new();
    m.add_atom(hx(1, 1), AtomKind::Fire);
    let apps = lookup(&table, &m);
    assert_eq!(apps.len(), 1);
    assert_eq!(apps[0].name, "Fire Product");
}

#[test]
fn lookup_ignores_drawing_orientation() {
    // two atoms drawn rotated and far away still match the table entry
    let mut r1 = Molecule::new();
    r1.add_atom(hx(0, 0), AtomKind::Vitae);
    r1.add_atom(hx(1, 0), AtomKind::Mors);
    let table = vec![(
        r1.normalized(),
        vec![Appearance {
            puzzle: "life-and-death".to_string(),
            role: Role::Both,
            name: "Vitae-Mors Pair".to_string(),
        }],
    )];
    let mut m = Molecule::new();
    m.add_atom(hx(40, -9), AtomKind::Vitae);
    m.add_atom(hx(40, -8), AtomKind::Mors);
    let apps = lookup(&table, &m);
    assert_eq!(apps.len(), 1);
    assert_eq!(apps[0].name, "Vitae-Mors Pair");
}
