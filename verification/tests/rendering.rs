use hexmol::atom::AtomKind;
use hexmol::hex::HexIndex;
use hexmol::molecule::Molecule;
use hexmol::render::{bond_direction, draw_bounds};

fn hx(q: i64, r: i64) -> HexIndex {
    HexIndex { q, r }
}

#[test]
fn bond_direction_units() {
    assert_eq!(bond_direction(hx(0, 0), hx(1, 0)), Some(0));
    assert_eq!(bond_direction(hx(0, 0), hx(0, 1)), Some(1));
    assert_eq!(bond_direction(hx(0, 0), hx(-1, 1)), Some(2));
    assert_eq!(bond_direction(hx(0, 0), hx(-1, 0)), Some(3));
    assert_eq!(bond_direction(hx(0, 0), hx(0, -1)), Some(4));
    assert_eq!(bond_direction(hx(0, 0), hx(1, -1)), Some(5));
    // translation invariance of the direction
    assert_eq!(bond_direction(hx(4, -2), hx(5, -3)), Some(5));
}

#[test]
fn bond_direction_rejects_non_adjacent() {
    assert_eq!(bond_direction(hx(0, 0), hx(2, 0)), None);
    assert_eq!(bond_direction(hx(0, 0), hx(0, 0)), None);
    assert_eq!(bond_direction(hx(0, 0), hx(1, 1)), None);
}

#[test]
fn draw_bounds_single_atom() {
    let mut m = Molecule::new();
    m.add_atom(hx(0, 0), AtomKind::Gold);
    // width: ((2 - 0) * 41 + 10) * 3 / 4 = 69; height: (1 * 71 + 20) * 3 / 4 = 68
    assert_eq!(draw_bounds(&m), (69, 68));
}

#[test]
fn draw_bounds_empty() {
    let m = Molecule::new();
    // only the margins remain: (10 * 3) / 4 = 7 and (20 * 3) / 4 = 15
    assert_eq!(draw_bounds(&m), (7, 15));
}

#[test]
fn draw_bounds_row_of_two() {
    let mut m = Molecule::new();
    m.add_atom(hx(0, 0), AtomKind::Gold);
    m.add_atom(hx(1, 0), AtomKind::Gold);
    // width: ((4 - 0) * 41 + 10) * 3 / 4 = 130; height unchanged
    assert_eq!(draw_bounds(&m), (130, 68));
}
