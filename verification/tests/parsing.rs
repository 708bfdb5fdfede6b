use hexmol::atom::AtomKind;
use hexmol::bond::BondType;
use hexmol::hex::HexIndex;
use hexmol::parse::{parse_atom, format_atom, parse_i64, parse_coord, parse_bond_type,
    molecule_from_entries};

#[test]
fn parse_atom_names() {
    assert_eq!(parse_atom("Salt"), Some(AtomKind::Salt));
    assert_eq!(parse_atom("salt"), Some(AtomKind::Salt));
    assert_eq!(parse_atom("Fire"), Some(AtomKind::Fire));
    assert_eq!(parse_atom("quintessence"), Some(AtomKind::Quintessence));
    assert_eq!(parse_atom("Quicksilver"), Some(AtomKind::Quicksilver));
    assert_eq!(parse_atom("FIRE"), None);
    assert_eq!(parse_atom(""), None);
    assert_eq!(parse_atom("plutonium"), None);
}

#[test]
fn format_atom_round_trip() {
    let kinds = [
        AtomKind::Salt,
        AtomKind::Air,
        AtomKind::Earth,
        AtomKind::Fire,
        AtomKind::Water,
        AtomKind::Quicksilver,
        AtomKind::Gold,
        AtomKind::Silver,
        AtomKind::Copper,
        AtomKind::Iron,
        AtomKind::Tin,
        AtomKind::Lead,
        AtomKind::Vitae,
        AtomKind::Mors,
        AtomKind::Repeat,
        AtomKind::Quintessence,
    ];
    for k in kinds {
        let name = format_atom(k);
        assert_eq!(parse_atom(&name), Some(k));
    }
}

#[test]
fn parse_i64_values() {
    assert_eq!(parse_i64("0"), Some(0));
    assert_eq!(parse_i64("42"), Some(42));
    assert_eq!(parse_i64("-7"), Some(-7));
    assert_eq!(parse_i64("+13"), Some(13));
    assert_eq!(parse_i64("007"), Some(7));
    assert_eq!(parse_i64(""), None);
    assert_eq!(parse_i64("-"), None);
    assert_eq!(parse_i64("+"), None);
    assert_eq!(parse_i64("1.5"), None);
    assert_eq!(parse_i64("12a"), None);
    assert_eq!(parse_i64(" 3"), None);
}

#[test]
fn parse_i64_range() {
    // the accepted coordinate range is +/- 400_000_000_000_000_000
    assert_eq!(parse_i64("400000000000000000"), Some(400_000_000_000_000_000));
    assert_eq!(parse_i64("-400000000000000000"), Some(-400_000_000_000_000_000));
    assert_eq!(parse_i64("400000000000000001"), None);
    assert_eq!(parse_i64("99999999999999999999999999"), None);
}

#[test]
fn parse_coord_pairs() {
    assert_eq!(parse_coord("3,-4"), Some(HexIndex { q: 3, r: -4 }));
    assert_eq!(parse_coord("0,0"), Some(HexIndex { q: 0, r: 0 }));
    assert_eq!(parse_coord("3"), None);
    assert_eq!(parse_coord("3,"), None);
    assert_eq!(parse_coord(",4"), None);
    assert_eq!(parse_coord("1,2,3"), None);
    assert_eq!(parse_coord("a,b"), None);
}

#[test]
fn parse_bond_type_codes() {
    assert_eq!(parse_bond_type("n"), BondType::Normal);
    assert_eq!(
        parse_bond_type("rky"),
        BondType::Triplex { red: true, black: true, yellow: true }
    );
    assert_eq!(
        parse_bond_type("r"),
        BondType::Triplex { red: true, black: false, yellow: false }
    );
    assert_eq!(
        parse_bond_type(""),
        BondType::Triplex { red: false, black: false, yellow: false }
    );
    assert_eq!(
        parse_bond_type("yk"),
        BondType::Triplex { red: false, black: true, yellow: true }
    );
}

#[test]
fn molecule_from_entries_builds() {
    let entries = vec![
        ("0,0".to_string(), "fire".to_string()),
        ("1,0".to_string(), "water".to_string()),
        ("0,0:1,0".to_string(), "n".to_string()),
    ];
    let m = molecule_from_entries(&entries).expect("well-formed entries");
    assert_eq!(m.atoms.len(), 2);
    assert_eq!(m.bonds.len(), 1);
    assert_eq!(m.bonds[0].ty, BondType::Normal);
}

#[test]
fn molecule_from_entries_rejects_bad_atom() {
    let entries = vec![("0,0".to_string(), "dirt".to_string())];
    assert!(molecule_from_entries(&entries).is_none());
}

#[test]
fn molecule_from_entries_rejects_bad_coordinate() {
    let entries = vec![("zero,0".to_string(), "fire".to_string())];
    assert!(molecule_from_entries(&entries).is_none());
}

#[test]
fn molecule_from_entries_rejects_bad_bond_key() {
    let entries = vec![("0,0:1".to_string(), "n".to_string())];
    assert!(molecule_from_entries(&entries).is_none());
}

#[test]
fn molecule_from_entries_empty_is_empty() {
    let entries: Vec<(String, String)> = Vec::new();
    let m = molecule_from_entries(&entries).expect("empty state is fine");
    assert_eq!(m.atoms.len(), 0);
    assert_eq!(m.bonds.len(), 0);
}
