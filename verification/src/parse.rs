//! Parsing of the textual grid state: atom names, coordinates, bond type
//! codes, and whole molecules from key/value entries.
//!
//! A key of the form `q,r` places the atom named by the value; a key of the
//! form `q1,r1:q2,r2` adds a bond whose type the value encodes (`n` for a
//! plain bond, otherwise a triplex with a strand for each of the letters
//! `r`, `k`, `y` the value contains).

use vstd::prelude::*;
use vstd::string::StrSliceExecFns;
use vstd::string::StringExecFns;
use crate::atom::AtomKind;
use crate::bond::{Bond, BondType};
use crate::hex::{HexIndex, COORD_LIMIT};
use crate::model::{MoleculeModel, bounded_mol};
use crate::molecule::{Molecule, upsert_atom, insert_bond, lemma_upsert_bounded};

verus! {

/// The atom kind a name denotes: each of the sixteen kinds by its
/// capitalized or lowercase name, anything else nothing.
pub open spec fn spec_parse_atom(s: Seq<char>) -> Option<AtomKind> {
    if s == "Salt"@ || s == "salt"@ {
        Option::Some(AtomKind::Salt)
    } else if s == "Air"@ || s == "air"@ {
        Option::Some(AtomKind::Air)
    } else if s == "Earth"@ || s == "earth"@ {
        Option::Some(AtomKind::Earth)
    } else if s == "Fire"@ || s == "fire"@ {
        Option::Some(AtomKind::Fire)
    } else if s == "Water"@ || s == "water"@ {
        Option::Some(AtomKind::Water)
    } else if s == "Quicksilver"@ || s == "quicksilver"@ {
        Option::Some(AtomKind::Quicksilver)
    } else if s == "Gold"@ || s == "gold"@ {
        Option::Some(AtomKind::Gold)
    } else if s == "Silver"@ || s == "silver"@ {
        Option::Some(AtomKind::Silver)
    } else if s == "Copper"@ || s == "copper"@ {
        Option::Some(AtomKind::Copper)
    } else if s == "Iron"@ || s == "iron"@ {
        Option::Some(AtomKind::Iron)
    } else if s == "Tin"@ || s == "tin"@ {
        Option::Some(AtomKind::Tin)
    } else if s == "Lead"@ || s == "lead"@ {
        Option::Some(AtomKind::Lead)
    } else if s == "Vitae"@ || s == "vitae"@ {
        Option::Some(AtomKind::Vitae)
    } else if s == "Mors"@ || s == "mors"@ {
        Option::Some(AtomKind::Mors)
    } else if s == "Repeat"@ || s == "repeat"@ {
        Option::Some(AtomKind::Repeat)
    } else if s == "Quintessence"@ || s == "quintessence"@ {
        Option::Some(AtomKind::Quintessence)
    } else {
        Option::None
    }
}

/// The lowercase name of an atom kind.
pub open spec fn spec_format_atom(k: AtomKind) -> Seq<char> {
    match k {
        AtomKind::Salt => "salt"@,
        AtomKind::Air => "air"@,
        AtomKind::Earth => "earth"@,
        AtomKind::Fire => "fire"@,
        AtomKind::Water => "water"@,
        AtomKind::Quicksilver => "quicksilver"@,
        AtomKind::Gold => "gold"@,
        AtomKind::Silver => "silver"@,
        AtomKind::Copper => "copper"@,
        AtomKind::Iron => "iron"@,
        AtomKind::Tin => "tin"@,
        AtomKind::Lead => "lead"@,
        AtomKind::Vitae => "vitae"@,
        AtomKind::Mors => "mors"@,
        AtomKind::Repeat => "repeat"@,
        AtomKind::Quintessence => "quintessence"@,
    }
}

/// String equality.
fn str_eq(a: &str, b: &str) -> (r: bool)
    ensures
        r == (a@ == b@),
{
    let sa = a.to_owned();
    let sb = b.to_owned();
    sa.eq(&sb)
}

/// Parse an atom name, capitalized or lowercase.
pub fn parse_atom(s: &str) -> (r: Option<AtomKind>)
    ensures
        r == spec_parse_atom(s@),
{
    if str_eq(s, "Salt") || str_eq(s, "salt") {
        Some(AtomKind::Salt)
    } else if str_eq(s, "Air") || str_eq(s, "air") {
        Some(AtomKind::Air)
    } else if str_eq(s, "Earth") || str_eq(s, "earth") {
        Some(AtomKind::Earth)
    } else if str_eq(s, "Fire") || str_eq(s, "fire") {
        Some(AtomKind::Fire)
    } else if str_eq(s, "Water") || str_eq(s, "water") {
        Some(AtomKind::Water)
    } else if str_eq(s, "Quicksilver") || str_eq(s, "quicksilver") {
        Some(AtomKind::Quicksilver)
    } else if str_eq(s, "Gold") || str_eq(s, "gold") {
        Some(AtomKind::Gold)
    } else if str_eq(s, "Silver") || str_eq(s, "silver") {
        Some(AtomKind::Silver)
    } else if str_eq(s, "Copper") || str_eq(s, "copper") {
        Some(AtomKind::Copper)
    } else if str_eq(s, "Iron") || str_eq(s, "iron") {
        Some(AtomKind::Iron)
    } else if str_eq(s, "Tin") || str_eq(s, "tin") {
        Some(AtomKind::Tin)
    } else if str_eq(s, "Lead") || str_eq(s, "lead") {
        Some(AtomKind::Lead)
    } else if str_eq(s, "Vitae") || str_eq(s, "vitae") {
        Some(AtomKind::Vitae)
    } else if str_eq(s, "Mors") || str_eq(s, "mors") {
        Some(AtomKind::Mors)
    } else if str_eq(s, "Repeat") || str_eq(s, "repeat") {
        Some(AtomKind::Repeat)
    } else if str_eq(s, "Quintessence") || str_eq(s, "quintessence") {
        Some(AtomKind::Quintessence)
    } else {
        None
    }
}

/// The lowercase display name of an atom kind.
pub fn format_atom(k: AtomKind) -> (r: String)
    ensures
        r@ == spec_format_atom(k),
{
    match k {
        AtomKind::Salt => String::from_str("salt"),
        AtomKind::Air => String::from_str("air"),
        AtomKind::Earth => String::from_str("earth"),
        AtomKind::Fire => String::from_str("fire"),
        AtomKind::Water => String::from_str("water"),
        AtomKind::Quicksilver => String::from_str("quicksilver"),
        AtomKind::Gold => String::from_str("gold"),
        AtomKind::Silver => String::from_str("silver"),
        AtomKind::Copper => String::from_str("copper"),
        AtomKind::Iron => String::from_str("iron"),
        AtomKind::Tin => String::from_str("tin"),
        AtomKind::Lead => String::from_str("lead"),
        AtomKind::Vitae => String::from_str("vitae"),
        AtomKind::Mors => String::from_str("mors"),
        AtomKind::Repeat => String::from_str("repeat"),
        AtomKind::Quintessence => String::from_str("quintessence"),
    }
}

/// A decimal digit.
pub open spec fn is_digit(c: char) -> bool {
    48 <= c as int <= 57
}

/// The value of one digit.
pub open spec fn digit_val(c: char) -> int {
    c as int - 48
}

/// Every character is a digit.
pub open spec fn all_digits(s: Seq<char>) -> bool {
    forall|i: int| 0 <= i < s.len() ==> is_digit(#[trigger] s[i])
}

/// The value of a digit string, most significant digit first.
pub open spec fn digits_val(s: Seq<char>) -> int
    decreases s.len(),
{
    if s.len() == 0 {
        0
    } else {
        digits_val(s.drop_last()) * 10 + digit_val(s.last())
    }
}

/// The signed integer a string denotes: an optional sign, then at least one
/// digit, all within the coordinate range the library accepts.
pub open spec fn spec_parse_int(s: Seq<char>) -> Option<int> {
    if s.len() > 0 && (s[0] == '-' || s[0] == '+') {
        if s.len() > 1 && all_digits(s.skip(1)) {
            checked_int(if s[0] == '-' {
                -digits_val(s.skip(1))
            } else {
                digits_val(s.skip(1))
            })
        } else {
            Option::None
        }
    } else if s.len() > 0 && all_digits(s) {
        checked_int(digits_val(s))
    } else {
        Option::None
    }
}

/// Keep a parsed value only within the accepted coordinate range.
pub open spec fn checked_int(v: int) -> Option<int> {
    if -(COORD_LIMIT as int) <= v <= COORD_LIMIT as int {
        Option::Some(v)
    } else {
        Option::None
    }
}

/// The value of a digit string grows with every appended digit.
proof fn lemma_digits_val_grows(s: Seq<char>, i: int)
    requires
        0 <= i <= s.len(),
        forall|j: int| 0 <= j < s.len() ==> is_digit(#[trigger] s[j]),
    ensures
        digits_val(s) >= digits_val(s.subrange(0, i)),
        digits_val(s) >= 0,
    decreases s.len() - i,
{
    if i == s.len() {
        assert(s.subrange(0, s.len() as int) =~= s);
        lemma_digits_val_nonneg(s);
    } else {
        lemma_digits_val_grows(s, i + 1);
        assert(s.subrange(0, i + 1).drop_last() =~= s.subrange(0, i));
        assert(s.subrange(0, i + 1).last() == s[i]);
        lemma_digits_val_nonneg(s.subrange(0, i));
        assert(digits_val(s.subrange(0, i + 1)) == digits_val(s.subrange(0, i)) * 10 + digit_val(
            s[i],
        ));
    }
}

/// A digit string has a nonnegative value.
proof fn lemma_digits_val_nonneg(s: Seq<char>)
    requires
        forall|j: int| 0 <= j < s.len() ==> is_digit(#[trigger] s[j]),
    ensures
        digits_val(s) >= 0,
    decreases s.len(),
{
    if s.len() > 0 {
        assert(forall|j: int|
            0 <= j < s.drop_last().len() ==> is_digit(#[trigger] s.drop_last()[j]));
        lemma_digits_val_nonneg(s.drop_last());
    }
}

/// Parse a signed decimal integer, accepting exactly the values within the
/// library's coordinate range.
#[verifier::loop_isolation(false)]
pub fn parse_i64(s: &str) -> (r: Option<i64>)
    ensures
        r is Some <==> spec_parse_int(s@) is Some,
        r is Some ==> Option::Some(r.unwrap() as int) == spec_parse_int(s@),
{
    let n = s.unicode_len();
    if n == 0 {
        return None;
    }
    let first = s.get_char(0);
    let neg = first == '-';
    let signed = neg || first == '+';
    let start: usize = if signed {
        1
    } else {
        0
    };
    if start >= n {
        return None;
    }
    let ghost digits = s@.skip(start as int);
    let mut i: usize = start;
    let mut acc: i64 = 0;
    let mut over = false;
    while i < n
        invariant
            start <= i <= n,
            forall|j: int| start <= j < i ==> is_digit(#[trigger] s@[j]),
            !over ==> 0 <= acc <= COORD_LIMIT && acc as int == digits_val(
                s@.subrange(start as int, i as int),
            ),
            over ==> digits_val(s@.subrange(start as int, i as int)) > COORD_LIMIT as int,
        decreases n - i,
    {
        let c = s.get_char(i);
        let u = c as u32;
        if u < 48 || u > 57 {
            proof {
                assert(!is_digit(s@[i as int]));
                if s@.len() > 0 && (s@[0] == '-' || s@[0] == '+') {
                    assert(s@.skip(1)[i as int - 1] == s@[i as int]);
                    assert(!all_digits(s@.skip(1)));
                } else {
                    assert(!all_digits(s@));
                }
            }
            return None;
        }
        let d: i64 = (u - 48) as i64;
        let ghost pre = s@.subrange(start as int, i as int);
        proof {
            assert(s@.subrange(start as int, i as int + 1).drop_last() =~= pre);
            assert(s@.subrange(start as int, i as int + 1).last() == s@[i as int]);
            assert(digits_val(s@.subrange(start as int, i as int + 1)) == digits_val(pre) * 10
                + digit_val(s@[i as int]));
        }
        if !over {
            if acc > (COORD_LIMIT - d) / 10 {
                over = true;
                proof {
                    assert(10 * (COORD_LIMIT as int - d as int) / 10 <= COORD_LIMIT as int
                        - d as int);
                    assert(acc as int * 10 + d as int > COORD_LIMIT as int) by {
                        let f = (COORD_LIMIT as int - d as int) / 10;
                        assert(COORD_LIMIT as int - d as int == 10 * f + (COORD_LIMIT as int
                            - d as int) % 10);
                        assert(acc as int >= f + 1);
                        assert(acc as int * 10 >= 10 * f + 10) by (nonlinear_arith)
                            requires
                                acc as int >= f + 1,
                        ;
                    }
                }
            } else {
                proof {
                    let f = (COORD_LIMIT as int - d as int) / 10;
                    assert(COORD_LIMIT as int - d as int == 10 * f + (COORD_LIMIT as int
                        - d as int) % 10);
                    assert(acc as int * 10 <= 10 * f) by (nonlinear_arith)
                        requires
                            acc as int <= f,
                    ;
                }
                acc = acc * 10 + d;
            }
        } else {
            proof {
                assert(digits_val(pre) > COORD_LIMIT as int);
                assert(digits_val(pre) * 10 >= digits_val(pre)) by (nonlinear_arith)
                    requires
                        digits_val(pre) > 0,
                ;
            }
        }
        i += 1;
    }
    proof {
        assert(s@.subrange(start as int, n as int) =~= digits);
        assert(all_digits(digits)) by {
            assert(forall|j: int|
                0 <= j < digits.len() ==> digits[j] == #[trigger] s@[j + start]);
        }
        if signed {
            assert(digits == s@.skip(1));
        } else {
            assert(digits =~= s@);
        }
    }
    if over {
        return None;
    }
    if neg {
        Some(-acc)
    } else {
        Some(acc)
    }
}

/// The index of the first occurrence of a character, if any.
pub open spec fn spec_find(s: Seq<char>, c: char) -> Option<int>
    decreases s.len(),
{
    if s.len() == 0 {
        Option::None
    } else if s[0] == c {
        Option::Some(0int)
    } else {
        match spec_find(s.drop_first(), c) {
            Option::Some(i) => Option::Some(i + 1),
            Option::None => Option::None,
        }
    }
}

/// The first occurrence is an occurrence, and nothing earlier is one.
proof fn lemma_spec_find(s: Seq<char>, c: char)
    ensures
        match spec_find(s, c) {
            Option::Some(i) => 0 <= i < s.len() && s[i] == c && forall|j: int|
                0 <= j < i ==> #[trigger] s[j] != c,
            Option::None => forall|j: int| 0 <= j < s.len() ==> #[trigger] s[j] != c,
        },
    decreases s.len(),
{
    if s.len() > 0 && s[0] != c {
        lemma_spec_find(s.drop_first(), c);
        assert(forall|j: int|
            1 <= j < s.len() ==> #[trigger] s[j] == s.drop_first()[j - 1]);
    }
}

/// Find the first occurrence of a character.
#[verifier::loop_isolation(false)]
pub fn find_char(s: &str, c: char) -> (r: Option<usize>)
    ensures
        match spec_find(s@, c) {
            Option::Some(i) => r is Some && r.unwrap() as int == i,
            Option::None => r is None,
        },
{
    proof {
        lemma_spec_find(s@, c);
    }
    let n = s.unicode_len();
    let mut i: usize = 0;
    while i < n
        invariant
            0 <= i <= n,
            forall|j: int| 0 <= j < i ==> #[trigger] s@[j] != c,
        decreases n - i,
    {
        if s.get_char(i) == c {
            proof {
                match spec_find(s@, c) {
                    Option::Some(f) => {
                        if f < i {
                            assert(s@[f] == c);
                        }
                        if f > i {
                            assert(s@[i as int] != c);
                        }
                    },
                    Option::None => {
                        assert(s@[i as int] != c);
                    },
                }
            }
            return Some(i);
        }
        i += 1;
    }
    proof {
        match spec_find(s@, c) {
            Option::Some(f) => {
                assert(s@[f] == c);
                assert(false);
            },
            Option::None => {},
        }
    }
    None
}

/// The coordinate pair a string of the form `q,r` denotes.
pub open spec fn spec_parse_coord(s: Seq<char>) -> Option<(int, int)> {
    match spec_find(s, ',') {
        Option::Some(i) => {
            let a = spec_parse_int(s.subrange(0, i));
            let b = spec_parse_int(s.subrange(i + 1, s.len() as int));
            if a is Some && b is Some {
                Option::Some((a.unwrap(), b.unwrap()))
            } else {
                Option::None
            }
        },
        Option::None => Option::None,
    }
}

/// Parse a coordinate pair `q,r`.
pub fn parse_coord(s: &str) -> (r: Option<HexIndex>)
    ensures
        r is Some <==> spec_parse_coord(s@) is Some,
        r is Some ==> Option::Some((r.unwrap().q as int, r.unwrap().r as int))
            == spec_parse_coord(s@),
        r is Some ==> r.unwrap().bounded(COORD_LIMIT as int),
{
    let n = s.unicode_len();
    match find_char(s, ',') {
        Some(i) => {
            proof {
                lemma_spec_find(s@, ',');
            }
            let left = s.substring_char(0, i);
            let right = s.substring_char(i + 1, n);
            match (parse_i64(left), parse_i64(right)) {
                (Some(q), Some(rr)) => Some(HexIndex { q, r: rr }),
                _ => None,
            }
        },
        None => None,
    }
}

/// The bond type a value string encodes: `n` is a plain bond; anything else
/// is a triplex with a strand for each of the letters `r`, `k`, `y` it
/// contains.
pub open spec fn spec_parse_bond_type(v: Seq<char>) -> BondType {
    if v == "n"@ {
        BondType::Normal
    } else {
        BondType::Triplex { red: v.contains('r'), black: v.contains('k'), yellow: v.contains('y') }
    }
}

/// Whether the string contains a character.
fn contains_char(s: &str, c: char) -> (r: bool)
    ensures
        r == s@.contains(c),
{
    proof {
        lemma_spec_find(s@, c);
    }
    let found = find_char(s, c);
    proof {
        match spec_find(s@, c) {
            Option::Some(i) => {
                assert(s@.contains(c));
            },
            Option::None => {
                if s@.contains(c) {
                    let i = choose|i: int| 0 <= i < s@.len() && s@[i] == c;
                    assert(false);
                }
            },
        }
    }
    match found {
        Some(_) => true,
        None => false,
    }
}

/// Parse a bond type code.
pub fn parse_bond_type(v: &str) -> (r: BondType)
    ensures
        r == spec_parse_bond_type(v@),
{
    if str_eq(v, "n") {
        BondType::Normal
    } else {
        BondType::Triplex {
            red: contains_char(v, 'r'),
            black: contains_char(v, 'k'),
            yellow: contains_char(v, 'y'),
        }
    }
}

/// The effect of one grid-state entry on a molecule under construction: a
/// key with a colon adds a bond between the two coordinates it joins, any
/// other key places the atom named by the value.  A malformed key or value
/// is nothing.
pub open spec fn spec_apply_entry(m: MoleculeModel, key: Seq<char>, value: Seq<char>) -> Option<
    MoleculeModel,
> {
    match spec_find(key, ':') {
        Option::Some(i) => {
            let a = spec_parse_coord(key.subrange(0, i));
            let b = spec_parse_coord(key.subrange(i + 1, key.len() as int));
            if a is Some && b is Some {
                Option::Some(
                    MoleculeModel {
                        atoms: m.atoms,
                        bonds: insert_bond(
                            m.bonds,
                            (a.unwrap(), b.unwrap(), spec_parse_bond_type(value)),
                        ),
                    },
                )
            } else {
                Option::None
            }
        },
        Option::None => {
            match spec_parse_coord(key) {
                Option::Some(p) => {
                    match spec_parse_atom(value) {
                        Option::Some(k) => Option::Some(
                            MoleculeModel { atoms: upsert_atom(m.atoms, p, k), bonds: m.bonds },
                        ),
                        Option::None => Option::None,
                    }
                },
                Option::None => Option::None,
            }
        },
    }
}

/// Apply one entry to a molecule under construction.
fn apply_entry(m: &mut Molecule, key: &str, value: &str) -> (ok: bool)
    requires
        bounded_mol(old(m)@, COORD_LIMIT as int),
    ensures
        ok == (spec_apply_entry(old(m)@, key@, value@) is Some),
        ok ==> Option::Some(final(m)@) == spec_apply_entry(old(m)@, key@, value@),
        !ok ==> final(m)@ == old(m)@,
        bounded_mol(final(m)@, COORD_LIMIT as int),
{
    let n = key.unicode_len();
    match find_char(key, ':') {
        Some(i) => {
            proof {
                lemma_spec_find(key@, ':');
            }
            let left = key.substring_char(0, i);
            let right = key.substring_char(i + 1, n);
            match (parse_coord(left), parse_coord(right)) {
                (Some(a), Some(b)) => {
                    let ty = parse_bond_type(value);
                    m.add_bond(Bond { start: a, end: b, ty });
                    proof {
                        let nb = insert_bond(
                            old(m)@.bonds,
                            (a@, b@, spec_parse_bond_type(value@)),
                        );
                        assert(m@.bonds == nb);
                        if !old(m)@.bonds.contains((a@, b@, spec_parse_bond_type(value@))) {
                            assert(forall|t: int|
                                0 <= t < old(m)@.bonds.len() ==> #[trigger] nb[t] == old(
                                    m,
                                )@.bonds[t]);
                        }
                    }
                    true
                },
                _ => false,
            }
        },
        None => {
            match parse_coord(key) {
                Some(p) => {
                    match parse_atom(value) {
                        Some(k) => {
                            proof {
                                lemma_upsert_bounded(
                                    old(m)@.atoms,
                                    p@,
                                    k,
                                    COORD_LIMIT as int,
                                );
                            }
                            m.add_atom(p, k);
                            true
                        },
                        None => false,
                    }
                },
                None => false,
            }
        },
    }
}

/// The string values of a list of entries.
pub open spec fn entries_view(s: Seq<(String, String)>) -> Seq<(Seq<char>, Seq<char>)> {
    s.map_values(|e: (String, String)| (e.0@, e.1@))
}

/// The molecule the first `i` entries build, starting from the empty
/// molecule, or nothing once any entry is malformed.
pub open spec fn spec_from_entries(entries: Seq<(Seq<char>, Seq<char>)>, i: int) -> Option<
    MoleculeModel,
>
    decreases i,
{
    if i <= 0 {
        Option::Some(MoleculeModel { atoms: Seq::empty(), bonds: Seq::empty() })
    } else {
        match spec_from_entries(entries, i - 1) {
            Option::Some(m) => spec_apply_entry(m, entries[i - 1].0, entries[i - 1].1),
            Option::None => Option::None,
        }
    }
}

/// Build a molecule from the key/value entries of a submitted grid state.
/// The result is the molecule the entries describe, or nothing when any
/// entry is malformed; its coordinates are within the library's accepted
/// range.
#[verifier::loop_isolation(false)]
pub fn molecule_from_entries(entries: &Vec<(String, String)>) -> (r: Option<Molecule>)
    ensures
        match spec_from_entries(entries_view(entries@), entries@.len() as int) {
            Option::Some(mm) => r is Some && r.unwrap()@ == mm && bounded_mol(
                r.unwrap()@,
                COORD_LIMIT as int,
            ),
            Option::None => r is None,
        },
{
    let ghost ev = entries_view(entries@);
    let mut m = Molecule::new();
    proof {
        assert(m@ =~= (MoleculeModel { atoms: Seq::empty(), bonds: Seq::empty() }));
    }
    let mut i: usize = 0;
    while i < entries.len()
        invariant
            0 <= i <= entries.len(),
            Option::Some(m@) == spec_from_entries(ev, i as int),
            bounded_mol(m@, COORD_LIMIT as int),
        decreases entries.len() - i,
    {
        let ok = apply_entry(&mut m, entries[i].0.as_str(), entries[i].1.as_str());
        if !ok {
            proof {
                assert(spec_from_entries(ev, i as int + 1) is None);
                assert forall|j: int| i as int + 1 <= j <= ev.len() implies spec_from_entries(
                    ev,
                    j,
                ) is None by {
                    lemma_from_entries_none(ev, i as int + 1, j);
                }
            }
            return None;
        }
        i += 1;
    }
    Some(m)
}

/// Once a prefix fails to build, every longer prefix fails too.
proof fn lemma_from_entries_none(entries: Seq<(Seq<char>, Seq<char>)>, i: int, j: int)
    requires
        0 <= i <= j,
        spec_from_entries(entries, i) is None,
    ensures
        spec_from_entries(entries, j) is None,
    decreases j - i,
{
    if j > i {
        lemma_from_entries_none(entries, i, j - 1);
    }
}

} // verus!
