//! The executable molecule representation and the canonicalization engine.
//!
//! A [`Molecule`] stores its atoms and bonds in plain vectors; its model
//! ([`crate::model::MoleculeModel`]) is the pair of corresponding sequences.
//! [`Molecule::normalized`] computes the canonical form [`crate::model::canon`]
//! exactly.

use vstd::prelude::*;
use vstd::relations::sorted_by;
use crate::atom::AtomKind;
use crate::bond::Bond;
use crate::hex::{HexIndex, COORD_LIMIT, WORK_LIMIT, rot_exec, in_range, lemma_rotp_bounded};
use crate::model::{MoleculeModel, translate_atoms, translate_bonds, norm_bonds,
    translate_mol, rot_mol, rot_about_mol, mirror_mol, min_q, min_r, norm_offset, posnorm,
    has_repeat, mol_le, candidate, best_upto, canon, bounded_mol, lemma_min_q_push,
    lemma_min_r_push, lemma_bounded_rot_mol};
use crate::order::{PlacedAtom, PlacedBond, atom_model, atoms_model, bonds_model, atom_le, bond_le,
    atom_leq, bond_leq, atom_le_exec, bond_le_exec, atom_entry_eq, bond_eq,
    lex_cmp_atoms, lex_cmp_bonds, lemma_atom_order_total, lemma_bond_order_total};
use crate::seqorder::{dedup_sorted, lex_le, lemma_lex_refl, lemma_lex_antisym, lemma_dedup_push,
    lemma_dedup_last, lemma_sorted_insert, lemma_sorted_version_unique};

verus! {

/// Largest coordinate magnitude that position normalization accepts; the
/// difference of two such coordinates still fits in an `i64`.
pub const NORM_INPUT_LIMIT: i64 = 4_000_000_000_000_000_000;

/// A molecule: atoms placed on grid cells, and bonds between cells.  Atom
/// positions are expected to be distinct, as on a real grid each cell holds
/// at most one atom; positions entered twice keep the kind entered last.
pub struct Molecule {
    pub atoms: Vec<(HexIndex, AtomKind)>,
    pub bonds: Vec<Bond>,
}

impl View for Molecule {
    type V = MoleculeModel;

    open spec fn view(&self) -> MoleculeModel {
        MoleculeModel { atoms: atoms_model(self.atoms@), bonds: bonds_model(self.bonds@) }
    }
}

/// Replace the kind at the first entry for position `p`, or append a new
/// entry when the position is new.
pub open spec fn upsert_atom(s: Seq<PlacedAtom>, p: (int, int), k: AtomKind) -> Seq<PlacedAtom>
    decreases s.len(),
{
    if s.len() == 0 {
        seq![(p, k)]
    } else if s[0].0 == p {
        seq![(p, k)] + s.drop_first()
    } else {
        seq![s[0]] + upsert_atom(s.drop_first(), p, k)
    }
}

/// Add a bond unless an identical bond is already present.
pub open spec fn insert_bond(s: Seq<PlacedBond>, b: PlacedBond) -> Seq<PlacedBond> {
    if s.contains(b) {
        s
    } else {
        s.push(b)
    }
}

/// When position `p` first occurs at index `i`, the upsert updates index `i`.
proof fn lemma_upsert_found(s: Seq<PlacedAtom>, p: (int, int), k: AtomKind, i: int)
    requires
        0 <= i < s.len(),
        s[i].0 == p,
        forall|j: int| 0 <= j < i ==> (#[trigger] s[j]).0 != p,
    ensures
        upsert_atom(s, p, k) == s.update(i, (p, k)),
    decreases i,
{
    if i == 0 {
        assert(seq![(p, k)] + s.drop_first() =~= s.update(0, (p, k)));
    } else {
        assert(s[0].0 != p);
        assert(forall|j: int|
            0 <= j < i - 1 ==> (#[trigger] s.drop_first()[j]).0 != p && s.drop_first()[j] == s[j
                + 1]);
        assert(s.drop_first()[i - 1].0 == p);
        lemma_upsert_found(s.drop_first(), p, k, i - 1);
        assert(seq![s[0]] + s.drop_first().update(i - 1, (p, k)) =~= s.update(i, (p, k)));
    }
}

/// When position `p` never occurs, the upsert appends.
proof fn lemma_upsert_absent(s: Seq<PlacedAtom>, p: (int, int), k: AtomKind)
    requires
        forall|j: int| 0 <= j < s.len() ==> (#[trigger] s[j]).0 != p,
    ensures
        upsert_atom(s, p, k) == s.push((p, k)),
    decreases s.len(),
{
    if s.len() == 0 {
        assert(seq![(p, k)] =~= s.push((p, k)));
    } else {
        assert(forall|j: int|
            0 <= j < s.drop_first().len() ==> (#[trigger] s.drop_first()[j]).0 != p
                && s.drop_first()[j] == s[j + 1]);
        lemma_upsert_absent(s.drop_first(), p, k);
        assert(seq![s[0]] + s.drop_first().push((p, k)) =~= s.push((p, k)));
    }
}

/// Placing an atom at an in-range position keeps the molecule's atoms
/// bounded.
pub proof fn lemma_upsert_bounded(s: Seq<PlacedAtom>, p: (int, int), k: AtomKind, b: int)
    requires
        forall|i: int| 0 <= i < s.len() ==> in_range((#[trigger] s[i]).0, b),
        in_range(p, b),
    ensures
        forall|i: int|
            0 <= i < upsert_atom(s, p, k).len() ==> in_range(
                (#[trigger] upsert_atom(s, p, k)[i]).0,
                b,
            ),
    decreases s.len(),
{
    if s.len() == 0 {
    } else if s[0].0 == p {
        assert(forall|i: int|
            1 <= i < upsert_atom(s, p, k).len() ==> #[trigger] upsert_atom(s, p, k)[i] == s[i]);
    } else {
        assert(forall|i: int|
            0 <= i < s.drop_first().len() ==> in_range((#[trigger] s.drop_first()[i]).0, b));
        lemma_upsert_bounded(s.drop_first(), p, k, b);
        assert(forall|i: int|
            1 <= i < upsert_atom(s, p, k).len() ==> #[trigger] upsert_atom(s, p, k)[i]
                == upsert_atom(s.drop_first(), p, k)[i - 1]);
    }
}

/// Adding a bond with in-range endpoints keeps the molecule's bonds bounded.
pub proof fn lemma_insert_bond_bounded(s: Seq<PlacedBond>, b: PlacedBond, lim: int)
    requires
        forall|i: int|
            0 <= i < s.len() ==> in_range((#[trigger] s[i]).0, lim) && in_range(s[i].1, lim),
        in_range(b.0, lim),
        in_range(b.1, lim),
    ensures
        forall|i: int|
            0 <= i < insert_bond(s, b).len() ==> in_range((#[trigger] insert_bond(s, b)[i]).0, lim)
                && in_range(insert_bond(s, b)[i].1, lim),
{
    if !s.contains(b) {
        assert(forall|i: int|
            0 <= i < s.len() ==> #[trigger] insert_bond(s, b)[i] == s[i]);
        assert(insert_bond(s, b)[s.len() as int] == b);
    }
}

impl Molecule {
    /// The empty molecule.
    pub fn new() -> (r: Molecule)
        ensures
            r@.atoms.len() == 0,
            r@.bonds.len() == 0,
    {
        Molecule { atoms: Vec::new(), bonds: Vec::new() }
    }

    /// Place an atom: a position entered twice keeps the kind entered last,
    /// as a grid cell holds at most one atom.
    #[verifier::loop_isolation(false)]
    pub fn add_atom(&mut self, pos: HexIndex, kind: AtomKind)
        ensures
            final(self)@.atoms == upsert_atom(old(self)@.atoms, pos@, kind),
            final(self)@.bonds == old(self)@.bonds,
    {
        let mut i: usize = 0;
        while i < self.atoms.len()
            invariant
                i <= self.atoms.len(),
                self.atoms@ == old(self).atoms@,
                self.bonds@ == old(self).bonds@,
                forall|j: int| 0 <= j < i ==> (#[trigger] atoms_model(self.atoms@)[j]).0 != pos@,
            decreases self.atoms.len() - i,
        {
            if self.atoms[i].0 == pos {
                let ghost prev = atoms_model(self.atoms@);
                self.atoms.remove(i);
                self.atoms.insert(i, (pos, kind));
                proof {
                    lemma_upsert_found(prev, pos@, kind, i as int);
                    assert(atoms_model(self.atoms@) =~= prev.update(i as int, (pos@, kind)));
                }
                return ;
            }
            i += 1;
        }
        let ghost prev = atoms_model(self.atoms@);
        self.atoms.push((pos, kind));
        proof {
            lemma_upsert_absent(prev, pos@, kind);
            assert(atoms_model(self.atoms@) =~= prev.push((pos@, kind)));
        }
    }

    /// Add a bond; an identical bond entered twice is stored once, as bonds
    /// form a set.
    #[verifier::loop_isolation(false)]
    pub fn add_bond(&mut self, b: Bond)
        ensures
            final(self)@.bonds == insert_bond(old(self)@.bonds, b@),
            final(self)@.atoms == old(self)@.atoms,
    {
        let mut i: usize = 0;
        while i < self.bonds.len()
            invariant
                i <= self.bonds.len(),
                self.atoms@ == old(self).atoms@,
                self.bonds@ == old(self).bonds@,
                forall|j: int| 0 <= j < i ==> #[trigger] bonds_model(self.bonds@)[j] != b@,
            decreases self.bonds.len() - i,
        {
            if bond_eq(&self.bonds[i], &b) {
                proof {
                    assert(bonds_model(self.bonds@)[i as int] == b@);
                    assert(bonds_model(self.bonds@).contains(b@));
                }
                return ;
            }
            i += 1;
        }
        let ghost prev = bonds_model(self.bonds@);
        self.bonds.push(b);
        proof {
            if prev.contains(b@) {
                let j = choose|j: int| 0 <= j < prev.len() && prev[j] == b@;
                assert(false);
            }
            assert(bonds_model(self.bonds@) =~= prev.push(b@));
        }
    }

    /// Translate the whole molecule by an offset.
    #[verifier::loop_isolation(false)]
    pub fn translated(&self, d: HexIndex) -> (r: Molecule)
        requires
            bounded_mol(self@, COORD_LIMIT as int),
            d.bounded(COORD_LIMIT as int),
        ensures
            r@ == translate_mol(self@, d@),
    {
        let mut atoms: Vec<(HexIndex, AtomKind)> = Vec::new();
        let mut i: usize = 0;
        while i < self.atoms.len()
            invariant
                i <= self.atoms.len(),
                atoms_model(atoms@) == translate_atoms(self@.atoms, d@).subrange(0, i as int),
            decreases self.atoms.len() - i,
        {
            let (p, kind) = self.atoms[i];
            proof {
                assert(in_range(self@.atoms[i as int].0, COORD_LIMIT as int));
            }
            atoms.push((HexIndex { q: p.q + d.q, r: p.r + d.r }, kind));
            proof {
                assert(atoms_model(atoms@) =~= translate_atoms(self@.atoms, d@).subrange(
                    0,
                    i as int + 1,
                ));
            }
            i += 1;
        }
        let mut bonds: Vec<Bond> = Vec::new();
        let mut j: usize = 0;
        while j < self.bonds.len()
            invariant
                j <= self.bonds.len(),
                bonds_model(bonds@) == translate_bonds(self@.bonds, d@).subrange(0, j as int),
            decreases self.bonds.len() - j,
        {
            let b = self.bonds[j];
            proof {
                assert(in_range(self@.bonds[j as int].0, COORD_LIMIT as int));
                assert(in_range(self@.bonds[j as int].1, COORD_LIMIT as int));
            }
            bonds.push(
                Bond {
                    start: HexIndex { q: b.start.q + d.q, r: b.start.r + d.r },
                    end: HexIndex { q: b.end.q + d.q, r: b.end.r + d.r },
                    ty: b.ty,
                },
            );
            proof {
                assert(bonds_model(bonds@) =~= translate_bonds(self@.bonds, d@).subrange(
                    0,
                    j as int + 1,
                ));
            }
            j += 1;
        }
        let r = Molecule { atoms, bonds };
        proof {
            assert(translate_atoms(self@.atoms, d@).subrange(
                0,
                self.atoms@.len() as int,
            ) =~= translate_atoms(self@.atoms, d@));
            assert(translate_bonds(self@.bonds, d@).subrange(
                0,
                self.bonds@.len() as int,
            ) =~= translate_bonds(self@.bonds, d@));
            assert(r@ =~= translate_mol(self@, d@));
        }
        r
    }

    /// Rotate the whole molecule `k` steps of sixty degrees about `pivot`.
    #[verifier::loop_isolation(false)]
    pub fn rotated(&self, pivot: HexIndex, k: u8) -> (r: Molecule)
        requires
            k < 6,
            bounded_mol(self@, COORD_LIMIT as int),
            pivot.bounded(COORD_LIMIT as int),
        ensures
            r@ == rot_about_mol(self@, pivot@, k as int),
    {
        let ghost target = rot_about_mol(self@, pivot@, k as int);
        let mut atoms: Vec<(HexIndex, AtomKind)> = Vec::new();
        let mut i: usize = 0;
        while i < self.atoms.len()
            invariant
                i <= self.atoms.len(),
                atoms_model(atoms@) == target.atoms.subrange(0, i as int),
            decreases self.atoms.len() - i,
        {
            let (p, kind) = self.atoms[i];
            proof {
                assert(in_range(self@.atoms[i as int].0, COORD_LIMIT as int));
            }
            let rel = HexIndex { q: p.q - pivot.q, r: p.r - pivot.r };
            let rr = rot_exec(rel, k);
            proof {
                lemma_rotp_bounded(rel@, k as int, 2 * COORD_LIMIT as int);
            }
            atoms.push((HexIndex { q: rr.q + pivot.q, r: rr.r + pivot.r }, kind));
            proof {
                assert(atoms_model(atoms@) =~= target.atoms.subrange(0, i as int + 1));
            }
            i += 1;
        }
        let mut bonds: Vec<Bond> = Vec::new();
        let mut j: usize = 0;
        while j < self.bonds.len()
            invariant
                j <= self.bonds.len(),
                bonds_model(bonds@) == target.bonds.subrange(0, j as int),
            decreases self.bonds.len() - j,
        {
            let b = self.bonds[j];
            proof {
                assert(in_range(self@.bonds[j as int].0, COORD_LIMIT as int));
                assert(in_range(self@.bonds[j as int].1, COORD_LIMIT as int));
            }
            let rels = HexIndex { q: b.start.q - pivot.q, r: b.start.r - pivot.r };
            let rele = HexIndex { q: b.end.q - pivot.q, r: b.end.r - pivot.r };
            let rrs = rot_exec(rels, k);
            let rre = rot_exec(rele, k);
            proof {
                lemma_rotp_bounded(rels@, k as int, 2 * COORD_LIMIT as int);
                lemma_rotp_bounded(rele@, k as int, 2 * COORD_LIMIT as int);
            }
            bonds.push(
                Bond {
                    start: HexIndex { q: rrs.q + pivot.q, r: rrs.r + pivot.r },
                    end: HexIndex { q: rre.q + pivot.q, r: rre.r + pivot.r },
                    ty: b.ty,
                },
            );
            proof {
                assert(bonds_model(bonds@) =~= target.bonds.subrange(0, j as int + 1));
            }
            j += 1;
        }
        let r = Molecule { atoms, bonds };
        proof {
            assert(target.atoms.subrange(0, self.atoms@.len() as int) =~= target.atoms);
            assert(target.bonds.subrange(0, self.bonds@.len() as int) =~= target.bonds);
            assert(r@ =~= target);
        }
        r
    }

    /// Rotate about the origin; used by the candidate search.
    #[verifier::loop_isolation(false)]
    fn rotated_origin(&self, k: u8) -> (r: Molecule)
        requires
            k < 6,
            bounded_mol(self@, WORK_LIMIT as int),
        ensures
            r@ == rot_mol(self@, k as int),
    {
        let ghost target = rot_mol(self@, k as int);
        let mut atoms: Vec<(HexIndex, AtomKind)> = Vec::new();
        let mut i: usize = 0;
        while i < self.atoms.len()
            invariant
                i <= self.atoms.len(),
                atoms_model(atoms@) == target.atoms.subrange(0, i as int),
            decreases self.atoms.len() - i,
        {
            let (p, kind) = self.atoms[i];
            proof {
                assert(in_range(self@.atoms[i as int].0, WORK_LIMIT as int));
            }
            let rr = rot_exec(p, k);
            atoms.push((rr, kind));
            proof {
                assert(atoms_model(atoms@) =~= target.atoms.subrange(0, i as int + 1));
            }
            i += 1;
        }
        let mut bonds: Vec<Bond> = Vec::new();
        let mut j: usize = 0;
        while j < self.bonds.len()
            invariant
                j <= self.bonds.len(),
                bonds_model(bonds@) == target.bonds.subrange(0, j as int),
            decreases self.bonds.len() - j,
        {
            let b = self.bonds[j];
            proof {
                assert(in_range(self@.bonds[j as int].0, WORK_LIMIT as int));
                assert(in_range(self@.bonds[j as int].1, WORK_LIMIT as int));
            }
            let rrs = rot_exec(b.start, k);
            let rre = rot_exec(b.end, k);
            bonds.push(Bond { start: rrs, end: rre, ty: b.ty });
            proof {
                assert(bonds_model(bonds@) =~= target.bonds.subrange(0, j as int + 1));
            }
            j += 1;
        }
        let r = Molecule { atoms, bonds };
        proof {
            assert(target.atoms.subrange(0, self.atoms@.len() as int) =~= target.atoms);
            assert(target.bonds.subrange(0, self.bonds@.len() as int) =~= target.bonds);
            assert(r@ =~= target);
        }
        r
    }

    /// The smallest `q` and `r` coordinates among the atoms, zero for a
    /// molecule without atoms.
    #[verifier::loop_isolation(false)]
    fn min_coords(&self) -> (res: (i64, i64))
        requires
            bounded_mol(self@, NORM_INPUT_LIMIT as int),
        ensures
            res.0 as int == min_q(self@.atoms),
            res.1 as int == min_r(self@.atoms),
            -NORM_INPUT_LIMIT <= res.0 <= NORM_INPUT_LIMIT,
            -NORM_INPUT_LIMIT <= res.1 <= NORM_INPUT_LIMIT,
    {
        if self.atoms.len() == 0 {
            return (0, 0);
        }
        proof {
            assert(in_range(self@.atoms[0].0, NORM_INPUT_LIMIT as int));
        }
        let mut mq: i64 = self.atoms[0].0.q;
        let mut mr: i64 = self.atoms[0].0.r;
        let mut i: usize = 1;
        proof {
            assert(self@.atoms.subrange(0, 1) =~= seq![self@.atoms[0]]);
        }
        while i < self.atoms.len()
            invariant
                1 <= i <= self.atoms.len(),
                mq as int == min_q(self@.atoms.subrange(0, i as int)),
                mr as int == min_r(self@.atoms.subrange(0, i as int)),
                -NORM_INPUT_LIMIT <= mq <= NORM_INPUT_LIMIT,
                -NORM_INPUT_LIMIT <= mr <= NORM_INPUT_LIMIT,
            decreases self.atoms.len() - i,
        {
            let (p, _) = self.atoms[i];
            proof {
                assert(in_range(self@.atoms[i as int].0, NORM_INPUT_LIMIT as int));
                lemma_min_q_push(self@.atoms.subrange(0, i as int), self@.atoms[i as int]);
                lemma_min_r_push(self@.atoms.subrange(0, i as int), self@.atoms[i as int]);
                assert(self@.atoms.subrange(0, i as int + 1) =~= self@.atoms.subrange(
                    0,
                    i as int,
                ).push(self@.atoms[i as int]));
            }
            if p.q < mq {
                mq = p.q;
            }
            if p.r < mr {
                mr = p.r;
            }
            i += 1;
        }
        proof {
            assert(self@.atoms.subrange(0, self.atoms@.len() as int) =~= self@.atoms);
        }
        (mq, mr)
    }
}

/// Insertion sort of an atom list under the canonical atom order.
#[verifier::loop_isolation(false)]
fn sort_atoms(v: &Vec<(HexIndex, AtomKind)>) -> (out: Vec<(HexIndex, AtomKind)>)
    ensures
        atoms_model(out@) == atoms_model(v@).sort_by(atom_leq()),
{
    broadcast use vstd::seq_lib::group_to_multiset_ensures;

    proof {
        lemma_atom_order_total();
    }
    let ghost src = atoms_model(v@);
    let mut out: Vec<(HexIndex, AtomKind)> = Vec::new();
    let mut i: usize = 0;
    while i < v.len()
        invariant
            i <= v.len(),
            sorted_by(atoms_model(out@), atom_leq()),
            atoms_model(out@).to_multiset() == src.subrange(0, i as int).to_multiset(),
        decreases v.len() - i,
    {
        let e = v[i];
        let ghost me = atom_model(e);
        let ghost cur = atoms_model(out@);
        let mut j: usize = 0;
        while j < out.len() && atom_le_exec(&out[j], &e)
            invariant
                j <= out.len(),
                cur == atoms_model(out@),
                forall|t: int| 0 <= t < j ==> atom_le(#[trigger] cur[t], me),
            decreases out.len() - j,
        {
            j += 1;
        }
        proof {
            assert forall|t: int| j <= t < cur.len() implies atom_le(me, #[trigger] cur[t]) by {
                assert(!atom_le(cur[j as int], me));
                assert(atom_le(me, cur[j as int]));
                if t > j {
                    assert(atom_leq()(cur[j as int], cur[t]));
                }
            }
        }
        let ghost prevseq = out@;
        out.insert(j, e);
        proof {
            assert(atoms_model(out@) =~= cur.insert(j as int, me)) by {
                prevseq.insert_ensures(j as int, e);
                cur.insert_ensures(j as int, me);
            }
            lemma_sorted_insert(cur, j as int, me, atom_leq());
            assert(cur.insert(j as int, me).to_multiset() == cur.to_multiset().insert(me));
            assert(src.subrange(0, i as int + 1) =~= src.subrange(0, i as int).push(me));
            assert(src.subrange(0, i as int).push(me).to_multiset() == src.subrange(
                0,
                i as int,
            ).to_multiset().insert(me));
        }
        i += 1;
    }
    proof {
        assert(src.subrange(0, v@.len() as int) =~= src);
        lemma_sorted_version_unique(src, atoms_model(out@), atom_leq());
    }
    out
}

/// Insertion sort of a bond list under the canonical bond order.
#[verifier::loop_isolation(false)]
fn sort_bonds(v: &Vec<Bond>) -> (out: Vec<Bond>)
    ensures
        bonds_model(out@) == bonds_model(v@).sort_by(bond_leq()),
{
    broadcast use vstd::seq_lib::group_to_multiset_ensures;

    proof {
        lemma_bond_order_total();
    }
    let ghost src = bonds_model(v@);
    let mut out: Vec<Bond> = Vec::new();
    let mut i: usize = 0;
    while i < v.len()
        invariant
            i <= v.len(),
            sorted_by(bonds_model(out@), bond_leq()),
            bonds_model(out@).to_multiset() == src.subrange(0, i as int).to_multiset(),
        decreases v.len() - i,
    {
        let e = v[i];
        let ghost me = e@;
        let ghost cur = bonds_model(out@);
        let mut j: usize = 0;
        while j < out.len() && bond_le_exec(&out[j], &e)
            invariant
                j <= out.len(),
                cur == bonds_model(out@),
                forall|t: int| 0 <= t < j ==> bond_le(#[trigger] cur[t], me),
            decreases out.len() - j,
        {
            j += 1;
        }
        proof {
            assert forall|t: int| j <= t < cur.len() implies bond_le(me, #[trigger] cur[t]) by {
                assert(!bond_le(cur[j as int], me));
                assert(bond_le(me, cur[j as int]));
                if t > j {
                    assert(bond_leq()(cur[j as int], cur[t]));
                }
            }
        }
        let ghost prevseq = out@;
        out.insert(j, e);
        proof {
            assert(bonds_model(out@) =~= cur.insert(j as int, me)) by {
                prevseq.insert_ensures(j as int, e);
                cur.insert_ensures(j as int, me);
            }
            lemma_sorted_insert(cur, j as int, me, bond_leq());
            assert(cur.insert(j as int, me).to_multiset() == cur.to_multiset().insert(me));
            assert(src.subrange(0, i as int + 1) =~= src.subrange(0, i as int).push(me));
            assert(src.subrange(0, i as int).push(me).to_multiset() == src.subrange(
                0,
                i as int,
            ).to_multiset().insert(me));
        }
        i += 1;
    }
    proof {
        assert(src.subrange(0, v@.len() as int) =~= src);
        lemma_sorted_version_unique(src, bonds_model(out@), bond_leq());
    }
    out
}

/// Remove adjacent duplicates from a sorted atom list.
#[verifier::loop_isolation(false)]
fn dedup_atoms(v: &Vec<(HexIndex, AtomKind)>) -> (out: Vec<(HexIndex, AtomKind)>)
    ensures
        atoms_model(out@) == dedup_sorted(atoms_model(v@)),
{
    let ghost src = atoms_model(v@);
    let mut out: Vec<(HexIndex, AtomKind)> = Vec::new();
    let mut i: usize = 0;
    while i < v.len()
        invariant
            i <= v.len(),
            atoms_model(out@) == dedup_sorted(src.subrange(0, i as int)),
        decreases v.len() - i,
    {
        let e = v[i];
        let ghost pre = src.subrange(0, i as int);
        proof {
            lemma_dedup_push(pre, atom_model(e));
            assert(src.subrange(0, i as int + 1) =~= pre.push(atom_model(e)));
        }
        if out.len() == 0 {
            proof {
                if pre.len() > 0 {
                    lemma_dedup_last(pre);
                }
            }
            out.push(e);
            proof {
                assert(atoms_model(out@) =~= dedup_sorted(pre).push(atom_model(e)));
            }
        } else {
            proof {
                lemma_dedup_last(pre);
            }
            let last = out[out.len() - 1];
            if atom_entry_eq(&last, &e) {
                proof {
                    assert(atoms_model(out@).last() == pre.last());
                }
            } else {
                out.push(e);
                proof {
                    assert(atoms_model(out@) =~= dedup_sorted(pre).push(atom_model(e)));
                }
            }
        }
        i += 1;
    }
    proof {
        assert(src.subrange(0, v@.len() as int) =~= src);
    }
    out
}

/// Remove adjacent duplicates from a sorted bond list.
#[verifier::loop_isolation(false)]
fn dedup_bonds(v: &Vec<Bond>) -> (out: Vec<Bond>)
    ensures
        bonds_model(out@) == dedup_sorted(bonds_model(v@)),
{
    let ghost src = bonds_model(v@);
    let mut out: Vec<Bond> = Vec::new();
    let mut i: usize = 0;
    while i < v.len()
        invariant
            i <= v.len(),
            bonds_model(out@) == dedup_sorted(src.subrange(0, i as int)),
        decreases v.len() - i,
    {
        let e = v[i];
        let ghost pre = src.subrange(0, i as int);
        proof {
            lemma_dedup_push(pre, e@);
            assert(src.subrange(0, i as int + 1) =~= pre.push(e@));
        }
        if out.len() == 0 {
            proof {
                if pre.len() > 0 {
                    lemma_dedup_last(pre);
                }
            }
            out.push(e);
            proof {
                assert(bonds_model(out@) =~= dedup_sorted(pre).push(e@));
            }
        } else {
            proof {
                lemma_dedup_last(pre);
            }
            let last = out[out.len() - 1];
            if bond_eq(&last, &e) {
                proof {
                    assert(bonds_model(out@).last() == pre.last());
                }
            } else {
                out.push(e);
                proof {
                    assert(bonds_model(out@) =~= dedup_sorted(pre).push(e@));
                }
            }
        }
        i += 1;
    }
    proof {
        assert(src.subrange(0, v@.len() as int) =~= src);
    }
    out
}

impl Molecule {
    /// Position normalization: translate so the smallest atom coordinates
    /// become zero, put every bond's smaller endpoint first, and store both
    /// lists sorted without duplicates.
    #[verifier::loop_isolation(false)]
    pub fn position_normalized(&self) -> (r: Molecule)
        requires
            bounded_mol(self@, NORM_INPUT_LIMIT as int),
        ensures
            r@ == posnorm(self@),
    {
        let (mq, mr) = self.min_coords();
        let ghost d = norm_offset(self@);
        proof {
            assert(d == (-(mq as int), -(mr as int)));
        }
        let mut atoms: Vec<(HexIndex, AtomKind)> = Vec::new();
        let mut i: usize = 0;
        while i < self.atoms.len()
            invariant
                i <= self.atoms.len(),
                atoms_model(atoms@) == translate_atoms(self@.atoms, d).subrange(0, i as int),
            decreases self.atoms.len() - i,
        {
            let (p, kind) = self.atoms[i];
            proof {
                assert(in_range(self@.atoms[i as int].0, NORM_INPUT_LIMIT as int));
            }
            atoms.push((HexIndex { q: p.q - mq, r: p.r - mr }, kind));
            proof {
                assert(atoms_model(atoms@) =~= translate_atoms(self@.atoms, d).subrange(
                    0,
                    i as int + 1,
                ));
            }
            i += 1;
        }
        let mut bonds: Vec<Bond> = Vec::new();
        let mut j: usize = 0;
        while j < self.bonds.len()
            invariant
                j <= self.bonds.len(),
                bonds_model(bonds@) == norm_bonds(translate_bonds(self@.bonds, d)).subrange(
                    0,
                    j as int,
                ),
            decreases self.bonds.len() - j,
        {
            let b = self.bonds[j];
            proof {
                assert(in_range(self@.bonds[j as int].0, NORM_INPUT_LIMIT as int));
                assert(in_range(self@.bonds[j as int].1, NORM_INPUT_LIMIT as int));
            }
            let ns = HexIndex { q: b.start.q - mq, r: b.start.r - mr };
            let ne = HexIndex { q: b.end.q - mq, r: b.end.r - mr };
            let nb = if ns.q < ne.q || (ns.q == ne.q && ns.r <= ne.r) {
                Bond { start: ns, end: ne, ty: b.ty }
            } else {
                Bond { start: ne, end: ns, ty: b.ty }
            };
            bonds.push(nb);
            proof {
                assert(bonds_model(bonds@) =~= norm_bonds(
                    translate_bonds(self@.bonds, d),
                ).subrange(0, j as int + 1));
            }
            j += 1;
        }
        proof {
            assert(translate_atoms(self@.atoms, d).subrange(
                0,
                self.atoms@.len() as int,
            ) =~= translate_atoms(self@.atoms, d));
            assert(norm_bonds(translate_bonds(self@.bonds, d)).subrange(
                0,
                self.bonds@.len() as int,
            ) =~= norm_bonds(translate_bonds(self@.bonds, d)));
        }
        let atoms2 = sort_atoms(&atoms);
        let atoms3 = dedup_atoms(&atoms2);
        let bonds2 = sort_bonds(&bonds);
        let bonds3 = dedup_bonds(&bonds2);
        let r = Molecule { atoms: atoms3, bonds: bonds3 };
        proof {
            assert(r@ =~= posnorm(self@));
        }
        r
    }

    /// Whether the molecule contains a `Repeat` marker atom.
    #[verifier::loop_isolation(false)]
    pub fn contains_repeat(&self) -> (r: bool)
        ensures
            r == has_repeat(self@.atoms),
    {
        let mut i: usize = 0;
        while i < self.atoms.len()
            invariant
                i <= self.atoms.len(),
                forall|j: int| 0 <= j < i ==> (#[trigger] self@.atoms[j]).1 != AtomKind::Repeat,
            decreases self.atoms.len() - i,
        {
            if self.atoms[i].1 == AtomKind::Repeat {
                proof {
                    assert(self@.atoms[i as int].1 == AtomKind::Repeat);
                }
                return true;
            }
            i += 1;
        }
        false
    }

    /// The canonical candidate order, executably: `self` sorts at or below
    /// `other`.
    pub fn le_mol(&self, other: &Molecule) -> (r: bool)
        ensures
            r == mol_le(self@, other@),
    {
        let ca = lex_cmp_atoms(&self.atoms, &other.atoms);
        if ca == 0 {
            let cb = lex_cmp_bonds(&self.bonds, &other.bonds);
            proof {
                if cb == 0 {
                    lemma_lex_refl(self@.bonds, bond_leq());
                }
                if cb > 0 {
                    if lex_le(self@.bonds, other@.bonds, bond_leq()) {
                        lemma_bond_order_total();
                        lemma_lex_antisym(self@.bonds, other@.bonds, bond_leq());
                    }
                }
            }
            cb <= 0
        } else {
            proof {
                if ca > 0 {
                    if lex_le(self@.atoms, other@.atoms, atom_leq()) {
                        lemma_atom_order_total();
                        lemma_lex_antisym(self@.atoms, other@.atoms, atom_leq());
                    }
                }
            }
            ca < 0
        }
    }

    /// Structural equality of two molecules, position by position and bond
    /// by bond.
    pub fn matches(&self, other: &Molecule) -> (r: bool)
        ensures
            r == (self@ == other@),
    {
        let ca = lex_cmp_atoms(&self.atoms, &other.atoms);
        if ca != 0 {
            return false;
        }
        let cb = lex_cmp_bonds(&self.bonds, &other.bonds);
        proof {
            if cb == 0 {
                assert(self@ =~= other@);
            }
        }
        cb == 0
    }

    /// The canonical form of the molecule: the unique representative of all
    /// its translations and rotations.  A molecule with a `Repeat` atom is
    /// only position-normalized, since its fragment tiles along a fixed
    /// lattice direction that rotation would change; every other molecule is
    /// the minimum, in the canonical candidate order, of its six rotation
    /// candidates.
    #[verifier::loop_isolation(false)]
    pub fn normalized(&self) -> (r: Molecule)
        requires
            bounded_mol(self@, WORK_LIMIT as int),
        ensures
            r@ == canon(self@),
            has_repeat(self@.atoms) ==> r@ == posnorm(self@),
    {
        proof {
            lemma_bounded_rot_mol(self@, WORK_LIMIT as int, 0);
        }
        if self.contains_repeat() {
            return self.position_normalized();
        }
        let first = self.rotated_origin(0);
        let mut best = first.position_normalized();
        let mut k: u8 = 1;
        while k < 6
            invariant
                1 <= k <= 6,
                best@ == best_upto(self@, k as int),
            decreases 6 - k,
        {
            proof {
                lemma_bounded_rot_mol(self@, WORK_LIMIT as int, k as int);
            }
            let rk = self.rotated_origin(k);
            let cand = rk.position_normalized();
            proof {
                assert(cand@ == candidate(self@, k as int));
            }
            if !best.le_mol(&cand) {
                best = cand;
            }
            k += 1;
        }
        best
    }

    /// The molecule reflected across the fixed mirror axis and position
    /// normalized: the chirality-flipped form handed to a renderer.  The
    /// mirror image is not used for matching, because in-game molecules are
    /// chiral.
    #[verifier::loop_isolation(false)]
    pub fn mirrored(&self) -> (r: Molecule)
        requires
            bounded_mol(self@, COORD_LIMIT as int),
        ensures
            r@ == posnorm(mirror_mol(self@)),
    {
        let ghost target = mirror_mol(self@);
        let mut atoms: Vec<(HexIndex, AtomKind)> = Vec::new();
        let mut i: usize = 0;
        while i < self.atoms.len()
            invariant
                i <= self.atoms.len(),
                atoms_model(atoms@) == target.atoms.subrange(0, i as int),
            decreases self.atoms.len() - i,
        {
            let (p, kind) = self.atoms[i];
            proof {
                assert(in_range(self@.atoms[i as int].0, COORD_LIMIT as int));
            }
            atoms.push((HexIndex { q: p.q + p.r, r: -p.r }, kind));
            proof {
                assert(atoms_model(atoms@) =~= target.atoms.subrange(0, i as int + 1));
            }
            i += 1;
        }
        let mut bonds: Vec<Bond> = Vec::new();
        let mut j: usize = 0;
        while j < self.bonds.len()
            invariant
                j <= self.bonds.len(),
                bonds_model(bonds@) == target.bonds.subrange(0, j as int),
            decreases self.bonds.len() - j,
        {
            let b = self.bonds[j];
            proof {
                assert(in_range(self@.bonds[j as int].0, COORD_LIMIT as int));
                assert(in_range(self@.bonds[j as int].1, COORD_LIMIT as int));
            }
            bonds.push(
                Bond {
                    start: HexIndex { q: b.start.q + b.start.r, r: -b.start.r },
                    end: HexIndex { q: b.end.q + b.end.r, r: -b.end.r },
                    ty: b.ty,
                },
            );
            proof {
                assert(bonds_model(bonds@) =~= target.bonds.subrange(0, j as int + 1));
            }
            j += 1;
        }
        let m = Molecule { atoms, bonds };
        proof {
            assert(target.atoms.subrange(0, self.atoms@.len() as int) =~= target.atoms);
            assert(target.bonds.subrange(0, self.bonds@.len() as int) =~= target.bonds);
            assert(m@ =~= target);
            assert forall|t: int| 0 <= t < m@.atoms.len() implies in_range(
                #[trigger] m@.atoms[t].0,
                NORM_INPUT_LIMIT as int,
            ) by {
                assert(in_range(self@.atoms[t].0, COORD_LIMIT as int));
            }
            assert forall|t: int|
                0 <= t < m@.bonds.len() implies in_range(
                #[trigger] m@.bonds[t].0,
                NORM_INPUT_LIMIT as int,
            ) && in_range(m@.bonds[t].1, NORM_INPUT_LIMIT as int) by {
                assert(in_range(self@.bonds[t].0, COORD_LIMIT as int) && in_range(
                    self@.bonds[t].1,
                    COORD_LIMIT as int,
                ));
            }
        }
        m.position_normalized()
    }
}

} // verus!
