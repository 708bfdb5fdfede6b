//! The geometry the external renderer is handed: the index of a bond's unit
//! direction, and the pixel-space bounds of a drawn molecule.

use vstd::prelude::*;
use crate::hex::{HexIndex, WORK_LIMIT, add_pos, in_range};
use crate::model::{MoleculeModel, bounded_mol, canon, candidate, best_upto, has_repeat, min_q,
    min_r, norm_offset, posnorm, rot_mol, translate_atoms, lemma_best_is_candidate,
    lemma_min_q_props, lemma_min_r_props};
use crate::molecule::Molecule;
use crate::order::{PlacedAtom, atom_leq, lemma_atom_order_total};
use crate::seqorder::{lemma_dedup_sort_contains, lemma_dedup_sort_len_zero};

verus! {

/// Coordinate bound accepted by the pixel-bound computation; the scaled
/// extents of such a molecule fit comfortably in 64 bits.
pub const RENDER_LIMIT: i64 = 1_000_000_000_000;

/// The renderer keys each bond by one of the six unit directions: `(1,0)`
/// is 0, `(0,1)` is 1, `(-1,1)` is 2, `(-1,0)` is 3, `(0,-1)` is 4 and
/// `(1,-1)` is 5.  Any other difference between bond endpoints is not a
/// step between adjacent cells and has no direction.
pub open spec fn direction_of(d: (int, int)) -> Option<u8> {
    if d == (1int, 0int) {
        Option::Some(0u8)
    } else if d == (0int, 1int) {
        Option::Some(1u8)
    } else if d == (-1int, 1int) {
        Option::Some(2u8)
    } else if d == (-1int, 0int) {
        Option::Some(3u8)
    } else if d == (0int, -1int) {
        Option::Some(4u8)
    } else if d == (1int, -1int) {
        Option::Some(5u8)
    } else {
        Option::None
    }
}

/// The direction index of the step from `start` to `end`, or `None` when
/// the cells are not adjacent in the renderer's keying.
pub fn bond_direction(start: HexIndex, end: HexIndex) -> (r: Option<u8>)
    requires
        start.bounded(WORK_LIMIT as int),
        end.bounded(WORK_LIMIT as int),
    ensures
        r == direction_of((end@.0 - start@.0, end@.1 - start@.1)),
{
    let dq = end.q - start.q;
    let dr = end.r - start.r;
    if dq == 1 && dr == 0 {
        Some(0)
    } else if dq == 0 && dr == 1 {
        Some(1)
    } else if dq == -1 && dr == 1 {
        Some(2)
    } else if dq == -1 && dr == 0 {
        Some(3)
    } else if dq == 0 && dr == -1 {
        Some(4)
    } else if dq == 1 && dr == -1 {
        Some(5)
    } else {
        None
    }
}

/// The smallest horizontal extent `2q + r` among the atoms, `0` when there
/// are none.
pub open spec fn min_ext(s: Seq<PlacedAtom>) -> int
    decreases s.len(),
{
    if s.len() == 0 {
        0
    } else if s.len() == 1 {
        2 * s[0].0.0 + s[0].0.1
    } else {
        let rest = min_ext(s.drop_first());
        let v = 2 * s[0].0.0 + s[0].0.1;
        if v <= rest {
            v
        } else {
            rest
        }
    }
}

/// The largest padded horizontal extent `2q + r + 2` among the atoms, `0`
/// when there are none.
pub open spec fn max_ext(s: Seq<PlacedAtom>) -> int
    decreases s.len(),
{
    if s.len() == 0 {
        0
    } else if s.len() == 1 {
        2 * s[0].0.0 + s[0].0.1 + 2
    } else {
        let rest = max_ext(s.drop_first());
        let v = 2 * s[0].0.0 + s[0].0.1 + 2;
        if v >= rest {
            v
        } else {
            rest
        }
    }
}

/// The largest padded row `r + 1` among the atoms, `0` when there are none.
pub open spec fn max_row(s: Seq<PlacedAtom>) -> int
    decreases s.len(),
{
    if s.len() == 0 {
        0
    } else if s.len() == 1 {
        s[0].0.1 + 1
    } else {
        let rest = max_row(s.drop_first());
        let v = s[0].0.1 + 1;
        if v >= rest {
            v
        } else {
            rest
        }
    }
}

/// The pixel width the renderer is told to draw into: the horizontal atom
/// extent at 41 pixels per half-column plus a margin, scaled by 3/4.
pub open spec fn spec_draw_width(s: Seq<PlacedAtom>) -> int {
    ((max_ext(s) - min_ext(s)) * 41 + 10) * 3 / 4
}

/// The pixel height the renderer is told to draw into: the row extent at 71
/// pixels per row plus a margin, scaled by 3/4.
pub open spec fn spec_draw_height(s: Seq<PlacedAtom>) -> int {
    (max_row(s) * 71 + 20) * 3 / 4
}

proof fn lemma_min_ext_push(s: Seq<PlacedAtom>, a: PlacedAtom)
    ensures
        min_ext(s.push(a)) == if s.len() == 0 {
            2 * a.0.0 + a.0.1
        } else if min_ext(s) <= 2 * a.0.0 + a.0.1 {
            min_ext(s)
        } else {
            2 * a.0.0 + a.0.1
        },
    decreases s.len(),
{
    if s.len() == 0 {
    } else if s.len() == 1 {
        assert(s.push(a).drop_first() =~= seq![a]);
        assert(min_ext(seq![a]) == 2 * a.0.0 + a.0.1);
        assert(s.push(a)[0] == s[0]);
    } else {
        assert(s.push(a).drop_first() =~= s.drop_first().push(a));
        lemma_min_ext_push(s.drop_first(), a);
    }
}

proof fn lemma_max_ext_push(s: Seq<PlacedAtom>, a: PlacedAtom)
    ensures
        max_ext(s.push(a)) == if s.len() == 0 {
            2 * a.0.0 + a.0.1 + 2
        } else if max_ext(s) >= 2 * a.0.0 + a.0.1 + 2 {
            max_ext(s)
        } else {
            2 * a.0.0 + a.0.1 + 2
        },
    decreases s.len(),
{
    if s.len() == 0 {
    } else if s.len() == 1 {
        assert(s.push(a).drop_first() =~= seq![a]);
        assert(max_ext(seq![a]) == 2 * a.0.0 + a.0.1 + 2);
        assert(s.push(a)[0] == s[0]);
    } else {
        assert(s.push(a).drop_first() =~= s.drop_first().push(a));
        lemma_max_ext_push(s.drop_first(), a);
    }
}

proof fn lemma_max_row_push(s: Seq<PlacedAtom>, a: PlacedAtom)
    ensures
        max_row(s.push(a)) == if s.len() == 0 {
            a.0.1 + 1
        } else if max_row(s) >= a.0.1 + 1 {
            max_row(s)
        } else {
            a.0.1 + 1
        },
    decreases s.len(),
{
    if s.len() == 0 {
    } else if s.len() == 1 {
        assert(s.push(a).drop_first() =~= seq![a]);
        assert(max_row(seq![a]) == a.0.1 + 1);
        assert(s.push(a)[0] == s[0]);
    } else {
        assert(s.push(a).drop_first() =~= s.drop_first().push(a));
        lemma_max_row_push(s.drop_first(), a);
    }
}

/// Every atom sits at nonnegative coordinates, as after position
/// normalization of a molecule with an atom.
pub open spec fn nonneg_atoms(s: Seq<PlacedAtom>) -> bool {
    forall|i: int| 0 <= i < s.len() ==> (#[trigger] s[i]).0.0 >= 0 && s[i].0.1 >= 0
}

/// Position normalization yields nonnegative atom coordinates: a normalized
/// molecule meets the bound computation's expectations.
pub proof fn lemma_posnorm_nonneg(m: MoleculeModel)
    ensures
        nonneg_atoms(posnorm(m).atoms),
{
    lemma_atom_order_total();
    let d = norm_offset(m);
    let t = translate_atoms(m.atoms, d);
    lemma_dedup_sort_contains(t, atom_leq());
    if m.atoms.len() > 0 {
        lemma_min_q_props(m.atoms);
        lemma_min_r_props(m.atoms);
        assert forall|i: int|
            0 <= i < posnorm(m).atoms.len() implies (#[trigger] posnorm(m).atoms[i]).0.0 >= 0
            && posnorm(m).atoms[i].0.1 >= 0 by {
            let a = posnorm(m).atoms[i];
            assert(posnorm(m).atoms.contains(a)) by {
                assert(posnorm(m).atoms[i] == a);
            }
            assert(t.contains(a));
            let j = choose|j: int| 0 <= j < t.len() && t[j] == a;
            assert(t[j] == (add_pos(m.atoms[j].0, d), m.atoms[j].1));
            assert(min_q(m.atoms) <= m.atoms[j].0.0);
            assert(min_r(m.atoms) <= m.atoms[j].0.1);
        }
    } else {
        assert(t.len() == 0);
        lemma_dedup_sort_len_zero(t, atom_leq());
    }
}

/// Canonical forms have nonnegative atom coordinates, being position
/// normalized.
pub proof fn lemma_canon_nonneg(m: MoleculeModel)
    ensures
        nonneg_atoms(canon(m).atoms),
{
    if has_repeat(m.atoms) {
        lemma_posnorm_nonneg(m);
    } else {
        lemma_best_is_candidate(m, 6);
        let k = choose|j: int| 0 <= j < 6 && best_upto(m, 6) == candidate(m, j);
        lemma_posnorm_nonneg(rot_mol(m, k));
    }
}

/// The pixel-space width and height the renderer needs for this molecule,
/// from the same extent formulas that position normalization anchors to.
/// The molecule is expected position-normalized, so its coordinates are
/// nonnegative.
#[verifier::loop_isolation(false)]
pub fn draw_bounds(m: &Molecule) -> (r: (u64, u64))
    requires
        bounded_mol(m@, RENDER_LIMIT as int),
        nonneg_atoms(m@.atoms),
    ensures
        r.0 as int == spec_draw_width(m@.atoms),
        r.1 as int == spec_draw_height(m@.atoms),
{
    let mut mine: i64 = 0;
    let mut maxe: i64 = 0;
    let mut maxr: i64 = 0;
    let mut i: usize = 0;
    while i < m.atoms.len()
        invariant
            i <= m.atoms.len(),
            mine as int == min_ext(m@.atoms.subrange(0, i as int)),
            maxe as int == max_ext(m@.atoms.subrange(0, i as int)),
            maxr as int == max_row(m@.atoms.subrange(0, i as int)),
            0 <= mine <= 3 * RENDER_LIMIT,
            0 <= maxe <= 3 * RENDER_LIMIT + 2,
            0 <= maxr <= RENDER_LIMIT + 1,
            maxe >= mine,
        decreases m.atoms.len() - i,
    {
        let (p, _) = m.atoms[i];
        proof {
            assert(in_range(m@.atoms[i as int].0, RENDER_LIMIT as int));
            assert(m@.atoms[i as int].0.0 >= 0 && m@.atoms[i as int].0.1 >= 0);
            lemma_min_ext_push(m@.atoms.subrange(0, i as int), m@.atoms[i as int]);
            lemma_max_ext_push(m@.atoms.subrange(0, i as int), m@.atoms[i as int]);
            lemma_max_row_push(m@.atoms.subrange(0, i as int), m@.atoms[i as int]);
            assert(m@.atoms.subrange(0, i as int + 1) =~= m@.atoms.subrange(0, i as int).push(
                m@.atoms[i as int],
            ));
        }
        let e = 2 * p.q + p.r;
        if i == 0 {
            mine = e;
            maxe = e + 2;
            maxr = p.r + 1;
        } else {
            if e < mine {
                mine = e;
            }
            if e + 2 > maxe {
                maxe = e + 2;
            }
            if p.r + 1 > maxr {
                maxr = p.r + 1;
            }
        }
        i += 1;
    }
    proof {
        assert(m@.atoms.subrange(0, m.atoms@.len() as int) =~= m@.atoms);
    }
    let wspan = maxe - mine;
    let w: u64 = ((wspan as u64) * 41 + 10) * 3 / 4;
    let h: u64 = ((maxr as u64) * 71 + 20) * 3 / 4;
    (w, h)
}

} // verus!
