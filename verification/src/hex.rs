//! Axial hex-grid coordinates and the grid's symmetry operations:
//! translation, the six-element rotation group, and the chirality flip.

use vstd::prelude::*;

verus! {

/// Largest coordinate magnitude accepted for freshly built molecules, offsets
/// and pivots.  Every value a single symmetry operation can produce from such
/// coordinates then still fits [`WORK_LIMIT`], the bound under which the
/// canonicalization engine itself operates without overflow.
pub const COORD_LIMIT: i64 = 400_000_000_000_000_000;

/// Largest coordinate magnitude the canonicalization engine accepts.
/// Five times [`COORD_LIMIT`], so the result of one rotation about an
/// arbitrary pivot of an in-limit molecule is still acceptable.
pub const WORK_LIMIT: i64 = 2_000_000_000_000_000_000;

/// An axial coordinate `(q, r)` on the infinite hexagonal grid.  The derived
/// third cube coordinate is `s = -q - r`; it appears only in the rotation and
/// mirror arithmetic.
#[derive(Clone, Copy, PartialEq, Eq, Structural, Debug, Hash)]
pub struct HexIndex {
    pub q: i64,
    pub r: i64,
}

impl View for HexIndex {
    type V = (int, int);

    open spec fn view(&self) -> (int, int) {
        (self.q as int, self.r as int)
    }
}

impl HexIndex {
    /// Both coordinates have magnitude at most `b`.
    pub open spec fn bounded(self, b: int) -> bool {
        in_range(self@, b)
    }
}

/// Both components of `p` have magnitude at most `b`.
pub open spec fn in_range(p: (int, int), b: int) -> bool {
    -b <= p.0 <= b && -b <= p.1 <= b
}

/// Componentwise translation of a position.
pub open spec fn add_pos(p: (int, int), d: (int, int)) -> (int, int) {
    (p.0 + d.0, p.1 + d.1)
}

/// The inverse offset.
pub open spec fn neg_pos(d: (int, int)) -> (int, int) {
    (-d.0, -d.1)
}

/// One elementary 60-degree rotation about the origin: the cube coordinates
/// `(q, r, s)` become `(-r, -s, -q)`, so in axial form `(q, r)` becomes
/// `(-r, q + r)`.
pub open spec fn rot1(p: (int, int)) -> (int, int) {
    (-p.1, p.0 + p.1)
}

/// `k` elementary rotations about the origin (`k <= 0` is the identity).
pub open spec fn rotp(p: (int, int), k: int) -> (int, int)
    decreases k,
{
    if k <= 0 {
        p
    } else {
        rot1(rotp(p, k - 1))
    }
}

/// The chirality flip: `(q, r)` becomes `(q + r, -r)`, i.e. the derived third
/// cube coordinate is negated and swapped into the role of `r`.
pub open spec fn mirror_pos(p: (int, int)) -> (int, int) {
    (p.0 + p.1, -p.1)
}

/// Closed forms of the six rotations, and the fact that six elementary steps
/// return to the identity.
pub proof fn lemma_rotp_forms(p: (int, int))
    ensures
        rotp(p, 0) == p,
        rotp(p, 1) == (-p.1, p.0 + p.1),
        rotp(p, 2) == (-p.0 - p.1, p.0),
        rotp(p, 3) == (-p.0, -p.1),
        rotp(p, 4) == (p.1, -p.0 - p.1),
        rotp(p, 5) == (p.0 + p.1, -p.0),
        rotp(p, 6) == p,
{
    reveal_with_fuel(rotp, 8);
}

/// Rotations compose additively.
pub proof fn lemma_rotp_add(p: (int, int), j: int, k: int)
    requires
        0 <= j,
        0 <= k,
    ensures
        rotp(p, j + k) == rotp(rotp(p, j), k),
    decreases k,
{
    if k > 0 {
        lemma_rotp_add(p, j, k - 1);
    }
}

/// Rotation counts can be reduced modulo six.
pub proof fn lemma_rotp_wrap(p: (int, int), k: int)
    requires
        6 <= k,
    ensures
        rotp(p, k) == rotp(p, k - 6),
{
    lemma_rotp_add(p, k - 6, 6);
    lemma_rotp_forms(rotp(p, k - 6));
}

/// Rotation is linear over translation.
pub proof fn lemma_rotp_linear(p: (int, int), d: (int, int), k: int)
    requires
        0 <= k,
    ensures
        rotp(add_pos(p, d), k) == add_pos(rotp(p, k), rotp(d, k)),
    decreases k,
{
    if k > 0 {
        lemma_rotp_linear(p, d, k - 1);
    }
}

/// The origin is a fixed point of every rotation.
pub proof fn lemma_rotp_zero(k: int)
    requires
        0 <= k,
    ensures
        rotp((0int, 0int), k) == (0int, 0int),
    decreases k,
{
    if k > 0 {
        lemma_rotp_zero(k - 1);
    }
}

/// Each component of a rotated position is one of `q`, `r`, `-q`, `-r`,
/// `q + r` or `-q - r`, so rotation at most doubles the coordinate bound.
pub proof fn lemma_rotp_bounded(p: (int, int), k: int, b: int)
    requires
        0 <= k < 6,
        0 <= b,
        in_range(p, b),
    ensures
        in_range(rotp(p, k), 2 * b),
{
    lemma_rotp_forms(p);
}

/// Bound on the input coordinates of the executable rotation, chosen so that
/// the sum `q + r` still fits in an `i64`.
pub const ROT_INPUT_LIMIT: i64 = 4_000_000_000_000_000_000;

/// Apply `k` elementary rotations about the origin, by the closed form.
pub fn rot_exec(p: HexIndex, k: u8) -> (r: HexIndex)
    requires
        k < 6,
        p.bounded(ROT_INPUT_LIMIT as int),
    ensures
        r@ == rotp(p@, k as int),
{
    proof {
        lemma_rotp_forms(p@);
    }
    match k {
        0 => p,
        1 => HexIndex { q: -p.r, r: p.q + p.r },
        2 => HexIndex { q: -p.q - p.r, r: p.q },
        3 => HexIndex { q: -p.q, r: -p.r },
        4 => HexIndex { q: p.r, r: -p.q - p.r },
        _ => HexIndex { q: p.q + p.r, r: -p.q },
    }
}

} // verus!
