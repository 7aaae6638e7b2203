//! Exact planar geometry on fixed-point coordinates: squared distances and
//! linear referencing (position of a point along a two-point reference line).

use vstd::prelude::*;

verus! {

/// Largest magnitude a coordinate axis may hold. Generous enough for
/// geographic data in micro-units while keeping every squared distance and
/// dot product representable in `i128`.
pub const COORD_LIMIT: i64 = 0x1000_0000_0000_0000;

/// A planar coordinate in fixed-point form: each axis is an integer count of
/// micro-units (for geographic data, micro-degrees).
#[derive(Clone, Copy, PartialEq, Eq, Structural, Debug)]
pub struct Coord {
    pub x: i64,
    pub y: i64,
}

impl Coord {
    /// Both axes are within `COORD_LIMIT`, so every squared distance and dot
    /// product over such coordinates fits in `i128`.
    pub open spec fn wf(self) -> bool {
        -COORD_LIMIT <= self.x <= COORD_LIMIT && -COORD_LIMIT <= self.y <= COORD_LIMIT
    }
}

/// Squared Euclidean distance between two coordinates.
pub open spec fn dist_sq(a: Coord, b: Coord) -> int {
    (a.x - b.x) * (a.x - b.x) + (a.y - b.y) * (a.y - b.y)
}

/// Dot product of (p - a) with (b - a): the unclamped numerator of the
/// projection fraction of `p` onto the line from `a` to `b`.
pub open spec fn proj_dot(a: Coord, b: Coord, p: Coord) -> int {
    (p.x - a.x) * (b.x - a.x) + (p.y - a.y) * (b.y - a.y)
}

/// Position of `p` along the reference line from `a` to `b`, clamped to the
/// segment: the fractional position is `line_pos / dist_sq(a, b)`, so for a
/// fixed reference line, comparing `line_pos` values orders points along it
/// (0 at `a`, `dist_sq(a, b)` at `b`). On a degenerate line (`a == b`) every
/// point has position 0, so no ordering is imposed.
pub open spec fn line_pos(a: Coord, b: Coord, p: Coord) -> int {
    if proj_dot(a, b, p) < 0 {
        0
    } else if proj_dot(a, b, p) > dist_sq(a, b) {
        dist_sq(a, b)
    } else {
        proj_dot(a, b, p)
    }
}

/// Squared distance, computed exactly in `i128`.
pub fn dist_sq_exec(a: &Coord, b: &Coord) -> (r: i128)
    requires
        a.wf(),
        b.wf(),
    ensures
        r == dist_sq(*a, *b),
{
    let dx: i128 = a.x as i128 - b.x as i128;
    let dy: i128 = a.y as i128 - b.y as i128;
    proof {
        lemma_square_bounded(dx as int);
        lemma_square_bounded(dy as int);
    }
    dx * dx + dy * dy
}

/// Clamped position of `p` along the line from `a` to `b`, computed exactly
/// in `i128`; equals the specification `line_pos`.
pub fn line_pos_exec(a: &Coord, b: &Coord, p: &Coord) -> (r: i128)
    requires
        a.wf(),
        b.wf(),
        p.wf(),
    ensures
        r == line_pos(*a, *b, *p),
{
    let dx: i128 = p.x as i128 - a.x as i128;
    let dy: i128 = p.y as i128 - a.y as i128;
    let ex: i128 = b.x as i128 - a.x as i128;
    let ey: i128 = b.y as i128 - a.y as i128;
    proof {
        lemma_product_bounded(dx as int, ex as int);
        lemma_product_bounded(dy as int, ey as int);
    }
    let dot: i128 = dx * ex + dy * ey;
    let len2: i128 = dist_sq_exec(a, b);
    if dot < 0 {
        0
    } else if dot > len2 {
        len2
    } else {
        dot
    }
}

/// Locate `p` along the reference line from `a` to `b`: the clamped position
/// whose fraction of `dist_sq(a, b)` is the normalized position of the
/// nearest point of the segment (0 at `a`, `dist_sq(a, b)` at `b`). A
/// degenerate reference line with coincident endpoints admits no meaningful
/// position, so no result is returned; callers keep such locations in their
/// existing order.
pub fn line_locate(a: &Coord, b: &Coord, p: &Coord) -> (r: Option<i128>)
    requires
        a.wf(),
        b.wf(),
        p.wf(),
    ensures
        match r {
            Some(v) => *a != *b && v == line_pos(*a, *b, *p),
            None => *a == *b,
        },
{
    if a.x == b.x && a.y == b.y {
        None
    } else {
        Some(line_pos_exec(a, b, p))
    }
}

/// The locations are in ascending order of position along the reference line
/// from `a` to `b`. On a degenerate line every position is 0, so any order of
/// the locations counts as sorted.
pub open spec fn sorted_along(a: Coord, b: Coord, s: Seq<Coord>) -> bool {
    forall|i: int, j: int|
        0 <= i <= j < s.len() ==> line_pos(a, b, #[trigger] s[i]) <= line_pos(a, b, #[trigger] s[j])
}

/// No gap between consecutive locations exceeds the threshold: every
/// consecutive pair is at squared distance at most `threshold * threshold`
/// (distance exactly equal to the threshold still counts as covered). A list
/// of fewer than two locations is vacuously covered.
pub open spec fn covered(s: Seq<Coord>, threshold: int) -> bool {
    forall|i: int| 0 <= i < s.len() - 1 ==> #[trigger] dist_sq(s[i], s[i + 1]) <= threshold * threshold
}

/// The classifier's boundary is inclusive: two locations whose squared
/// distance is exactly the squared threshold still form a covered list, while
/// a squared distance strictly beyond it excludes the list.
pub proof fn lemma_threshold_boundary(a: Coord, b: Coord, threshold: int)
    ensures
        dist_sq(a, b) <= threshold * threshold ==> covered(seq![a, b], threshold),
        dist_sq(a, b) > threshold * threshold ==> !covered(seq![a, b], threshold),
{
    let s = seq![a, b];
    assert(s[0] == a && s[1] == b);
    if dist_sq(a, b) <= threshold * threshold {
        assert forall|i: int| 0 <= i < s.len() - 1 implies #[trigger] dist_sq(s[i], s[i + 1])
            <= threshold * threshold by {
            assert(i == 0);
        }
    } else {
        let z: int = 0;
        assert(dist_sq(s[z], s[z + 1]) > threshold * threshold);
    }
}

/// Adding an observation never rescues an excluded segment, except by landing
/// strictly inside the violating gap: a gap wider than the threshold between
/// the neighbours at `j` and `j + 1` survives any insertion at a position
/// that keeps those two adjacent, so the list stays uncovered. (An insertion
/// strictly between them can split the gap in two and is the one way more
/// data can turn an uncovered list into a covered one.)
pub proof fn lemma_gap_persists(s: Seq<Coord>, x: Coord, i: int, j: int, threshold: int)
    requires
        0 <= j < s.len() - 1,
        dist_sq(s[j], s[j + 1]) > threshold * threshold,
        0 <= i <= s.len(),
        i <= j || i >= j + 2,
    ensures
        !covered(s.insert(i, x), threshold),
{
    let t = s.insert(i, x);
    s.insert_ensures(i, x);
    if i <= j {
        assert(t[j + 1] == s[j]);
        assert(t[j + 2] == s[j + 1]);
        assert(dist_sq(t[j + 1], t[j + 1 + 1]) > threshold * threshold);
    } else {
        assert(t[j] == s[j]);
        assert(t[j + 1] == s[j + 1]);
        assert(dist_sq(t[j], t[j + 1]) > threshold * threshold);
    }
}

/// The square of a difference of two in-limit axes fits comfortably in `i128`.
proof fn lemma_square_bounded(d: int)
    requires
        -2 * COORD_LIMIT <= d <= 2 * COORD_LIMIT,
    ensures
        0 <= d * d <= 4 * COORD_LIMIT * COORD_LIMIT,
{
    lemma_product_bounded(d, d);
    assert(d * d >= 0) by (nonlinear_arith);
}

/// A product of two differences of in-limit axes is bounded in magnitude by
/// four times the squared limit.
proof fn lemma_product_bounded(c: int, d: int)
    requires
        -2 * COORD_LIMIT <= c <= 2 * COORD_LIMIT,
        -2 * COORD_LIMIT <= d <= 2 * COORD_LIMIT,
    ensures
        -4 * COORD_LIMIT * COORD_LIMIT <= c * d <= 4 * COORD_LIMIT * COORD_LIMIT,
{
    assert(-4 * COORD_LIMIT * COORD_LIMIT <= c * d <= 4 * COORD_LIMIT * COORD_LIMIT)
        by (nonlinear_arith)
        requires
            -2 * COORD_LIMIT <= c <= 2 * COORD_LIMIT,
            -2 * COORD_LIMIT <= d <= 2 * COORD_LIMIT,
    ;
}

} // verus!
