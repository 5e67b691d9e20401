//! A single sampled stroke point.

use vstd::prelude::*;

verus! {

/// One sampled location of a stroke.
///
/// `x` and `y` are fixed-point coordinates (ticks). `id` tags the continuous
/// pen-down segment the point belongs to; length and distance computations
/// never bridge two points with different ids. `int_x`/`int_y` are quantized
/// grid coordinates, zero until `utils::make_int_coords` fills them.
#[derive(Clone, Copy, Debug, PartialEq, Eq, Structural)]
pub struct Point {
    pub x: i64,
    pub y: i64,
    pub id: u32,
    pub int_x: usize,
    pub int_y: usize,
}

/// Both coordinates of `p` lie within `[-b, b]`.
pub open spec fn coords_within(p: Point, b: int) -> bool {
    -b <= p.x <= b && -b <= p.y <= b
}

/// Squared Euclidean distance between the fixed-point coordinates.
pub open spec fn spec_sqr_dist(p: Point, q: Point) -> int {
    (q.x - p.x) * (q.x - p.x) + (q.y - p.y) * (q.y - p.y)
}

pub proof fn lemma_sqr_dist_nonneg(p: Point, q: Point)
    ensures
        spec_sqr_dist(p, q) >= 0,
{
    let dx = q.x - p.x;
    let dy = q.y - p.y;
    assert(dx * dx >= 0 && dy * dy >= 0) by (nonlinear_arith);
}

/// Squared distance is bounded when both points have bounded coordinates.
pub proof fn lemma_sqr_dist_bound(p: Point, q: Point, b: int)
    requires
        b >= 0,
        coords_within(p, b),
        coords_within(q, b),
    ensures
        0 <= spec_sqr_dist(p, q) <= 8 * (b * b),
{
    let dx = q.x - p.x;
    let dy = q.y - p.y;
    assert(dx * dx >= 0 && dy * dy >= 0) by (nonlinear_arith);
    assert(dx * dx <= 4 * (b * b) && dy * dy <= 4 * (b * b)) by (nonlinear_arith)
        requires
            -2 * b <= dx <= 2 * b,
            -2 * b <= dy <= 2 * b,
            b >= 0,
    ;
}

impl Point {
    /// A fresh point with unset (zero) grid coordinates.
    pub fn new(x: i64, y: i64, id: u32) -> (r: Point)
        ensures
            r.x == x,
            r.y == y,
            r.id == id,
            r.int_x == 0,
            r.int_y == 0,
    {
        Point { x, y, id, int_x: 0, int_y: 0 }
    }
}

} // verus!
