//! The normalization pipeline and the matching engine.
//!
//! The pipeline turns a raw stroke into the canonical cloud representation:
//! `resample` to a fixed count, `scale` the bounding box to a unit extent,
//! `translate_to` the origin, `make_int_coords` onto the quantized grid, and
//! `compute_lut` for the per-cloud nearest-point lookup grid. The matching
//! engine (`cloud_match`) ranks a candidate against a template with a pruned
//! greedy weighted match.

use crate::arith::{
    div_floor_i64, isqrt_u64, lemma_div_range, lemma_interp_bounds, lemma_sqrt_floor_bounds,
    sqrt_floor,
};
use crate::point::{coords_within, lemma_sqr_dist_bound, lemma_sqr_dist_nonneg, spec_sqr_dist,
    Point};
use crate::point_cloud::{cloud_wf, PointCloud};
use vstd::prelude::*;

verus! {

/// Number of points in every normalized cloud.
pub const NUM_POINTS: usize = 32;

/// Quantized integer coordinates range over `[0, MAX_INT_COORD - 1]`.
pub const MAX_INT_COORD: usize = 1024;

/// Side length of the per-cloud lookup grid.
pub const LUT_SIZE: usize = 64;

/// Ratio between the quantized coordinate range and the lookup grid.
pub const LUT_SCALE_FACTOR: usize = 16;

/// Fixed-point scale: one drawing unit is this many coordinate ticks.
pub const UNIT: i64 = 1024;

/// Largest magnitude a raw input coordinate may have.
pub const COORD_LIMIT: i64 = 1_000_000;

/// Largest number of raw points one gesture may carry.
pub const MAX_RAW_POINTS: usize = 100_000;

/// Every point of `s` has both coordinates within `[-b, b]`.
pub open spec fn all_coords_within(s: Seq<Point>, b: int) -> bool {
    forall|i: int| 0 <= i < s.len() ==> coords_within(#[trigger] s[i], b)
}

/// Length contributed by the segment from `p` to `q`: the rounded Euclidean
/// distance when both belong to the same stroke, zero across strokes.
pub open spec fn spec_seg_len(p: Point, q: Point) -> int {
    if p.id == q.id {
        sqrt_floor(spec_sqr_dist(p, q))
    } else {
        0
    }
}

/// Total path length of a point sequence: the sum of the lengths of all
/// consecutive same-stroke segments.
pub open spec fn spec_path_len(s: Seq<Point>) -> int
    decreases s.len(),
{
    if s.len() <= 1 {
        0
    } else {
        spec_path_len(s.drop_last()) + spec_seg_len(s[s.len() - 2], s[s.len() - 1])
    }
}

/// Sum of all x coordinates.
pub open spec fn spec_sum_x(s: Seq<Point>) -> int
    decreases s.len(),
{
    if s.len() == 0 {
        0
    } else {
        spec_sum_x(s.drop_last()) + s.last().x
    }
}

/// Sum of all y coordinates.
pub open spec fn spec_sum_y(s: Seq<Point>) -> int
    decreases s.len(),
{
    if s.len() == 0 {
        0
    } else {
        spec_sum_y(s.drop_last()) + s.last().y
    }
}

pub proof fn lemma_seg_len_bound(p: Point, q: Point, b: int)
    requires
        b >= 0,
        coords_within(p, b),
        coords_within(q, b),
    ensures
        0 <= spec_seg_len(p, q) <= 3 * b,
{
    lemma_sqr_dist_bound(p, q, b);
    let d = spec_sqr_dist(p, q);
    lemma_sqrt_floor_bounds(d);
    let s = sqrt_floor(d);
    if s > 3 * b {
        assert((3 * b + 1) * (3 * b + 1) <= s * s) by (nonlinear_arith)
            requires
                0 <= 3 * b + 1 <= s,
        ;
        assert(8 * (b * b) < (3 * b + 1) * (3 * b + 1)) by (nonlinear_arith)
            requires
                b >= 0,
        ;
    }
}

pub proof fn lemma_path_len_bound(s: Seq<Point>, b: int)
    requires
        b >= 0,
        all_coords_within(s, b),
    ensures
        0 <= spec_path_len(s),
        s.len() >= 1 ==> spec_path_len(s) <= 3 * b * (s.len() - 1),
    decreases s.len(),
{
    if s.len() <= 1 {
    } else {
        assert(all_coords_within(s.drop_last(), b));
        lemma_path_len_bound(s.drop_last(), b);
        lemma_seg_len_bound(s[s.len() - 2], s[s.len() - 1], b);
        assert(3 * b * (s.len() - 2) + 3 * b == 3 * b * (s.len() - 1)) by (nonlinear_arith);
    }
}

/// Sequences with pointwise equal coordinates have equal coordinate sums.
pub proof fn lemma_sum_pointwise_eq(s: Seq<Point>, t: Seq<Point>)
    requires
        s.len() == t.len(),
        forall|i: int| 0 <= i < s.len() ==> (#[trigger] s[i]).x == t[i].x && s[i].y == t[i].y,
    ensures
        spec_sum_x(s) == spec_sum_x(t),
        spec_sum_y(s) == spec_sum_y(t),
    decreases s.len(),
{
    if s.len() > 0 {
        lemma_sum_pointwise_eq(s.drop_last(), t.drop_last());
    }
}

pub proof fn lemma_sum_x_bounds(s: Seq<Point>, lo: int, hi: int)
    requires
        forall|i: int| 0 <= i < s.len() ==> lo <= #[trigger] s[i].x <= hi,
    ensures
        s.len() * lo <= spec_sum_x(s) <= s.len() * hi,
    decreases s.len(),
{
    if s.len() == 0 {
    } else {
        lemma_sum_x_bounds(s.drop_last(), lo, hi);
        assert((s.len() - 1) * lo + lo == s.len() * lo) by (nonlinear_arith);
        assert((s.len() - 1) * hi + hi == s.len() * hi) by (nonlinear_arith);
    }
}

pub proof fn lemma_sum_y_bounds(s: Seq<Point>, lo: int, hi: int)
    requires
        forall|i: int| 0 <= i < s.len() ==> lo <= #[trigger] s[i].y <= hi,
    ensures
        s.len() * lo <= spec_sum_y(s) <= s.len() * hi,
    decreases s.len(),
{
    if s.len() == 0 {
    } else {
        lemma_sum_y_bounds(s.drop_last(), lo, hi);
        assert((s.len() - 1) * lo + lo == s.len() * lo) by (nonlinear_arith);
        assert((s.len() - 1) * hi + hi == s.len() * hi) by (nonlinear_arith);
    }
}

/// Mean x coordinate, rounded down.
pub open spec fn spec_centroid_x(s: Seq<Point>) -> int {
    spec_sum_x(s) / s.len() as int
}

/// Mean y coordinate, rounded down.
pub open spec fn spec_centroid_y(s: Seq<Point>) -> int {
    spec_sum_y(s) / s.len() as int
}

/// Smallest x coordinate (0 for an empty sequence).
pub open spec fn spec_min_x(s: Seq<Point>) -> int
    decreases s.len(),
{
    if s.len() == 0 {
        0
    } else if s.len() == 1 {
        s[0].x as int
    } else {
        let m = spec_min_x(s.drop_last());
        if s.last().x < m {
            s.last().x as int
        } else {
            m
        }
    }
}

/// Largest x coordinate (0 for an empty sequence).
pub open spec fn spec_max_x(s: Seq<Point>) -> int
    decreases s.len(),
{
    if s.len() == 0 {
        0
    } else if s.len() == 1 {
        s[0].x as int
    } else {
        let m = spec_max_x(s.drop_last());
        if s.last().x > m {
            s.last().x as int
        } else {
            m
        }
    }
}

/// Smallest y coordinate (0 for an empty sequence).
pub open spec fn spec_min_y(s: Seq<Point>) -> int
    decreases s.len(),
{
    if s.len() == 0 {
        0
    } else if s.len() == 1 {
        s[0].y as int
    } else {
        let m = spec_min_y(s.drop_last());
        if s.last().y < m {
            s.last().y as int
        } else {
            m
        }
    }
}

/// Largest y coordinate (0 for an empty sequence).
pub open spec fn spec_max_y(s: Seq<Point>) -> int
    decreases s.len(),
{
    if s.len() == 0 {
        0
    } else if s.len() == 1 {
        s[0].y as int
    } else {
        let m = spec_max_y(s.drop_last());
        if s.last().y > m {
            s.last().y as int
        } else {
            m
        }
    }
}

/// The longer side of the axis-aligned bounding box.
pub open spec fn spec_bbox_size(s: Seq<Point>) -> int {
    let w = spec_max_x(s) - spec_min_x(s);
    let h = spec_max_y(s) - spec_min_y(s);
    if w > h {
        w
    } else {
        h
    }
}

/// One coordinate after `scale`: mapped so the bounding box minimum sits at
/// zero and its longer side spans `UNIT` ticks. On a degenerate box (zero
/// size in both axes) scaling is skipped and the coordinate is kept.
pub open spec fn spec_scale_coord(v: int, mn: int, size: int) -> int {
    if size > 0 {
        (v - mn) * (UNIT as int) / size
    } else {
        v
    }
}

/// One quantized grid coordinate: a coordinate in `[-UNIT, UNIT]` mapped by
/// rounding onto `[0, MAX_INT_COORD - 1]`.
pub open spec fn spec_quantize(v: int) -> int {
    ((v + UNIT as int) * (MAX_INT_COORD as int - 1) + UNIT as int) / (2 * UNIT as int)
}

/// The origin point.
pub open spec fn spec_origin() -> Point {
    Point { x: 0, y: 0, id: 0, int_x: 0, int_y: 0 }
}

/// What `scale` returns, pointwise.
pub open spec fn spec_scale_seq(s: Seq<Point>) -> Seq<Point> {
    Seq::new(
        s.len(),
        |i: int|
            Point {
                x: spec_scale_coord(s[i].x as int, spec_min_x(s), spec_bbox_size(s)) as i64,
                y: spec_scale_coord(s[i].y as int, spec_min_y(s), spec_bbox_size(s)) as i64,
                id: s[i].id,
                int_x: 0,
                int_y: 0,
            },
    )
}

/// What `translate_to` returns, pointwise.
pub open spec fn spec_translate_seq(s: Seq<Point>, pt: Point) -> Seq<Point> {
    Seq::new(
        s.len(),
        |i: int|
            Point {
                x: (s[i].x + pt.x - spec_centroid_x(s)) as i64,
                y: (s[i].y + pt.y - spec_centroid_y(s)) as i64,
                id: s[i].id,
                int_x: 0,
                int_y: 0,
            },
    )
}

/// What `make_int_coords` returns, pointwise.
pub open spec fn spec_quantize_seq(s: Seq<Point>) -> Seq<Point> {
    Seq::new(
        s.len(),
        |i: int|
            Point {
                x: s[i].x,
                y: s[i].y,
                id: s[i].id,
                int_x: spec_quantize(s[i].x as int) as usize,
                int_y: spec_quantize(s[i].y as int) as usize,
            },
    )
}

/// The points of the cloud the pipeline builds from a raw gesture: resample
/// to the fixed count, scale, translate the centroid to the origin, and
/// quantize, in that order.
pub open spec fn spec_cloud_points(raw: Seq<Point>) -> Seq<Point> {
    spec_quantize_seq(
        spec_translate_seq(spec_scale_seq(spec_resample(raw, NUM_POINTS as int)), spec_origin()),
    )
}

/// Every coordinate lies between the bounding box extremes.
pub proof fn lemma_bbox_bounds(s: Seq<Point>)
    ensures
        forall|i: int|
            0 <= i < s.len() ==> spec_min_x(s) <= (#[trigger] s[i]).x <= spec_max_x(s)
                && spec_min_y(s) <= s[i].y <= spec_max_y(s),
    decreases s.len(),
{
    if s.len() <= 1 {
    } else {
        lemma_bbox_bounds(s.drop_last());
        assert(forall|i: int| 0 <= i < s.len() - 1 ==> s.drop_last()[i] == s[i]);
    }
}

/// Squared Euclidean distance between two points' fixed-point coordinates.
pub fn sqr_euclidean_distance(pt1: &Point, pt2: &Point) -> (r: u64)
    requires
        coords_within(*pt1, COORD_LIMIT as int),
        coords_within(*pt2, COORD_LIMIT as int),
    ensures
        r == spec_sqr_dist(*pt1, *pt2),
        r <= 8_000_000_000_000,
{
    let dx = pt2.x - pt1.x;
    let dy = pt2.y - pt1.y;
    assert(0 <= dx * dx <= 4_000_000_000_000 && 0 <= dy * dy <= 4_000_000_000_000)
        by (nonlinear_arith)
        requires
            -2_000_000 <= dx <= 2_000_000,
            -2_000_000 <= dy <= 2_000_000,
    ;
    (dx * dx + dy * dy) as u64
}

/// Euclidean distance, rounded down to whole ticks.
pub fn euclidean_distance(pt1: &Point, pt2: &Point) -> (r: u64)
    requires
        coords_within(*pt1, COORD_LIMIT as int),
        coords_within(*pt2, COORD_LIMIT as int),
    ensures
        r == sqrt_floor(spec_sqr_dist(*pt1, *pt2)),
        r <= 3_000_000,
{
    let d = sqr_euclidean_distance(pt1, pt2);
    let r = isqrt_u64(d);
    assert(r <= 3_000_000) by (nonlinear_arith)
        requires
            r * r <= 8_000_000_000_000u64,
    ;
    r
}

/// Total path length: Euclidean distances summed over consecutive pairs
/// that belong to the same stroke.
pub fn path_length(points: &Vec<Point>) -> (r: u64)
    requires
        points@.len() <= MAX_RAW_POINTS,
        all_coords_within(points@, COORD_LIMIT as int),
    ensures
        r == spec_path_len(points@),
{
    let n = points.len();
    if n <= 1 {
        return 0;
    }
    let mut r: u64 = 0;
    let mut i: usize = 1;
    while i < n
        invariant
            1 <= i <= n,
            n == points@.len() <= MAX_RAW_POINTS,
            all_coords_within(points@, COORD_LIMIT as int),
            r == spec_path_len(points@.take(i as int)),
            r <= 3_000_000 * (i - 1),
        decreases n - i,
    {
        if points[i].id == points[i - 1].id {
            let d = euclidean_distance(&points[i - 1], &points[i]);
            r = r + d;
        }
        proof {
            let t = points@.take(i + 1 as int);
            assert(t.drop_last() =~= points@.take(i as int));
            assert(t[t.len() - 2] == points@[i - 1]);
            assert(t[t.len() - 1] == points@[i as int]);
        }
        i = i + 1;
    }
    proof {
        assert(points@.take(n as int) =~= points@);
    }
    r
}

/// Arithmetic mean of all coordinates, as a fresh point with stroke id 0.
pub fn centroid(points: &Vec<Point>) -> (r: Point)
    requires
        1 <= points@.len() <= MAX_RAW_POINTS,
        all_coords_within(points@, COORD_LIMIT as int),
    ensures
        r.x == spec_sum_x(points@) / points@.len() as int,
        r.y == spec_sum_y(points@) / points@.len() as int,
        r.id == 0,
        r.int_x == 0,
        r.int_y == 0,
        coords_within(r, COORD_LIMIT as int),
{
    let n = points.len();
    let mut sx: i64 = 0;
    let mut sy: i64 = 0;
    let mut i: usize = 0;
    while i < n
        invariant
            0 <= i <= n,
            n == points@.len() <= MAX_RAW_POINTS,
            all_coords_within(points@, COORD_LIMIT as int),
            sx == spec_sum_x(points@.take(i as int)),
            sy == spec_sum_y(points@.take(i as int)),
            -1_000_000 * (i as int) <= sx <= 1_000_000 * (i as int),
            -1_000_000 * (i as int) <= sy <= 1_000_000 * (i as int),
        decreases n - i,
    {
        proof {
            let t = points@.take(i + 1 as int);
            assert(t.drop_last() =~= points@.take(i as int));
            assert(t.last() == points@[i as int]);
        }
        sx = sx + points[i].x;
        sy = sy + points[i].y;
        i = i + 1;
    }
    proof {
        assert(points@.take(n as int) =~= points@);
        lemma_div_range(sx as int, -(COORD_LIMIT as int), COORD_LIMIT as int, n as int);
        lemma_div_range(sy as int, -(COORD_LIMIT as int), COORD_LIMIT as int, n as int);
        assert(-(COORD_LIMIT as int) * (n as int) <= sx <= COORD_LIMIT as int * (n as int))
            by (nonlinear_arith)
            requires
                -1_000_000 * (n as int) <= sx <= 1_000_000 * (n as int),
                COORD_LIMIT == 1_000_000i64,
        ;
        assert(-(COORD_LIMIT as int) * (n as int) <= sy <= COORD_LIMIT as int * (n as int))
            by (nonlinear_arith)
            requires
                -1_000_000 * (n as int) <= sy <= 1_000_000 * (n as int),
                COORD_LIMIT == 1_000_000i64,
        ;
    }
    Point::new(div_floor_i64(sx, n as i64), div_floor_i64(sy, n as i64), 0)
}

/// Uniform rescale: the bounding box minimum moves to the origin and the
/// longer box side is stretched to exactly `UNIT` ticks, the same factor on
/// both axes; every output coordinate then lands in `[0, UNIT]`. On a
/// degenerate box (a single repeated location) scaling is skipped and the
/// points keep their coordinates.
pub fn scale(points: &Vec<Point>) -> (r: Vec<Point>)
    requires
        1 <= points@.len() <= MAX_RAW_POINTS,
        all_coords_within(points@, COORD_LIMIT as int),
    ensures
        r@.len() == points@.len(),
        forall|i: int|
            0 <= i < r@.len() ==> {
                let p = #[trigger] r@[i];
                p.id == points@[i].id && p.int_x == 0 && p.int_y == 0
                    && p.x == spec_scale_coord(
                    points@[i].x as int,
                    spec_min_x(points@),
                    spec_bbox_size(points@),
                ) && p.y == spec_scale_coord(
                    points@[i].y as int,
                    spec_min_y(points@),
                    spec_bbox_size(points@),
                )
            },
        spec_bbox_size(points@) > 0 ==> forall|i: int|
            0 <= i < r@.len() ==> 0 <= (#[trigger] r@[i]).x <= UNIT && 0 <= r@[i].y <= UNIT,
        spec_bbox_size(points@) <= 0 ==> forall|i: int|
            0 <= i < r@.len() ==> (#[trigger] r@[i]).x == points@[i].x && r@[i].y == points@[i].y,
        r@ == spec_scale_seq(points@),
{
    let n = points.len();
    let mut mnx: i64 = points[0].x;
    let mut mxx: i64 = points[0].x;
    let mut mny: i64 = points[0].y;
    let mut mxy: i64 = points[0].y;
    let mut i: usize = 1;
    while i < n
        invariant
            1 <= i <= n,
            n == points@.len() <= MAX_RAW_POINTS,
            all_coords_within(points@, COORD_LIMIT as int),
            mnx == spec_min_x(points@.take(i as int)),
            mxx == spec_max_x(points@.take(i as int)),
            mny == spec_min_y(points@.take(i as int)),
            mxy == spec_max_y(points@.take(i as int)),
            -COORD_LIMIT <= mnx <= COORD_LIMIT,
            -COORD_LIMIT <= mxx <= COORD_LIMIT,
            -COORD_LIMIT <= mny <= COORD_LIMIT,
            -COORD_LIMIT <= mxy <= COORD_LIMIT,
        decreases n - i,
    {
        proof {
            let t = points@.take(i + 1 as int);
            assert(t.drop_last() =~= points@.take(i as int));
            assert(t.last() == points@[i as int]);
        }
        let p = points[i];
        if p.x < mnx {
            mnx = p.x;
        }
        if p.x > mxx {
            mxx = p.x;
        }
        if p.y < mny {
            mny = p.y;
        }
        if p.y > mxy {
            mxy = p.y;
        }
        i = i + 1;
    }
    proof {
        assert(points@.take(n as int) =~= points@);
        lemma_bbox_bounds(points@);
    }
    let w = mxx - mnx;
    let h = mxy - mny;
    let size = if w > h {
        w
    } else {
        h
    };
    let ghost sz = spec_bbox_size(points@);
    let mut r: Vec<Point> = Vec::new();
    let mut j: usize = 0;
    while j < n
        invariant
            0 <= j <= n,
            n == points@.len() <= MAX_RAW_POINTS,
            all_coords_within(points@, COORD_LIMIT as int),
            mnx == spec_min_x(points@),
            mny == spec_min_y(points@),
            size == sz == spec_bbox_size(points@),
            0 <= size <= 2 * COORD_LIMIT,
            forall|i: int|
                0 <= i < points@.len() ==> mnx <= (#[trigger] points@[i]).x <= mnx + sz && mny
                    <= points@[i].y <= mny + sz,
            r@.len() == j,
            forall|i: int|
                0 <= i < j ==> {
                    let p = #[trigger] r@[i];
                    p.id == points@[i].id && p.int_x == 0 && p.int_y == 0 && p.x
                        == spec_scale_coord(points@[i].x as int, mnx as int, sz) && p.y
                        == spec_scale_coord(points@[i].y as int, mny as int, sz)
                },
            sz > 0 ==> forall|i: int|
                0 <= i < j ==> 0 <= (#[trigger] r@[i]).x <= UNIT && 0 <= r@[i].y <= UNIT,
        decreases n - j,
    {
        let p = points[j];
        proof {
            assert(mnx <= p.x <= mnx + sz && mny <= p.y <= mny + sz);
        }
        if size > 0 {
            let ax = (p.x - mnx) as u64 * (UNIT as u64);
            let ay = (p.y - mny) as u64 * (UNIT as u64);
            proof {
                lemma_div_range(ax as int, 0, UNIT as int, sz);
                lemma_div_range(ay as int, 0, UNIT as int, sz);
                assert(ax <= (UNIT as int) * sz) by (nonlinear_arith)
                    requires
                        ax == (p.x - mnx) * (UNIT as int),
                        0 <= p.x - mnx <= sz,
                        UNIT == 1024i64,
                ;
                assert(ay <= (UNIT as int) * sz) by (nonlinear_arith)
                    requires
                        ay == (p.y - mny) * (UNIT as int),
                        0 <= p.y - mny <= sz,
                        UNIT == 1024i64,
                ;
            }
            let qx = (ax / (size as u64)) as i64;
            let qy = (ay / (size as u64)) as i64;
            r.push(Point::new(qx, qy, p.id));
        } else {
            r.push(Point::new(p.x, p.y, p.id));
        }
        j = j + 1;
    }
    proof {
        assert(r@ =~= spec_scale_seq(points@));
    }
    r
}

/// Rigid translation moving the centroid exactly onto `pt`. The stroke ids
/// are kept; the grid coordinates of the output are unset.
pub fn translate_to(points: &Vec<Point>, pt: &Point) -> (r: Vec<Point>)
    requires
        1 <= points@.len() <= MAX_RAW_POINTS,
        all_coords_within(points@, COORD_LIMIT as int),
        coords_within(*pt, COORD_LIMIT as int),
    ensures
        r@.len() == points@.len(),
        forall|i: int|
            0 <= i < r@.len() ==> {
                let p = #[trigger] r@[i];
                p.id == points@[i].id && p.int_x == 0 && p.int_y == 0 && p.x == points@[i].x
                    + pt.x - spec_centroid_x(points@) && p.y == points@[i].y + pt.y
                    - spec_centroid_y(points@)
            },
        spec_centroid_x(r@) == pt.x,
        spec_centroid_y(r@) == pt.y,
        all_coords_within(r@, 3 * COORD_LIMIT as int),
        r@ == spec_translate_seq(points@, *pt),
{
    let n = points.len();
    let c = centroid(points);
    let ghost dx = pt.x - c.x;
    let ghost dy = pt.y - c.y;
    let mut r: Vec<Point> = Vec::new();
    let mut i: usize = 0;
    while i < n
        invariant
            0 <= i <= n,
            n == points@.len() <= MAX_RAW_POINTS,
            all_coords_within(points@, COORD_LIMIT as int),
            coords_within(*pt, COORD_LIMIT as int),
            coords_within(c, COORD_LIMIT as int),
            c.x == spec_centroid_x(points@),
            c.y == spec_centroid_y(points@),
            dx == pt.x - c.x,
            dy == pt.y - c.y,
            r@.len() == i,
            forall|j: int|
                0 <= j < i ==> {
                    let p = #[trigger] r@[j];
                    p.id == points@[j].id && p.int_x == 0 && p.int_y == 0 && p.x == points@[j].x
                        + dx && p.y == points@[j].y + dy
                },
            spec_sum_x(r@) == spec_sum_x(points@.take(i as int)) + i as int * dx,
            spec_sum_y(r@) == spec_sum_y(points@.take(i as int)) + i as int * dy,
        decreases n - i,
    {
        let p = points[i];
        let q = Point::new(p.x + pt.x - c.x, p.y + pt.y - c.y, p.id);
        proof {
            let t = points@.take(i + 1 as int);
            assert(t.drop_last() =~= points@.take(i as int));
            assert(t.last() == points@[i as int]);
            assert(r@.push(q).drop_last() =~= r@);
            assert((i + 1) as int * dx == i as int * dx + dx) by (nonlinear_arith);
            assert((i + 1) as int * dy == i as int * dy + dy) by (nonlinear_arith);
        }
        r.push(q);
        i = i + 1;
    }
    proof {
        assert(points@.take(n as int) =~= points@);
        let sp = spec_sum_x(points@);
        let len = points@.len() as int;
        vstd::arithmetic::div_mod::lemma_fundamental_div_mod(sp, len);
        let rem = sp % len;
        assert(spec_sum_x(r@) == pt.x * len + rem) by (nonlinear_arith)
            requires
                spec_sum_x(r@) == sp + len * (pt.x - sp / len),
                sp == len * (sp / len) + rem,
        ;
        vstd::arithmetic::div_mod::lemma_fundamental_div_mod_converse(
            spec_sum_x(r@),
            len,
            pt.x as int,
            rem,
        );
        let spy = spec_sum_y(points@);
        vstd::arithmetic::div_mod::lemma_fundamental_div_mod(spy, len);
        let remy = spy % len;
        assert(spec_sum_y(r@) == pt.y * len + remy) by (nonlinear_arith)
            requires
                spec_sum_y(r@) == spy + len * (pt.y - spy / len),
                spy == len * (spy / len) + remy,
        ;
        vstd::arithmetic::div_mod::lemma_fundamental_div_mod_converse(
            spec_sum_y(r@),
            len,
            pt.y as int,
            remy,
        );
        assert(r@ =~= spec_translate_seq(points@, *pt));
    }
    r
}

/// `q` lies within the axis-aligned box spanned by `a` and `b`.
pub open spec fn spec_in_segment_box(q: Point, a: Point, b: Point) -> bool {
    &&& (a.x <= q.x <= b.x || b.x <= q.x <= a.x)
    &&& (a.y <= q.y <= b.y || b.y <= q.y <= a.y)
}

/// `q` carries the stroke id of a consecutive same-stroke input pair and
/// lies within that segment's box: what an interpolated cut point (possibly
/// rounded) looks like.
pub open spec fn spec_on_input_segment(q: Point, s: Seq<Point>) -> bool {
    exists|j: int|
        0 <= j < s.len() - 1 && (#[trigger] s[j]).id == s[j + 1].id && q.id == s[j + 1].id
            && spec_in_segment_box(q, s[j], s[j + 1])
}

/// Every resampled point is an input point, or a same-stroke cut point on
/// one of the input's segments.
pub open spec fn spec_resample_point_ok(q: Point, s: Seq<Point>) -> bool {
    (exists|j: int| 0 <= j < s.len() && q == #[trigger] s[j]) || spec_on_input_segment(q, s)
}

/// Both ends of a working-list adjacency lie on one same-stroke input
/// segment's box, carrying its stroke id.
pub open spec fn spec_adj_ok(a: Point, b: Point, s: Seq<Point>) -> bool {
    exists|j: int|
        0 <= j < s.len() - 1 && (#[trigger] s[j]).id == s[j + 1].id && a.id == s[j + 1].id && b.id
            == s[j + 1].id && spec_in_segment_box(a, s[j], s[j + 1]) && spec_in_segment_box(
            b,
            s[j],
            s[j + 1],
        )
}

/// The resampling walk, as a mathematical function of its state: working
/// list `pts`, position `i`, accumulated distance `dist`, emitted points
/// `out`. Whenever the accumulated distance reaches the interval on a
/// same-stroke segment and a slot is free, the cut point is interpolated,
/// emitted, and inserted back into the walk; otherwise the distance
/// accumulates. Stroke boundaries are never bridged.
pub open spec fn spec_resample_walk(
    pts: Seq<Point>,
    i: int,
    dist: int,
    out: Seq<Point>,
    n: int,
    interval: int,
) -> Seq<Point>
    decreases n - out.len(), pts.len() - i,
{
    if i < 1 || i >= pts.len() || out.len() > n {
        out
    } else if pts[i].id == pts[i - 1].id {
        let d = sqrt_floor(spec_sqr_dist(pts[i - 1], pts[i]));
        if dist + d >= interval && out.len() < n {
            let t = interval - dist;
            let q = Point {
                x: (pts[i - 1].x + (t * (pts[i].x - pts[i - 1].x)) / d) as i64,
                y: (pts[i - 1].y + (t * (pts[i].y - pts[i - 1].y)) / d) as i64,
                id: pts[i].id,
                int_x: 0,
                int_y: 0,
            };
            spec_resample_walk(pts.insert(i, q), i + 1, 0, out.push(q), n, interval)
        } else {
            spec_resample_walk(pts, i + 1, dist + d, out, n, interval)
        }
    } else {
        spec_resample_walk(pts, i + 1, dist, out, n, interval)
    }
}

/// What `resample` returns: the walk over the input at interval
/// `path_length / (n - 1)`, then the input's last point repeated into any
/// slots the walk left unfilled.
pub open spec fn spec_resample(points: Seq<Point>, n: int) -> Seq<Point> {
    let interval = spec_path_len(points) / (n - 1);
    let walked = spec_resample_walk(points, 1, 0, seq![points[0]], n, interval);
    if walked.len() >= n {
        walked
    } else {
        walked + Seq::new((n - walked.len()) as nat, |i: int| points.last())
    }
}

/// Resample a stroke to exactly `n` points, evenly spaced by arc length
/// within each stroke segment: exactly the walk `spec_resample` describes.
/// The first output point is the first input point, untouched; interpolated
/// points stay on the segment they cut, so every output coordinate stays
/// within the input's coordinate bound. If the walk leaves slots unfilled,
/// the final input point fills them.
pub fn resample(points: &Vec<Point>, n: usize) -> (r: Vec<Point>)
    requires
        2 <= points@.len() <= MAX_RAW_POINTS,
        all_coords_within(points@, COORD_LIMIT as int),
        2 <= n <= 10_000,
        spec_path_len(points@) >= n - 1,
    ensures
        r@.len() == n,
        r@[0] == points@[0],
        all_coords_within(r@, COORD_LIMIT as int),
        r@ == spec_resample(points@, n as int),
        forall|i: int| 0 <= i < r@.len() ==> spec_resample_point_ok(#[trigger] r@[i], points@),
{
    let pl = path_length(points);
    proof {
        lemma_path_len_bound(points@, COORD_LIMIT as int);
        assert((n - 1) as int * 1 <= pl as int <= (n - 1) as int * pl as int) by (nonlinear_arith)
            requires
                n >= 2,
                pl as int >= n - 1,
        ;
        lemma_div_range(pl as int, 1, pl as int, (n - 1) as int);
    }
    let interval = pl / (n as u64 - 1);
    let ghost target = spec_resample_walk(
        points@,
        1,
        0,
        seq![points@[0]],
        n as int,
        interval as int,
    );
    let mut new_points: Vec<Point> = Vec::new();
    new_points.push(points[0]);
    proof {
        assert(new_points@ =~= seq![points@[0]]);
    }
    let mut pts: Vec<Point> = Vec::new();
    let mut k: usize = 0;
    while k < points.len()
        invariant
            0 <= k <= points@.len(),
            pts@ == points@.take(k as int),
        decreases points@.len() - k,
    {
        pts.push(points[k]);
        proof {
            assert(points@.take(k + 1 as int) =~= points@.take(k as int).push(points@[k as int]));
        }
        k = k + 1;
    }
    proof {
        assert(points@.take(points@.len() as int) =~= points@);
        assert forall|k: int|
            1 <= k < pts@.len() && (#[trigger] pts@[k]).id == pts@[k - 1].id implies spec_adj_ok(
            pts@[k - 1],
            pts@[k],
            points@,
        ) by {
            assert(0 <= k - 1 < points@.len() - 1 && points@[k - 1].id == points@[k].id
                && spec_in_segment_box(pts@[k - 1], points@[k - 1], points@[k])
                && spec_in_segment_box(pts@[k], points@[k - 1], points@[k]));
        }
        assert(spec_resample_point_ok(new_points@[0], points@));
    }
    let mut dist: u64 = 0;
    let mut i: usize = 1;
    while i < pts.len()
        invariant
            1 <= i <= pts@.len(),
            2 <= points@.len() <= MAX_RAW_POINTS,
            2 <= n <= 10_000,
            points@.len() <= pts@.len() <= points@.len() + n,
            pts@.len() == points@.len() + new_points@.len() - 1,
            all_coords_within(pts@, COORD_LIMIT as int),
            pts@[0] == points@[0],
            1 <= new_points@.len() <= n,
            new_points@[0] == points@[0],
            all_coords_within(new_points@, COORD_LIMIT as int),
            interval >= 1,
            interval <= 300_000_000_000,
            new_points@.len() < n ==> dist < interval,
            dist <= 3_000_000 * (i as int),
            pts@[pts@.len() - 1] == points@[points@.len() - 1],
            target == spec_resample_walk(
                pts@,
                i as int,
                dist as int,
                new_points@,
                n as int,
                interval as int,
            ),
            forall|k: int|
                1 <= k < pts@.len() && (#[trigger] pts@[k]).id == pts@[k - 1].id ==> spec_adj_ok(
                    pts@[k - 1],
                    pts@[k],
                    points@,
                ),
            forall|k: int|
                0 <= k < new_points@.len() ==> spec_resample_point_ok(
                    #[trigger] new_points@[k],
                    points@,
                ),
        decreases pts@.len() - i + n - new_points@.len(),
    {
        let ghost pre_pts = pts@;
        let ghost pre_out = new_points@;
        let ghost pre_dist = dist as int;
        let ghost pre_i = i as int;
        if pts[i].id == pts[i - 1].id {
            let d = euclidean_distance(&pts[i - 1], &pts[i]);
            if dist + d >= interval && new_points.len() < n {
                let t = interval - dist;
                let dxi = pts[i].x - pts[i - 1].x;
                let dyi = pts[i].y - pts[i - 1].y;
                proof {
                    assert(1 <= t <= d);
                    lemma_interp_bounds(pts@[i - 1].x as int, pts@[i as int].x as int, t as int, d as int);
                    lemma_interp_bounds(pts@[i - 1].y as int, pts@[i as int].y as int, t as int, d as int);
                    assert(-6_000_000_000_000 <= t as int * dxi <= 6_000_000_000_000
                        && -6_000_000_000_000 <= t as int * dyi <= 6_000_000_000_000)
                        by (nonlinear_arith)
                        requires
                            0 <= t <= 3_000_000u64,
                            -2_000_000 <= dxi <= 2_000_000,
                            -2_000_000 <= dyi <= 2_000_000,
                    ;
                }
                let qx = pts[i - 1].x + div_floor_i64(t as i64 * dxi, d as i64);
                let qy = pts[i - 1].y + div_floor_i64(t as i64 * dyi, d as i64);
                let q = Point::new(qx, qy, pts[i].id);
                new_points.push(q);
                let ghost old_pts = pts@;
                pts.insert(i, q);
                proof {
                    assert(pts@ =~= old_pts.subrange(0, i as int).push(q) + old_pts.subrange(
                        i as int,
                        old_pts.len() as int,
                    ));
                    assert(pts@[0] == old_pts[0]);
                    assert(pts@[pts@.len() - 1] == old_pts[old_pts.len() - 1]);
                    assert(forall|m: int|
                        0 <= m < pts@.len() ==> coords_within(#[trigger] pts@[m], COORD_LIMIT as int));
                    assert(spec_adj_ok(old_pts[i - 1], old_pts[i as int], points@));
                    let j = choose|j: int|
                        0 <= j < points@.len() - 1 && (#[trigger] points@[j]).id == points@[j
                            + 1].id && old_pts[i - 1].id == points@[j + 1].id && old_pts[
                            i as int
                        ].id == points@[j + 1].id && spec_in_segment_box(
                            old_pts[i - 1],
                            points@[j],
                            points@[j + 1],
                        ) && spec_in_segment_box(old_pts[i as int], points@[j], points@[j + 1]);
                    assert(spec_in_segment_box(q, points@[j], points@[j + 1]));
                    assert(spec_on_input_segment(q, points@));
                    assert(spec_adj_ok(old_pts[i - 1], q, points@));
                    assert(spec_adj_ok(q, old_pts[i as int], points@));
                    assert forall|k: int|
                        1 <= k < pts@.len() && (#[trigger] pts@[k]).id == pts@[k - 1].id
                            implies spec_adj_ok(pts@[k - 1], pts@[k], points@) by {
                        if k < i {
                            assert(pts@[k - 1] == old_pts[k - 1] && pts@[k] == old_pts[k]);
                        } else if k == i {
                            assert(pts@[k - 1] == old_pts[i - 1] && pts@[k] == q);
                        } else if k == i + 1 {
                            assert(pts@[k - 1] == q && pts@[k] == old_pts[i as int]);
                        } else {
                            assert(pts@[k - 1] == old_pts[k - 2] && pts@[k] == old_pts[k - 1]);
                        }
                    }
                }
                dist = 0;
            } else {
                dist = dist + d;
            }
        }
        i = i + 1;
        proof {
            assert(spec_resample_walk(pre_pts, pre_i, pre_dist, pre_out, n as int, interval as int)
                == spec_resample_walk(
                pts@,
                i as int,
                dist as int,
                new_points@,
                n as int,
                interval as int,
            ));
        }
    }
    let ghost walked = new_points@;
    proof {
        assert(target == walked);
    }
    while new_points.len() < n
        invariant
            1 <= new_points@.len() <= n,
            2 <= points@.len(),
            pts@.len() >= 2,
            all_coords_within(pts@, COORD_LIMIT as int),
            new_points@[0] == points@[0],
            all_coords_within(new_points@, COORD_LIMIT as int),
            pts@[pts@.len() - 1] == points@[points@.len() - 1],
            forall|k: int|
                0 <= k < new_points@.len() ==> spec_resample_point_ok(
                    #[trigger] new_points@[k],
                    points@,
                ),
            walked.len() <= new_points@.len(),
            new_points@ == walked + Seq::new(
                (new_points@.len() - walked.len()) as nat,
                |m: int| points@.last(),
            ),
        decreases n - new_points@.len(),
    {
        let last = pts[pts.len() - 1];
        new_points.push(last);
        proof {
            assert(last == points@[points@.len() - 1]);
            assert(spec_resample_point_ok(last, points@));
            assert(new_points@ =~= walked + Seq::new(
                (new_points@.len() - walked.len()) as nat,
                |m: int| points@.last(),
            ));
        }
    }
    proof {
        if walked.len() >= n {
            assert(new_points@ == walked);
        } else {
            assert(new_points@ =~= walked + Seq::new((n - walked.len()) as nat, |m: int| points@.last()));
        }
    }
    new_points
}

/// The quantized grid coordinate stays on the grid.
pub proof fn lemma_quantize_range(v: int)
    requires
        -(UNIT as int) <= v <= UNIT as int,
    ensures
        0 <= spec_quantize(v) <= MAX_INT_COORD as int - 1,
{
    let num = (v + UNIT as int) * (MAX_INT_COORD as int - 1) + UNIT as int;
    assert(1024 <= num <= 2048 * 1023 + 1024) by (nonlinear_arith)
        requires
            num == (v + 1024) * 1023 + 1024,
            -1024 <= v <= 1024,
    ;
    vstd::arithmetic::div_mod::lemma_fundamental_div_mod_converse(
        (2048 * 1023 + 2047) as int,
        2048,
        1023,
        2047,
    );
    vstd::arithmetic::div_mod::lemma_div_is_ordered(num, (2048 * 1023 + 2047) as int, 2048);
    lemma_div_range(num, 0, 1024, 2048);
}

/// Populate the quantized grid coordinates; `x`, `y` and the stroke ids are
/// untouched.
pub fn make_int_coords(points: &Vec<Point>) -> (r: Vec<Point>)
    requires
        all_coords_within(points@, UNIT as int),
    ensures
        r@.len() == points@.len(),
        forall|i: int|
            0 <= i < r@.len() ==> {
                let p = #[trigger] r@[i];
                p.x == points@[i].x && p.y == points@[i].y && p.id == points@[i].id && p.int_x
                    == spec_quantize(points@[i].x as int) && p.int_y == spec_quantize(points@[i].y as int)
            },
        forall|i: int|
            0 <= i < r@.len() ==> (#[trigger] r@[i]).int_x <= MAX_INT_COORD - 1 && r@[i].int_y
                <= MAX_INT_COORD - 1,
        r@ == spec_quantize_seq(points@),
{
    let n = points.len();
    let mut r: Vec<Point> = Vec::new();
    let mut i: usize = 0;
    while i < n
        invariant
            0 <= i <= n,
            n == points@.len(),
            all_coords_within(points@, UNIT as int),
            r@.len() == i,
            forall|j: int|
                0 <= j < i ==> {
                    let p = #[trigger] r@[j];
                    p.x == points@[j].x && p.y == points@[j].y && p.id == points@[j].id && p.int_x
                        == spec_quantize(points@[j].x as int) && p.int_y == spec_quantize(points@[j].y as int)
                },
            forall|j: int|
                0 <= j < i ==> (#[trigger] r@[j]).int_x <= MAX_INT_COORD - 1 && r@[j].int_y
                    <= MAX_INT_COORD - 1,
        decreases n - i,
    {
        let p = points[i];
        proof {
            lemma_quantize_range(p.x as int);
            lemma_quantize_range(p.y as int);
        }
        let nx = ((p.x + UNIT) as u64 * (MAX_INT_COORD as u64 - 1) + UNIT as u64) / (2 * UNIT
            as u64);
        let ny = ((p.y + UNIT) as u64 * (MAX_INT_COORD as u64 - 1) + UNIT as u64) / (2 * UNIT
            as u64);
        r.push(Point { x: p.x, y: p.y, id: p.id, int_x: nx as usize, int_y: ny as usize });
        i = i + 1;
    }
    proof {
        assert(r@ =~= spec_quantize_seq(points@));
    }
    r
}

/// The lookup-grid cell a quantized coordinate projects to: rounded down by
/// the grid ratio, clamped to the grid's last cell.
pub open spec fn spec_lut_cell(v: int) -> int {
    let c = (v + LUT_SCALE_FACTOR as int / 2) / LUT_SCALE_FACTOR as int;
    if c >= LUT_SIZE as int {
        LUT_SIZE as int - 1
    } else {
        c
    }
}

/// Squared lookup-grid distance between `p`'s projected cell and `(gx, gy)`.
pub open spec fn spec_cell_dist(p: Point, gx: int, gy: int) -> int {
    let rx = spec_lut_cell(p.int_x as int);
    let ry = spec_lut_cell(p.int_y as int);
    (rx - gx) * (rx - gx) + (ry - gy) * (ry - gy)
}

pub proof fn lemma_lut_cell_range(v: int)
    requires
        0 <= v <= MAX_INT_COORD as int - 1,
    ensures
        0 <= spec_lut_cell(v) <= LUT_SIZE as int - 1,
{
    lemma_div_range(v + 8, 0, 1031, 16);
}

/// The earliest index among the first `j` points minimizing the squared
/// grid distance to cell `(gx, gy)`.
pub open spec fn spec_cell_best(s: Seq<Point>, gx: int, gy: int, j: int) -> int
    decreases j,
{
    if j <= 1 {
        0
    } else {
        let prev = spec_cell_best(s, gx, gy, j - 1);
        if spec_cell_dist(s[j - 1], gx, gy) < spec_cell_dist(s[prev], gx, gy) {
            j - 1
        } else {
            prev
        }
    }
}

/// `c` is exactly the cloud the pipeline builds from the raw gesture
/// `raw`: its points are the four-step composition, and its lookup grid
/// holds the earliest-nearest point index in every cell.
pub open spec fn spec_is_cloud_of(c: PointCloud, raw: Seq<Point>) -> bool {
    &&& c.points@ == spec_cloud_points(raw)
    &&& c.lut@.len() == LUT_SIZE
    &&& forall|x: int| 0 <= x < LUT_SIZE ==> (#[trigger] c.lut@[x])@.len() == LUT_SIZE
    &&& forall|x: int, y: int|
        0 <= x < LUT_SIZE && 0 <= y < LUT_SIZE ==> (#[trigger] c.lut@[x]@[y]) == spec_cell_best(
            c.points@,
            x,
            y,
            NUM_POINTS as int,
        )
}

/// Build the lookup grid: cell `(x, y)` holds the index of the point whose
/// projected cell is nearest to `(x, y)` by squared grid distance, ties
/// broken by the earliest index.
pub fn compute_lut(points: &Vec<Point>) -> (r: Vec<Vec<usize>>)
    requires
        1 <= points@.len(),
        forall|i: int|
            0 <= i < points@.len() ==> (#[trigger] points@[i]).int_x <= MAX_INT_COORD - 1
                && points@[i].int_y <= MAX_INT_COORD - 1,
    ensures
        r@.len() == LUT_SIZE,
        forall|x: int| 0 <= x < LUT_SIZE ==> (#[trigger] r@[x])@.len() == LUT_SIZE,
        forall|x: int, y: int|
            0 <= x < LUT_SIZE && 0 <= y < LUT_SIZE ==> (#[trigger] r@[x]@[y]) < points@.len(),
        forall|x: int, y: int, k: int|
            0 <= x < LUT_SIZE && 0 <= y < LUT_SIZE && 0 <= k < points@.len()
                ==> spec_cell_dist(points@[#[trigger] r@[x]@[y] as int], x, y)
                <= spec_cell_dist(#[trigger] points@[k], x, y),
        forall|x: int, y: int, k: int|
            0 <= x < LUT_SIZE && 0 <= y < LUT_SIZE && 0 <= k < r@[x]@[y]
                ==> spec_cell_dist(#[trigger] points@[k], x, y)
                > spec_cell_dist(points@[#[trigger] r@[x]@[y] as int], x, y),
        forall|x: int, y: int|
            0 <= x < LUT_SIZE && 0 <= y < LUT_SIZE ==> #[trigger] r@[x]@[y] == spec_cell_best(
                points@,
                x,
                y,
                points@.len() as int,
            ),
{
    let n = points.len();
    let mut r: Vec<Vec<usize>> = Vec::new();
    let mut x: usize = 0;
    while x < LUT_SIZE
        invariant
            0 <= x <= LUT_SIZE,
            1 <= n == points@.len(),
            forall|i: int|
                0 <= i < points@.len() ==> (#[trigger] points@[i]).int_x <= MAX_INT_COORD - 1
                    && points@[i].int_y <= MAX_INT_COORD - 1,
            r@.len() == x,
            forall|a: int| 0 <= a < x ==> (#[trigger] r@[a])@.len() == LUT_SIZE,
            forall|a: int, y: int|
                0 <= a < x && 0 <= y < LUT_SIZE ==> (#[trigger] r@[a]@[y]) < points@.len(),
            forall|a: int, y: int, k: int|
                0 <= a < x && 0 <= y < LUT_SIZE && 0 <= k < points@.len()
                    ==> spec_cell_dist(points@[#[trigger] r@[a]@[y] as int], a, y)
                    <= spec_cell_dist(#[trigger] points@[k], a, y),
            forall|a: int, y: int, k: int|
                0 <= a < x && 0 <= y < LUT_SIZE && 0 <= k < r@[a]@[y]
                    ==> spec_cell_dist(#[trigger] points@[k], a, y)
                    > spec_cell_dist(points@[#[trigger] r@[a]@[y] as int], a, y),
            forall|a: int, y: int|
                0 <= a < x && 0 <= y < LUT_SIZE ==> #[trigger] r@[a]@[y] == spec_cell_best(
                    points@,
                    a,
                    y,
                    points@.len() as int,
                ),
        decreases LUT_SIZE - x,
    {
        let mut row: Vec<usize> = Vec::new();
        let mut y: usize = 0;
        while y < LUT_SIZE
            invariant
                0 <= y <= LUT_SIZE,
                x < LUT_SIZE,
                1 <= n == points@.len(),
                forall|i: int|
                    0 <= i < points@.len() ==> (#[trigger] points@[i]).int_x <= MAX_INT_COORD - 1
                        && points@[i].int_y <= MAX_INT_COORD - 1,
                row@.len() == y,
                forall|b: int| 0 <= b < y ==> (#[trigger] row@[b]) < points@.len(),
                forall|b: int, k: int|
                    0 <= b < y && 0 <= k < points@.len()
                        ==> spec_cell_dist(points@[#[trigger] row@[b] as int], x as int, b)
                        <= spec_cell_dist(#[trigger] points@[k], x as int, b),
                forall|b: int, k: int|
                    0 <= b < y && 0 <= k < row@[b]
                        ==> spec_cell_dist(#[trigger] points@[k], x as int, b)
                        > spec_cell_dist(points@[#[trigger] row@[b] as int], x as int, b),
                forall|b: int|
                    0 <= b < y ==> #[trigger] row@[b] == spec_cell_best(
                        points@,
                        x as int,
                        b,
                        points@.len() as int,
                    ),
            decreases LUT_SIZE - y,
        {
            let mut best: usize = 0;
            let mut bestd: u64 = cell_distance(&points[0], x, y);
            let mut k: usize = 1;
            while k < n
                invariant
                    1 <= k <= n == points@.len(),
                    x < LUT_SIZE,
                    y < LUT_SIZE,
                    forall|i: int|
                        0 <= i < points@.len() ==> (#[trigger] points@[i]).int_x <= MAX_INT_COORD
                            - 1 && points@[i].int_y <= MAX_INT_COORD - 1,
                    best < k,
                    bestd == spec_cell_dist(points@[best as int], x as int, y as int),
                    forall|m: int|
                        0 <= m < k ==> bestd <= spec_cell_dist(
                            #[trigger] points@[m],
                            x as int,
                            y as int,
                        ),
                    forall|m: int|
                        0 <= m < best ==> spec_cell_dist(#[trigger] points@[m], x as int, y as int)
                            > bestd,
                    best == spec_cell_best(points@, x as int, y as int, k as int),
                decreases n - k,
            {
                let d = cell_distance(&points[k], x, y);
                if d < bestd {
                    best = k;
                    bestd = d;
                }
                k = k + 1;
            }
            row.push(best);
            y = y + 1;
        }
        r.push(row);
        x = x + 1;
    }
    r
}

/// Squared lookup-grid distance from a point's projected cell to `(gx, gy)`.
fn cell_distance(p: &Point, gx: usize, gy: usize) -> (d: u64)
    requires
        p.int_x <= MAX_INT_COORD - 1,
        p.int_y <= MAX_INT_COORD - 1,
        gx < LUT_SIZE,
        gy < LUT_SIZE,
    ensures
        d == spec_cell_dist(*p, gx as int, gy as int),
{
    proof {
        lemma_lut_cell_range(p.int_x as int);
        lemma_lut_cell_range(p.int_y as int);
    }
    let cx = (p.int_x + LUT_SCALE_FACTOR / 2) / LUT_SCALE_FACTOR;
    let rx = if cx >= LUT_SIZE {
        LUT_SIZE - 1
    } else {
        cx
    };
    let cy = (p.int_y + LUT_SCALE_FACTOR / 2) / LUT_SCALE_FACTOR;
    let ry = if cy >= LUT_SIZE {
        LUT_SIZE - 1
    } else {
        cy
    };
    let dx = rx as i64 - gx as i64;
    let dy = ry as i64 - gy as i64;
    assert(0 <= dx * dx <= 4096 && 0 <= dy * dy <= 4096) by (nonlinear_arith)
        requires
            -64 <= dx <= 64,
            -64 <= dy <= 64,
    ;
    (dx * dx + dy * dy) as u64
}

/// Index of the unmatched target point (true in `mask`) nearest to `p`
/// among the first `j` targets, earliest index on ties; -1 when none is
/// unmatched there.
pub open spec fn spec_best_in_prefix(p: Point, pts: Seq<Point>, mask: Seq<bool>, j: int) -> int
    decreases j,
{
    if j <= 0 {
        -1
    } else {
        let prev = spec_best_in_prefix(p, pts, mask, j - 1);
        if mask[j - 1] && (prev < 0 || spec_sqr_dist(p, pts[j - 1]) < spec_sqr_dist(
            p,
            pts[prev],
        )) {
            j - 1
        } else {
            prev
        }
    }
}

/// Index of the nearest unmatched target point, earliest on ties.
pub open spec fn spec_best_unmatched(p: Point, pts: Seq<Point>, mask: Seq<bool>) -> int {
    spec_best_in_prefix(p, pts, mask, pts.len() as int)
}

/// The greedy weighted match sum, `steps` steps from source index `i` with
/// descending weight `w`: each step matches the current source point to its
/// nearest unmatched target, adds `weight * squared distance`, and marks the
/// target matched.
pub open spec fn spec_greedy_from(
    pts1: Seq<Point>,
    pts2: Seq<Point>,
    mask: Seq<bool>,
    i: int,
    w: int,
    steps: int,
) -> int
    decreases steps,
{
    if steps <= 0 {
        0
    } else {
        let j = spec_best_unmatched(pts1[i], pts2, mask);
        if j < 0 {
            0
        } else {
            w * spec_sqr_dist(pts1[i], pts2[j]) + spec_greedy_from(
                pts1,
                pts2,
                mask.update(j, false),
                if i + 1 == pts1.len() {
                    0
                } else {
                    i + 1
                },
                w - 1,
                steps - 1,
            )
        }
    }
}

/// The full greedy weighted match distance from starting offset `start`.
pub open spec fn spec_cloud_distance(pts1: Seq<Point>, pts2: Seq<Point>, start: int) -> int {
    spec_greedy_from(
        pts1,
        pts2,
        Seq::new(pts2.len(), |i: int| true),
        start,
        pts1.len() as int,
        pts1.len() as int,
    )
}

/// Number of true entries of a mask.
pub open spec fn spec_count_true(mask: Seq<bool>) -> int
    decreases mask.len(),
{
    if mask.len() == 0 {
        0
    } else {
        spec_count_true(mask.drop_last()) + if mask.last() {
            1int
        } else {
            0int
        }
    }
}

pub proof fn lemma_count_true_pos(mask: Seq<bool>)
    requires
        spec_count_true(mask) > 0,
    ensures
        exists|m: int| 0 <= m < mask.len() && mask[m],
    decreases mask.len(),
{
    if mask.len() > 0 {
        if mask.last() {
            assert(mask[mask.len() - 1]);
        } else {
            lemma_count_true_pos(mask.drop_last());
            let m = choose|m: int| 0 <= m < mask.drop_last().len() && mask.drop_last()[m];
            assert(mask[m]);
        }
    }
}

pub proof fn lemma_count_true_update_false(mask: Seq<bool>, j: int)
    requires
        0 <= j < mask.len(),
        mask[j],
    ensures
        spec_count_true(mask.update(j, false)) == spec_count_true(mask) - 1,
    decreases mask.len(),
{
    let upd = mask.update(j, false);
    if j == mask.len() - 1 {
        assert(upd.drop_last() =~= mask.drop_last());
    } else {
        assert(upd.drop_last() =~= mask.drop_last().update(j, false));
        lemma_count_true_update_false(mask.drop_last(), j);
    }
}

/// What the nearest-unmatched-in-prefix choice guarantees.
pub proof fn lemma_best_in_prefix_props(p: Point, pts: Seq<Point>, mask: Seq<bool>, j: int)
    requires
        mask.len() == pts.len(),
        0 <= j <= pts.len(),
    ensures
        -1 <= spec_best_in_prefix(p, pts, mask, j) < j,
        spec_best_in_prefix(p, pts, mask, j) >= 0 ==> mask[spec_best_in_prefix(p, pts, mask, j)],
        spec_best_in_prefix(p, pts, mask, j) == -1 ==> forall|m: int| 0 <= m < j ==> !mask[m],
        forall|m: int|
            0 <= m < j && #[trigger] mask[m] ==> spec_best_in_prefix(p, pts, mask, j) >= 0
                && spec_sqr_dist(p, pts[spec_best_in_prefix(p, pts, mask, j)]) <= spec_sqr_dist(
                p,
                pts[m],
            ),
        forall|m: int|
            0 <= m < spec_best_in_prefix(p, pts, mask, j) && #[trigger] mask[m] ==> spec_sqr_dist(
                p,
                pts[m],
            ) > spec_sqr_dist(p, pts[spec_best_in_prefix(p, pts, mask, j)]),
    decreases j,
{
    if j > 0 {
        lemma_best_in_prefix_props(p, pts, mask, j - 1);
    }
}

/// The greedy match sum is never negative.
pub proof fn lemma_greedy_nonneg(
    pts1: Seq<Point>,
    pts2: Seq<Point>,
    mask: Seq<bool>,
    i: int,
    w: int,
    steps: int,
)
    requires
        steps <= w,
    ensures
        spec_greedy_from(pts1, pts2, mask, i, w, steps) >= 0,
    decreases steps,
{
    if steps > 0 {
        let j = spec_best_unmatched(pts1[i], pts2, mask);
        if j >= 0 {
            lemma_sqr_dist_nonneg(pts1[i], pts2[j]);
            assert(w * spec_sqr_dist(pts1[i], pts2[j]) >= 0) by (nonlinear_arith)
                requires
                    w >= 1,
                    spec_sqr_dist(pts1[i], pts2[j]) >= 0,
            ;
            lemma_greedy_nonneg(
                pts1,
                pts2,
                mask.update(j, false),
                if i + 1 == pts1.len() {
                    0
                } else {
                    i + 1
                },
                w - 1,
                steps - 1,
            );
        }
    }
}

/// The greedy match sum is bounded when both clouds stay within `UNIT`.
pub proof fn lemma_greedy_upper(
    pts1: Seq<Point>,
    pts2: Seq<Point>,
    mask: Seq<bool>,
    i: int,
    w: int,
    steps: int,
)
    requires
        pts1.len() == pts2.len(),
        mask.len() == pts2.len(),
        1 <= pts1.len(),
        0 <= i < pts1.len(),
        0 <= steps,
        w <= pts1.len(),
        all_coords_within(pts1, UNIT as int),
        all_coords_within(pts2, UNIT as int),
    ensures
        spec_greedy_from(pts1, pts2, mask, i, w, steps) <= steps * (pts1.len() * 8_388_608),
    decreases steps,
{
    let n = pts1.len() as int;
    if steps <= 0 {
        assert(0 <= steps * (n * 8_388_608)) by (nonlinear_arith)
            requires
                steps >= 0,
                n >= 1,
        ;
    } else {
        let j = spec_best_unmatched(pts1[i], pts2, mask);
        lemma_best_in_prefix_props(pts1[i], pts2, mask, n);
        if j < 0 {
            assert(0 <= steps * (n * 8_388_608)) by (nonlinear_arith)
                requires
                    steps >= 0,
                    n >= 1,
            ;
        } else {
            lemma_sqr_dist_bound(pts1[i], pts2[j], UNIT as int);
            assert(w * spec_sqr_dist(pts1[i], pts2[j]) <= n * 8_388_608) by (nonlinear_arith)
                requires
                    w <= n,
                    0 <= spec_sqr_dist(pts1[i], pts2[j]) <= 8 * ((1024 as int) * 1024),
                    n >= 1,
            ;
            lemma_greedy_upper(
                pts1,
                pts2,
                mask.update(j, false),
                if i + 1 == pts1.len() {
                    0
                } else {
                    i + 1
                },
                w - 1,
                steps - 1,
            );
            assert((steps - 1) * (n * 8_388_608) + n * 8_388_608 == steps * (n * 8_388_608))
                by (nonlinear_arith);
        }
    }
}

/// The greedy weighted match from offset `start`, abandoned early once the
/// running sum reaches `min_so_far`: the result is exact whenever it is
/// below `min_so_far`, and never exceeds the true greedy distance.
pub(crate) fn cloud_distance(
    pts1: &Vec<Point>,
    pts2: &Vec<Point>,
    start: usize,
    min_so_far: u64,
) -> (r: u64)
    requires
        pts1@.len() == pts2@.len(),
        1 <= pts1@.len() <= NUM_POINTS,
        start < pts1@.len(),
        all_coords_within(pts1@, UNIT as int),
        all_coords_within(pts2@, UNIT as int),
    ensures
        r <= spec_cloud_distance(pts1@, pts2@, start as int),
        r < min_so_far ==> r == spec_cloud_distance(pts1@, pts2@, start as int),
        r == spec_cloud_distance(pts1@, pts2@, start as int) || r >= min_so_far,
        r <= 8_589_934_592,
{
    let n = pts1.len();
    let ghost total = spec_cloud_distance(pts1@, pts2@, start as int);
    proof {
        lemma_greedy_upper(
            pts1@,
            pts2@,
            Seq::new(pts2@.len(), |i: int| true),
            start as int,
            n as int,
            n as int,
        );
        lemma_greedy_nonneg(
            pts1@,
            pts2@,
            Seq::new(pts2@.len(), |i: int| true),
            start as int,
            n as int,
            n as int,
        );
        assert(n as int * (n as int * 8_388_608) <= 8_589_934_592) by (nonlinear_arith)
            requires
                1 <= n as int <= 32,
        ;
    }
    let mut mask: Vec<bool> = Vec::new();
    let mut k: usize = 0;
    while k < n
        invariant
            0 <= k <= n,
            mask@.len() == k,
            forall|m: int| 0 <= m < k ==> #[trigger] mask@[m],
        decreases n - k,
    {
        mask.push(true);
        k = k + 1;
    }
    proof {
        assert(mask@ =~= Seq::new(pts2@.len(), |i: int| true));
        lemma_count_true_all(mask@);
    }
    let mut i: usize = start;
    let mut w: usize = n;
    let mut sum: u64 = 0;
    let mut cnt: usize = 0;
    while cnt < n
        invariant
            pts1@.len() == pts2@.len(),
            1 <= n == pts1@.len() <= NUM_POINTS,
            all_coords_within(pts1@, UNIT as int),
            all_coords_within(pts2@, UNIT as int),
            0 <= cnt <= n,
            w == n - cnt,
            i < n,
            mask@.len() == n,
            spec_count_true(mask@) == n - cnt,
            sum + spec_greedy_from(
                pts1@,
                pts2@,
                mask@,
                i as int,
                w as int,
                (n - cnt) as int,
            ) == total,
            sum <= 8_589_934_592,
            0 <= total <= 8_589_934_592,
            total == spec_cloud_distance(pts1@, pts2@, start as int),
        decreases n - cnt,
    {
        let p = pts1[i];
        let mut best: usize = 0;
        let mut found = false;
        let mut bestd: u64 = 0;
        let mut j: usize = 0;
        while j < n
            invariant
                pts1@.len() == pts2@.len(),
                1 <= n == pts2@.len() <= NUM_POINTS,
                all_coords_within(pts2@, UNIT as int),
                coords_within(p, UNIT as int),
                mask@.len() == n,
                0 <= j <= n,
                found == (spec_best_in_prefix(p, pts2@, mask@, j as int) >= 0),
                found ==> best == spec_best_in_prefix(p, pts2@, mask@, j as int) && best < j
                    && bestd == spec_sqr_dist(p, pts2@[best as int]),
                !found ==> best == 0 && bestd == 0,
            decreases n - j,
        {
            if mask[j] {
                let d = sqr_euclidean_distance(&p, &pts2[j]);
                if !found || d < bestd {
                    found = true;
                    best = j;
                    bestd = d;
                }
            }
            j = j + 1;
        }
        proof {
            lemma_best_in_prefix_props(p, pts2@, mask@, n as int);
            if !found {
                assert(forall|m: int| 0 <= m < n ==> !mask@[m]);
                lemma_count_true_pos(mask@);
            }
            assert(found);
            lemma_sqr_dist_bound(p, pts2@[best as int], UNIT as int);
            assert(w * bestd <= 32 * 8_388_608) by (nonlinear_arith)
                requires
                    0 <= w <= 32usize,
                    0 <= bestd <= 8_388_608u64,
            ;
        }
        let ghost old_mask = mask@;
        mask[best] = false;
        proof {
            lemma_count_true_update_false(old_mask, best as int);
            let inext: int = if i + 1 == n {
                0int
            } else {
                i as int + 1
            };
            lemma_greedy_nonneg(
                pts1@,
                pts2@,
                mask@,
                inext,
                w as int - 1,
                (n - cnt) as int - 1,
            );
            assert(spec_greedy_from(pts1@, pts2@, old_mask, i as int, w as int, (n - cnt) as int)
                == w as int * bestd + spec_greedy_from(
                pts1@,
                pts2@,
                mask@,
                inext,
                w as int - 1,
                (n - cnt) as int - 1,
            ));
        }
        sum = sum + (w as u64) * bestd;
        if sum >= min_so_far {
            proof {
                assert(sum <= total);
            }
            return sum;
        }
        w = w - 1;
        cnt = cnt + 1;
        i = if i + 1 == n {
            0
        } else {
            i + 1
        };
    }
    sum
}

/// The index the destination cloud's lookup grid yields for `p`: an
/// approximately nearest point of `dst`.
pub open spec fn spec_lut_lookup(dst: PointCloud, p: Point) -> int {
    dst.lut@[spec_lut_cell(p.int_x as int)]@[spec_lut_cell(p.int_y as int)] as int
}

/// The lower-bound distance term for source point `i`: its squared distance
/// to the destination point the lookup grid yields.
pub open spec fn spec_lb_term(src: PointCloud, dst: PointCloud, i: int) -> int {
    spec_sqr_dist(src.points@[i], dst.points@[spec_lut_lookup(dst, src.points@[i])])
}

/// Sum of the first `j` lower-bound terms.
pub open spec fn spec_d_sum(src: PointCloud, dst: PointCloud, j: int) -> int
    decreases j,
{
    if j <= 0 {
        0
    } else {
        spec_d_sum(src, dst, j - 1) + spec_lb_term(src, dst, j - 1)
    }
}

/// Partial weighted lower bound for starting offset `k`: the first `j`
/// terms, each weighted by the position weight it would carry in the greedy
/// match that starts at `k`.
pub open spec fn spec_lb_partial(src: PointCloud, dst: PointCloud, k: int, j: int) -> int
    decreases j,
{
    if j <= 0 {
        0
    } else {
        let n = src.points@.len() as int;
        spec_lb_partial(src, dst, k, j - 1) + (n - ((j - 1 - k) % n)) * spec_lb_term(
            src,
            dst,
            j - 1,
        )
    }
}

/// The lower-bound estimate for the greedy match from starting offset `k`.
pub open spec fn spec_lower_bound(src: PointCloud, dst: PointCloud, k: int) -> int {
    spec_lb_partial(src, dst, k, src.points@.len() as int)
}

pub proof fn lemma_lb_term_bound(src: PointCloud, dst: PointCloud, i: int)
    requires
        cloud_wf(src),
        cloud_wf(dst),
        0 <= i < src.points@.len(),
    ensures
        0 <= spec_lb_term(src, dst, i) <= 8_388_608,
{
    let p = src.points@[i];
    lemma_lut_cell_range(p.int_x as int);
    lemma_lut_cell_range(p.int_y as int);
    let q = dst.points@[spec_lut_lookup(dst, p)];
    lemma_sqr_dist_bound(p, q, UNIT as int);
}

pub proof fn lemma_d_sum_bound(src: PointCloud, dst: PointCloud, j: int)
    requires
        cloud_wf(src),
        cloud_wf(dst),
        0 <= j <= src.points@.len(),
    ensures
        0 <= spec_d_sum(src, dst, j) <= j * 8_388_608,
    decreases j,
{
    if j > 0 {
        lemma_d_sum_bound(src, dst, j - 1);
        lemma_lb_term_bound(src, dst, j - 1);
    }
}

pub proof fn lemma_lb_partial_nonneg(src: PointCloud, dst: PointCloud, k: int, j: int)
    requires
        src.points@.len() >= 1,
        0 <= k < src.points@.len(),
        0 <= j <= src.points@.len(),
    ensures
        spec_lb_partial(src, dst, k, j) >= 0,
    decreases j,
{
    let n = src.points@.len() as int;
    if j > 0 {
        lemma_lb_partial_nonneg(src, dst, k, j - 1);
        let p = src.points@[j - 1];
        lemma_sqr_dist_nonneg(p, dst.points@[spec_lut_lookup(dst, p)]);
        assert(0 <= (j - 1 - k) % n < n) by (nonlinear_arith)
            requires
                n > 0,
        ;
        assert((n - ((j - 1 - k) % n)) * spec_lb_term(src, dst, j - 1) >= 0) by (nonlinear_arith)
            requires
                n - ((j - 1 - k) % n) >= 1,
                spec_lb_term(src, dst, j - 1) >= 0,
        ;
    }
}

/// The prefix-sum identity behind the O(1) per-offset lower bound: the
/// weighted sum for offset `k` differs from the offset-0 sum by
/// `k * total - n * prefix(k)`.
pub proof fn lemma_lb_partial_shift(src: PointCloud, dst: PointCloud, k: int, j: int)
    requires
        src.points@.len() >= 1,
        1 <= k < src.points@.len(),
        0 <= j <= src.points@.len(),
    ensures
        j <= k ==> spec_lb_partial(src, dst, k, j) == spec_lb_partial(src, dst, 0, j) + (k
            - src.points@.len() as int) * spec_d_sum(src, dst, j),
        j > k ==> spec_lb_partial(src, dst, k, j) == spec_lb_partial(src, dst, 0, j) + k
            * spec_d_sum(src, dst, j) - src.points@.len() as int * spec_d_sum(src, dst, k),
    decreases j,
{
    let n = src.points@.len() as int;
    if j == 0 {
        assert((k - n) * spec_d_sum(src, dst, 0) == 0) by (nonlinear_arith)
            requires
                spec_d_sum(src, dst, 0) == 0,
        ;
    } else {
        lemma_lb_partial_shift(src, dst, k, j - 1);
        let d = spec_lb_term(src, dst, j - 1);
        let ds1 = spec_d_sum(src, dst, j - 1);
        vstd::arithmetic::div_mod::lemma_small_mod((j - 1) as nat, n as nat);
        if j - 1 < k {
            vstd::arithmetic::div_mod::lemma_mod_add_multiples_vanish(j - 1 - k, n);
            vstd::arithmetic::div_mod::lemma_small_mod((j - 1 - k + n) as nat, n as nat);
            assert((j - 1 - k) % n == j - 1 - k + n);
            assert((k - n) * (ds1 + d) == (k - n) * ds1 + (k - n) * d) by (nonlinear_arith);
            assert((n - (j - 1 - k + n)) * d == (n - (j - 1)) * d + (k - n) * d)
                by (nonlinear_arith);
        } else {
            vstd::arithmetic::div_mod::lemma_small_mod((j - 1 - k) as nat, n as nat);
            assert((j - 1 - k) % n == j - 1 - k);
            if j - 1 == k {
                assert(k * (ds1 + d) == k * ds1 + k * d) by (nonlinear_arith);
                assert((n - (j - 1)) * d + k * d == (n - (j - 1 - k)) * d) by (nonlinear_arith);
                assert((k - n) * ds1 == k * ds1 - n * ds1) by (nonlinear_arith);
            } else {
                assert(k * (ds1 + d) == k * ds1 + k * d) by (nonlinear_arith);
                assert((n - (j - 1)) * d + k * d == (n - (j - 1 - k)) * d) by (nonlinear_arith);
            }
        }
    }
}

/// The squared distance from source point `i` to the destination point the
/// destination's lookup grid yields for it.
fn lut_distance(src: &PointCloud, dst: &PointCloud, i: usize) -> (d: u64)
    requires
        cloud_wf(*src),
        cloud_wf(*dst),
        i < src.points@.len(),
    ensures
        d == spec_lb_term(*src, *dst, i as int),
        d <= 8_388_608,
{
    let p = src.points[i];
    proof {
        lemma_lut_cell_range(p.int_x as int);
        lemma_lut_cell_range(p.int_y as int);
        lemma_lb_term_bound(*src, *dst, i as int);
    }
    let cx = (p.int_x + LUT_SCALE_FACTOR / 2) / LUT_SCALE_FACTOR;
    let rx = if cx >= LUT_SIZE {
        LUT_SIZE - 1
    } else {
        cx
    };
    let cy = (p.int_y + LUT_SCALE_FACTOR / 2) / LUT_SCALE_FACTOR;
    let ry = if cy >= LUT_SIZE {
        LUT_SIZE - 1
    } else {
        cy
    };
    let idx = dst.lut[rx][ry];
    let q = dst.points[idx];
    sqr_euclidean_distance(&p, &q)
}

/// The per-offset lower bounds for one match direction: entry `j` is the
/// weighted lower bound for starting offset `j * step`, derived from the
/// offset-0 bound and the prefix sums in constant time per offset.
pub(crate) fn compute_lower_bound(src: &PointCloud, dst: &PointCloud, step: usize) -> (lb: Vec<
    u64,
>)
    requires
        cloud_wf(*src),
        cloud_wf(*dst),
        1 <= step <= NUM_POINTS,
    ensures
        lb@.len() == NUM_POINTS / step + 1,
        forall|jj: int|
            0 <= jj < lb@.len() && jj * step < NUM_POINTS ==> #[trigger] lb@[jj]
                == spec_lower_bound(*src, *dst, jj * step as int),
        forall|jj: int| 0 <= jj < lb@.len() ==> #[trigger] lb@[jj] <= 17_179_869_184,
{
    let n = src.points.len();
    let mut sat: Vec<u64> = Vec::new();
    let mut lb0: u64 = 0;
    let mut acc: u64 = 0;
    let mut i: usize = 0;
    while i < n
        invariant
            cloud_wf(*src),
            cloud_wf(*dst),
            n == src.points@.len() == NUM_POINTS,
            0 <= i <= n,
            acc == spec_d_sum(*src, *dst, i as int),
            acc <= 8_388_608 * (i as int),
            lb0 == spec_lb_partial(*src, *dst, 0, i as int),
            lb0 <= 268_435_456 * (i as int),
            sat@.len() == i,
            forall|m: int| 0 <= m < i ==> #[trigger] sat@[m] == spec_d_sum(*src, *dst, m + 1),
        decreases n - i,
    {
        let d = lut_distance(src, dst, i);
        acc = acc + d;
        sat.push(acc);
        proof {
            vstd::arithmetic::div_mod::lemma_small_mod(i as nat, n as nat);
            assert((n - i) as u64 * d <= 268_435_456) by (nonlinear_arith)
                requires
                    0 < (n - i) as u64 <= 32,
                    0 <= d <= 8_388_608u64,
            ;
        }
        lb0 = lb0 + (n - i) as u64 * d;
        i = i + 1;
    }
    let mut lb: Vec<u64> = Vec::new();
    lb.push(lb0);
    proof {
        assert(lb@[0] == lb0);
        assert(spec_lower_bound(*src, *dst, 0) == spec_lb_partial(*src, *dst, 0, n as int));
        assert forall|jj: int| 0 <= jj < 1 && jj * step < NUM_POINTS implies #[trigger] lb@[jj]
            == spec_lower_bound(*src, *dst, jj * step as int) by {
            assert(jj == 0);
            assert(jj * step as int == 0) by (nonlinear_arith)
                requires
                    jj == 0,
            ;
        }
    }
    let mut j: usize = 1;
    let mut off: usize = step;
    while off < n
        invariant
            cloud_wf(*src),
            cloud_wf(*dst),
            n == src.points@.len() == NUM_POINTS,
            1 <= step <= NUM_POINTS,
            1 <= j <= NUM_POINTS / step + 1,
            off == j * step,
            1 <= off,
            lb@.len() == j,
            lb0 == spec_lb_partial(*src, *dst, 0, n as int),
            lb0 <= 8_589_934_592,
            sat@.len() == n,
            forall|m: int| 0 <= m < n ==> #[trigger] sat@[m] == spec_d_sum(*src, *dst, m + 1),
            forall|jj: int|
                0 <= jj < j && jj * step < NUM_POINTS ==> #[trigger] lb@[jj] == spec_lower_bound(
                    *src,
                    *dst,
                    jj * step as int,
                ),
            forall|jj: int| 0 <= jj < j ==> #[trigger] lb@[jj] <= 17_179_869_184,
        decreases n + step - off,
    {
        let s_total = sat[n - 1];
        let sk = sat[off - 1];
        proof {
            lemma_lb_partial_shift(*src, *dst, off as int, n as int);
            lemma_lb_partial_nonneg(*src, *dst, off as int, n as int);
            lemma_d_sum_bound(*src, *dst, n as int);
            lemma_d_sum_bound(*src, *dst, off as int);
            assert(off as int * s_total <= 8_589_934_592) by (nonlinear_arith)
                requires
                    0 < off < 32usize,
                    0 <= s_total <= 268_435_456u64,
            ;
            assert(n as int * sk <= 8_589_934_592) by (nonlinear_arith)
                requires
                    n == 32usize,
                    0 <= sk <= 268_435_456u64,
            ;
            assert(s_total <= 268_435_456) by (nonlinear_arith)
                requires
                    s_total as int <= 32 * 8_388_608,
            ;
        }
        proof {
            assert(lb0 + off as int * s_total - n as int * sk == spec_lower_bound(
                *src,
                *dst,
                off as int,
            ));
        }
        let v = lb0 + (off as u64) * s_total - (n as u64) * sk;
        lb.push(v);
        proof {
            assert((j + 1) as int * step == j as int * step + step) by (nonlinear_arith);
            vstd::arithmetic::div_mod::lemma_fundamental_div_mod_converse(
                j as int * step,
                step as int,
                j as int,
                0,
            );
            vstd::arithmetic::div_mod::lemma_div_is_ordered(
                j as int * step,
                NUM_POINTS as int,
                step as int,
            );
        }
        j = j + 1;
        off = off + step;
    }
    while lb.len() < NUM_POINTS / step + 1
        invariant
            cloud_wf(*src),
            cloud_wf(*dst),
            1 <= step <= NUM_POINTS,
            1 <= j <= NUM_POINTS / step + 1,
            j == lb@.len(),
            j as int * step >= NUM_POINTS,
            forall|jj: int|
                0 <= jj < lb@.len() && jj * step < NUM_POINTS ==> #[trigger] lb@[jj]
                    == spec_lower_bound(*src, *dst, jj * step as int),
            forall|jj: int| 0 <= jj < lb@.len() ==> #[trigger] lb@[jj] <= 17_179_869_184,
        decreases NUM_POINTS / step + 1 - lb@.len(),
    {
        proof {
            vstd::arithmetic::mul::lemma_mul_inequality(j as int, j as int + 1, step as int);
        }
        lb.push(0);
        j = j + 1;
    }
    lb
}

/// The greedy match distance from cloud `src` onto cloud `dst`, starting at
/// source offset `k`.
pub open spec fn spec_dir_distance(src: PointCloud, dst: PointCloud, k: int) -> int {
    spec_cloud_distance(src.points@, dst.points@, k)
}

/// How many starting offsets `0, step, 2*step, ...` lie below `n`.
pub open spec fn spec_num_offsets(step: int, n: int) -> int {
    (n - 1) / step + 1
}

/// `acc` min'd with the greedy distances of the first `j` scanned offsets of
/// one direction.
pub open spec fn spec_scan_min(src: PointCloud, dst: PointCloud, step: int, j: int, acc: int) -> int
    decreases j,
{
    if j <= 0 {
        acc
    } else {
        let g = spec_dir_distance(src, dst, (j - 1) * step);
        let rest = spec_scan_min(src, dst, step, j - 1, acc);
        if g < rest {
            g
        } else {
            rest
        }
    }
}

/// The unpruned match result: `m` min'd with the greedy distance at every
/// scanned offset, in both directions.
pub open spec fn spec_exhaustive_min(c: PointCloud, t: PointCloud, step: int, m: int) -> int {
    let j = spec_num_offsets(step, c.points@.len() as int);
    spec_scan_min(t, c, step, j, spec_scan_min(c, t, step, j, m))
}

/// The per-offset estimates of one direction under-approximate the true
/// greedy distances there.
pub open spec fn spec_lb_valid(src: PointCloud, dst: PointCloud, step: int) -> bool {
    forall|jj: int|
        0 <= jj < spec_num_offsets(step, src.points@.len() as int) ==> spec_lower_bound(
            src,
            dst,
            #[trigger] (jj * step),
        ) <= spec_dir_distance(src, dst, jj * step)
}

/// What the scan minimum is: no larger than the accumulator or any scanned
/// distance, and equal to one of them.
pub proof fn lemma_scan_min_props(src: PointCloud, dst: PointCloud, step: int, j: int, acc: int)
    requires
        j >= 0,
    ensures
        spec_scan_min(src, dst, step, j, acc) <= acc,
        forall|i: int|
            0 <= i < j ==> spec_scan_min(src, dst, step, j, acc) <= spec_dir_distance(
                src,
                dst,
                #[trigger] (i * step),
            ),
        spec_scan_min(src, dst, step, j, acc) == acc || exists|i: int|
            0 <= i < j && spec_scan_min(src, dst, step, j, acc) == spec_dir_distance(
                src,
                dst,
                #[trigger] (i * step),
            ),
    decreases j,
{
    if j > 0 {
        lemma_scan_min_props(src, dst, step, j - 1, acc);
    }
}

/// An offset index whose offset lies below `n` lies below the offset count.
pub proof fn lemma_offset_index_bound(jj: int, step: int, n: int)
    requires
        1 <= step,
        0 <= jj,
        jj * step < n,
    ensures
        jj < spec_num_offsets(step, n),
        jj < n,
{
    vstd::arithmetic::div_mod::lemma_fundamental_div_mod_converse(jj * step, step, jj, 0);
    vstd::arithmetic::div_mod::lemma_div_is_ordered(jj * step, n - 1, step);
    assert(jj <= jj * step) by (nonlinear_arith)
        requires
            step >= 1,
            jj >= 0,
    ;
}

/// Once an offset reaches `n`, every scanned offset index has been visited.
pub proof fn lemma_offset_scan_complete(jj: int, step: int, n: int)
    requires
        1 <= step <= n,
        0 <= jj,
        jj * step >= n,
    ensures
        jj >= spec_num_offsets(step, n),
{
    if jj <= (n - 1) / step {
        vstd::arithmetic::div_mod::lemma_fundamental_div_mod(n - 1, step);
        vstd::arithmetic::div_mod::lemma_mod_pos_bound(n - 1, step);
        assert(jj * step <= ((n - 1) / step) * step) by (nonlinear_arith)
            requires
                step >= 1,
                0 <= jj <= (n - 1) / step,
        ;
        assert(((n - 1) / step) * step <= n - 1) by (nonlinear_arith)
            requires
                n - 1 == step * ((n - 1) / step) + (n - 1) % step,
                (n - 1) % step >= 0,
        ;
    }
}

/// The pruned scan of one direction, as a mathematical function: the
/// running minimum is updated at an offset exactly when that offset's
/// stated estimate is below the running minimum and the exact greedy
/// distance improves it.
pub open spec fn spec_pruned_dir(
    src: PointCloud,
    dst: PointCloud,
    step: int,
    j: int,
    acc: int,
) -> int
    decreases j,
{
    if j <= 0 {
        acc
    } else {
        let prev = spec_pruned_dir(src, dst, step, j - 1, acc);
        let g = spec_dir_distance(src, dst, (j - 1) * step);
        if spec_lower_bound(src, dst, (j - 1) * step) < prev && g < prev {
            g
        } else {
            prev
        }
    }
}

/// What the pruned match returns: both directions' pruned scans, candidate
/// against template first.
pub open spec fn spec_pruned_match(c: PointCloud, t: PointCloud, step: int, m: int) -> int {
    let j = spec_num_offsets(step, c.points@.len() as int);
    spec_pruned_dir(t, c, step, j, spec_pruned_dir(c, t, step, j, m))
}

/// The pruned scan never exceeds its seed.
pub proof fn lemma_pruned_dir_le(src: PointCloud, dst: PointCloud, step: int, j: int, acc: int)
    requires
        j >= 0,
    ensures
        spec_pruned_dir(src, dst, step, j, acc) <= acc,
    decreases j,
{
    if j > 0 {
        lemma_pruned_dir_le(src, dst, step, j - 1, acc);
    }
}

/// The pruned match never exceeds its seed.
pub proof fn lemma_pruned_match_le(c: PointCloud, t: PointCloud, step: int, m: int)
    requires
        c.points@.len() >= 1,
        step >= 1,
    ensures
        spec_pruned_match(c, t, step, m) <= m,
{
    let nof = spec_num_offsets(step, c.points@.len() as int);
    vstd::arithmetic::div_mod::lemma_div_pos_is_pos(c.points@.len() as int - 1, step);
    lemma_pruned_dir_le(c, t, step, nof, m);
    lemma_pruned_dir_le(t, c, step, nof, spec_pruned_dir(c, t, step, nof, m));
}

/// Two clouds with the same point sequence have the same scan minima, on
/// either side of the match.
pub proof fn lemma_scan_min_same_points(
    a: PointCloud,
    b: PointCloud,
    t: PointCloud,
    step: int,
    j: int,
    acc: int,
)
    requires
        a.points@ == b.points@,
    ensures
        spec_scan_min(a, t, step, j, acc) == spec_scan_min(b, t, step, j, acc),
        spec_scan_min(t, a, step, j, acc) == spec_scan_min(t, b, step, j, acc),
    decreases j,
{
    if j > 0 {
        lemma_scan_min_same_points(a, b, t, step, j - 1, acc);
    }
}

/// Two clouds with the same point sequence see the same running registry
/// minimum.
pub proof fn lemma_registry_min_same_points(
    a: PointCloud,
    b: PointCloud,
    ts: Seq<PointCloud>,
    i: int,
)
    requires
        a.points@ == b.points@,
        0 <= i <= ts.len(),
    ensures
        spec_registry_min(a, ts, i) == spec_registry_min(b, ts, i),
    decreases i,
{
    if i > 0 {
        lemma_registry_min_same_points(a, b, ts, i - 1);
        let step = sqrt_floor(NUM_POINTS as int);
        let nof = spec_num_offsets(step, a.points@.len() as int);
        let prev = spec_registry_min(a, ts, i - 1);
        lemma_scan_min_same_points(a, b, ts[i - 1], step, nof, prev);
        lemma_scan_min_same_points(
            a,
            b,
            ts[i - 1],
            step,
            nof,
            spec_scan_min(a, ts[i - 1], step, nof, prev),
        );
    }
}

/// The weighted lower bound depends only on the point sequences and on what
/// the destination's lookup grid yields.
pub proof fn lemma_lb_partial_same_views(
    src1: PointCloud,
    src2: PointCloud,
    dst1: PointCloud,
    dst2: PointCloud,
    k: int,
    j: int,
)
    requires
        src1.points@ == src2.points@,
        dst1.points@ == dst2.points@,
        forall|p: Point| spec_lut_lookup(dst1, p) == #[trigger] spec_lut_lookup(dst2, p),
    ensures
        spec_lb_partial(src1, dst1, k, j) == spec_lb_partial(src2, dst2, k, j),
    decreases j,
{
    if j > 0 {
        lemma_lb_partial_same_views(src1, src2, dst1, dst2, k, j - 1);
    }
}

/// Two clouds with the same point sequence and lookup grids that agree cell
/// by cell validate the same estimates against every template.
pub proof fn lemma_lb_valid_transfer(c1: PointCloud, c2: PointCloud, ts: Seq<PointCloud>)
    requires
        c1.points@ == c2.points@,
        c1.lut@.len() == LUT_SIZE,
        c2.lut@.len() == LUT_SIZE,
        forall|x: int|
            0 <= x < LUT_SIZE ==> (#[trigger] c1.lut@[x])@.len() == LUT_SIZE && c2.lut@[x]@.len()
                == LUT_SIZE,
        forall|x: int, y: int|
            0 <= x < LUT_SIZE && 0 <= y < LUT_SIZE ==> #[trigger] c1.lut@[x]@[y] == c2.lut@[x]@[y],
        spec_all_lb_valid(c1, ts),
    ensures
        spec_all_lb_valid(c2, ts),
{
    let step = sqrt_floor(NUM_POINTS as int);
    assert forall|p: Point| spec_lut_lookup(c1, p) == #[trigger] spec_lut_lookup(c2, p) by {
        vstd::arithmetic::div_mod::lemma_div_pos_is_pos(p.int_x as int + 8, 16);
        vstd::arithmetic::div_mod::lemma_div_pos_is_pos(p.int_y as int + 8, 16);
        assert(0 <= spec_lut_cell(p.int_x as int) < LUT_SIZE);
        assert(0 <= spec_lut_cell(p.int_y as int) < LUT_SIZE);
    }
    assert forall|i: int| 0 <= i < ts.len() implies spec_lb_valid(c2, #[trigger] ts[i], step)
        && spec_lb_valid(ts[i], c2, step) by {
        assert(spec_lb_valid(c1, ts[i], step) && spec_lb_valid(ts[i], c1, step));
        assert forall|jj: int|
            0 <= jj < spec_num_offsets(step, c2.points@.len() as int) implies spec_lower_bound(
            c2,
            ts[i],
            #[trigger] (jj * step),
        ) <= spec_dir_distance(c2, ts[i], jj * step) by {
            lemma_lb_partial_same_views(c1, c2, ts[i], ts[i], jj * step, c1.points@.len() as int);
        }
        assert forall|jj: int|
            0 <= jj < spec_num_offsets(step, ts[i].points@.len() as int) implies spec_lower_bound(
            ts[i],
            c2,
            #[trigger] (jj * step),
        ) <= spec_dir_distance(ts[i], c2, jj * step) by {
            lemma_lb_partial_same_views(
                ts[i],
                ts[i],
                c1,
                c2,
                jj * step,
                ts[i].points@.len() as int,
            );
        }
    }
}

/// Pruned matching. The result is exactly the pruned scan `spec_pruned_match`
/// of both directions; it never exceeds `min_so_far`, and is either
/// `min_so_far` or an exact greedy distance at a scanned offset; it is
/// covered at every scanned offset of both directions (below the true greedy
/// distance there, or below that offset's stated estimate); and whenever the
/// estimates are true lower bounds, the result equals the unpruned
/// exhaustive minimum — the pruning is then an optimization, not an
/// approximation.
pub fn cloud_match(candidate: &PointCloud, template: &PointCloud, min_so_far: u64) -> (r: u64)
    requires
        cloud_wf(*candidate),
        cloud_wf(*template),
    ensures
        r <= min_so_far,
        r <= 17_179_869_184,
        ({
            let step = sqrt_floor(NUM_POINTS as int);
            let nof = spec_num_offsets(step, NUM_POINTS as int);
            &&& (r == min_so_far || exists|ii: int|
                0 <= ii < nof && (r == spec_dir_distance(*candidate, *template, #[trigger] (ii * step))
                    || r == spec_dir_distance(*template, *candidate, ii * step)))
            &&& forall|ii: int|
                0 <= ii < nof ==> r <= spec_dir_distance(*candidate, *template, #[trigger] (ii * step))
                    || r <= spec_lower_bound(*candidate, *template, ii * step)
            &&& forall|ii: int|
                0 <= ii < nof ==> r <= spec_dir_distance(*template, *candidate, #[trigger] (ii * step))
                    || r <= spec_lower_bound(*template, *candidate, ii * step)
            &&& (spec_lb_valid(*candidate, *template, step) && spec_lb_valid(
                *template,
                *candidate,
                step,
            )) ==> r == spec_exhaustive_min(*candidate, *template, step, min_so_far as int)
            &&& r == spec_pruned_match(*candidate, *template, step, min_so_far as int)
        }),
{
    let n = candidate.points.len();
    let step64 = isqrt_u64(n as u64);
    proof {
        assert(step64 == 5) by (nonlinear_arith)
            requires
                step64 * step64 <= 32u64,
                32u64 < (step64 + 1) * (step64 + 1),
        ;
    }
    let step = step64 as usize;
    let ghost gstep = step as int;
    let ghost nof = spec_num_offsets(gstep, n as int);
    let lb1 = compute_lower_bound(candidate, template, step);
    let lb2 = compute_lower_bound(template, candidate, step);
    let mut min_val = min_so_far;
    let mut jj: usize = 0;
    let mut off: usize = 0;
    while off < n
        invariant
            cloud_wf(*candidate),
            cloud_wf(*template),
            n == candidate.points@.len() == template.points@.len() == NUM_POINTS,
            step == 5,
            gstep == step as int,
            nof == spec_num_offsets(gstep, n as int),
            off == jj * step,
            0 <= jj <= nof,
            lb1@.len() == NUM_POINTS / step + 1,
            forall|m: int|
                0 <= m < lb1@.len() && m * step < NUM_POINTS ==> #[trigger] lb1@[m]
                    == spec_lower_bound(*candidate, *template, m * step as int),
            min_val <= min_so_far,
            min_val == min_so_far || exists|ii: int|
                0 <= ii < nof && (min_val == spec_dir_distance(
                    *candidate,
                    *template,
                    #[trigger] (ii * gstep),
                ) || min_val == spec_dir_distance(*template, *candidate, ii * gstep)),
            forall|ii: int|
                0 <= ii < jj ==> min_val <= spec_dir_distance(
                    *candidate,
                    *template,
                    #[trigger] (ii * gstep),
                ) || min_val <= spec_lower_bound(*candidate, *template, ii * gstep),
            forall|m: int| 0 <= m < lb1@.len() ==> #[trigger] lb1@[m] <= 17_179_869_184,
            jj >= 1 ==> min_val <= 17_179_869_184,
            min_val == spec_pruned_dir(
                *candidate,
                *template,
                gstep,
                jj as int,
                min_so_far as int,
            ),
        decreases n + step - off,
    {
        proof {
            lemma_offset_index_bound(jj as int, gstep, n as int);
            vstd::arithmetic::div_mod::lemma_div_is_ordered(n as int - 1, n as int, gstep);
        }
        if lb1[jj] < min_val {
            let d = cloud_distance(&candidate.points, &template.points, off, min_val);
            if d < min_val {
                min_val = d;
            }
        }
        proof {
            assert((jj + 1) as int * step == jj as int * step + step) by (nonlinear_arith);
            assert(min_val == spec_pruned_dir(
                *candidate,
                *template,
                gstep,
                jj as int + 1,
                min_so_far as int,
            ));
        }
        jj = jj + 1;
        off = off + step;
    }
    proof {
        lemma_offset_scan_complete(jj as int, gstep, n as int);
    }
    let ghost pruned_inner = spec_pruned_dir(*candidate, *template, gstep, nof, min_so_far as int);
    proof {
        assert(min_val == pruned_inner);
    }
    let mut jj2: usize = 0;
    let mut off2: usize = 0;
    while off2 < n
        invariant
            cloud_wf(*candidate),
            cloud_wf(*template),
            n == candidate.points@.len() == template.points@.len() == NUM_POINTS,
            step == 5,
            gstep == step as int,
            nof == spec_num_offsets(gstep, n as int),
            off2 == jj2 * step,
            0 <= jj2 <= nof,
            lb2@.len() == NUM_POINTS / step + 1,
            forall|m: int|
                0 <= m < lb2@.len() && m * step < NUM_POINTS ==> #[trigger] lb2@[m]
                    == spec_lower_bound(*template, *candidate, m * step as int),
            min_val <= min_so_far,
            min_val == min_so_far || exists|ii: int|
                0 <= ii < nof && (min_val == spec_dir_distance(
                    *candidate,
                    *template,
                    #[trigger] (ii * gstep),
                ) || min_val == spec_dir_distance(*template, *candidate, ii * gstep)),
            forall|ii: int|
                0 <= ii < nof ==> min_val <= spec_dir_distance(
                    *candidate,
                    *template,
                    #[trigger] (ii * gstep),
                ) || min_val <= spec_lower_bound(*candidate, *template, ii * gstep),
            forall|ii: int|
                0 <= ii < jj2 ==> min_val <= spec_dir_distance(
                    *template,
                    *candidate,
                    #[trigger] (ii * gstep),
                ) || min_val <= spec_lower_bound(*template, *candidate, ii * gstep),
            min_val <= 17_179_869_184,
            pruned_inner == spec_pruned_dir(
                *candidate,
                *template,
                gstep,
                nof,
                min_so_far as int,
            ),
            min_val == spec_pruned_dir(*template, *candidate, gstep, jj2 as int, pruned_inner),
        decreases n + step - off2,
    {
        proof {
            lemma_offset_index_bound(jj2 as int, gstep, n as int);
            vstd::arithmetic::div_mod::lemma_div_is_ordered(n as int - 1, n as int, gstep);
        }
        if lb2[jj2] < min_val {
            let d = cloud_distance(&template.points, &candidate.points, off2, min_val);
            if d < min_val {
                min_val = d;
            }
        }
        proof {
            assert((jj2 + 1) as int * step == jj2 as int * step + step) by (nonlinear_arith);
            assert(min_val == spec_pruned_dir(
                *template,
                *candidate,
                gstep,
                jj2 as int + 1,
                pruned_inner,
            ));
        }
        jj2 = jj2 + 1;
        off2 = off2 + step;
    }
    proof {
        lemma_offset_scan_complete(jj2 as int, gstep, n as int);
        if spec_lb_valid(*candidate, *template, gstep) && spec_lb_valid(
            *template,
            *candidate,
            gstep,
        ) {
            let m = min_so_far as int;
            let inner = spec_scan_min(*candidate, *template, gstep, nof, m);
            let outer = spec_scan_min(*template, *candidate, gstep, nof, inner);
            lemma_scan_min_props(*candidate, *template, gstep, nof, m);
            lemma_scan_min_props(*template, *candidate, gstep, nof, inner);
            assert(forall|ii: int|
                0 <= ii < nof ==> min_val <= spec_dir_distance(
                    *candidate,
                    *template,
                    #[trigger] (ii * gstep),
                ) && min_val <= spec_dir_distance(*template, *candidate, ii * gstep));
            assert(min_val <= outer);
            assert(outer <= min_val);
            assert(min_val == spec_exhaustive_min(*candidate, *template, gstep, min_so_far as int));
        }
    }
    min_val
}

/// The unpruned exhaustive match: the full greedy distance is computed at
/// every scanned offset of both directions, and the result is the minimum of
/// them all and `min_so_far`.
pub fn cloud_match_exhaustive(candidate: &PointCloud, template: &PointCloud, min_so_far: u64) -> (r:
    u64)
    requires
        cloud_wf(*candidate),
        cloud_wf(*template),
    ensures
        r == spec_exhaustive_min(
            *candidate,
            *template,
            sqrt_floor(NUM_POINTS as int),
            min_so_far as int,
        ),
{
    let n = candidate.points.len();
    let step64 = isqrt_u64(n as u64);
    proof {
        assert(step64 == 5) by (nonlinear_arith)
            requires
                step64 * step64 <= 32u64,
                32u64 < (step64 + 1) * (step64 + 1),
        ;
    }
    let step = step64 as usize;
    let ghost gstep = step as int;
    let ghost nof = spec_num_offsets(gstep, n as int);
    let mut min_val = min_so_far;
    let ghost m0 = min_so_far as int;
    let mut jj: usize = 0;
    let mut off: usize = 0;
    while off < n
        invariant
            cloud_wf(*candidate),
            cloud_wf(*template),
            n == candidate.points@.len() == template.points@.len() == NUM_POINTS,
            step == 5,
            gstep == step as int,
            nof == spec_num_offsets(gstep, n as int),
            off == jj * step,
            0 <= jj <= nof,
            min_val == spec_scan_min(*candidate, *template, gstep, jj as int, m0),
        decreases n + step - off,
    {
        proof {
            lemma_offset_index_bound(jj as int, gstep, n as int);
            vstd::arithmetic::div_mod::lemma_div_is_ordered(n as int - 1, n as int, gstep);
        }
        let d = cloud_distance(&candidate.points, &template.points, off, u64::MAX);
        if d < min_val {
            min_val = d;
        }
        proof {
            assert((jj + 1) as int * step == jj as int * step + step) by (nonlinear_arith);
        }
        jj = jj + 1;
        off = off + step;
    }
    proof {
        lemma_offset_scan_complete(jj as int, gstep, n as int);
        assert(jj == nof);
    }
    let ghost inner = spec_scan_min(*candidate, *template, gstep, nof, m0);
    let mut jj2: usize = 0;
    let mut off2: usize = 0;
    while off2 < n
        invariant
            cloud_wf(*candidate),
            cloud_wf(*template),
            n == candidate.points@.len() == template.points@.len() == NUM_POINTS,
            step == 5,
            gstep == step as int,
            nof == spec_num_offsets(gstep, n as int),
            off2 == jj2 * step,
            0 <= jj2 <= nof,
            inner == spec_scan_min(*candidate, *template, gstep, nof, m0),
            min_val == spec_scan_min(*template, *candidate, gstep, jj2 as int, inner),
        decreases n + step - off2,
    {
        proof {
            lemma_offset_index_bound(jj2 as int, gstep, n as int);
            vstd::arithmetic::div_mod::lemma_div_is_ordered(n as int - 1, n as int, gstep);
        }
        let d = cloud_distance(&template.points, &candidate.points, off2, u64::MAX);
        if d < min_val {
            min_val = d;
        }
        proof {
            assert((jj2 + 1) as int * step == jj2 as int * step + step) by (nonlinear_arith);
        }
        jj2 = jj2 + 1;
        off2 = off2 + step;
    }
    proof {
        lemma_offset_scan_complete(jj2 as int, gstep, n as int);
        assert(jj2 == nof);
    }
    min_val
}

/// The running best distance after matching the candidate against the
/// first `i` templates, seeded at the largest distance and threaded through
/// the pruned match of each template in turn.
pub open spec fn spec_registry_min(cand: PointCloud, ts: Seq<PointCloud>, i: int) -> int
    decreases i,
{
    if i <= 0 {
        u64::MAX as int
    } else {
        spec_exhaustive_min(
            cand,
            ts[i - 1],
            sqrt_floor(NUM_POINTS as int),
            spec_registry_min(cand, ts, i - 1),
        )
    }
}

/// The exhaustive minimum never exceeds its seed.
pub proof fn lemma_exhaustive_min_le(c: PointCloud, t: PointCloud, step: int, m: int)
    requires
        step >= 1,
        c.points@.len() >= 1,
    ensures
        spec_exhaustive_min(c, t, step, m) <= m,
{
    let nof = spec_num_offsets(step, c.points@.len() as int);
    vstd::arithmetic::div_mod::lemma_div_pos_is_pos(c.points@.len() as int - 1, step);
    lemma_scan_min_props(c, t, step, nof, m);
    lemma_scan_min_props(t, c, step, nof, spec_scan_min(c, t, step, nof, m));
}

/// The running registry minimum never increases along the scan.
pub proof fn lemma_registry_min_mono(cand: PointCloud, ts: Seq<PointCloud>, a: int, b: int)
    requires
        0 <= a <= b <= ts.len(),
        cand.points@.len() == NUM_POINTS,
        forall|i: int| 0 <= i < ts.len() ==> (#[trigger] ts[i]).points@.len() == NUM_POINTS,
    ensures
        spec_registry_min(cand, ts, a) >= spec_registry_min(cand, ts, b),
    decreases b,
{
    if a < b {
        lemma_registry_min_mono(cand, ts, a, b - 1);
        lemma_sqrt_floor_bounds(NUM_POINTS as int);
        assert(sqrt_floor(NUM_POINTS as int) >= 1) by (nonlinear_arith)
            requires
                32 < (sqrt_floor(32) + 1) * (sqrt_floor(32) + 1),
                sqrt_floor(32) >= 0,
        ;
        lemma_exhaustive_min_le(
            cand,
            ts[b - 1],
            sqrt_floor(NUM_POINTS as int),
            spec_registry_min(cand, ts, b - 1),
        );
    }
}

/// The running best distance of the pruned scan over the registry: the
/// pruned match of each template in registration order, threading the best
/// so far, seeded at the largest distance.
pub open spec fn spec_registry_pruned(cand: PointCloud, ts: Seq<PointCloud>, i: int) -> int
    decreases i,
{
    if i <= 0 {
        u64::MAX as int
    } else {
        spec_pruned_match(
            cand,
            ts[i - 1],
            sqrt_floor(NUM_POINTS as int),
            spec_registry_pruned(cand, ts, i - 1),
        )
    }
}

/// The running pruned registry minimum never increases along the scan.
pub proof fn lemma_registry_pruned_mono(cand: PointCloud, ts: Seq<PointCloud>, a: int, b: int)
    requires
        0 <= a <= b <= ts.len(),
        cand.points@.len() == NUM_POINTS,
    ensures
        spec_registry_pruned(cand, ts, a) >= spec_registry_pruned(cand, ts, b),
    decreases b,
{
    if a < b {
        lemma_registry_pruned_mono(cand, ts, a, b - 1);
        lemma_sqrt_floor_bounds(NUM_POINTS as int);
        assert(sqrt_floor(NUM_POINTS as int) >= 1) by (nonlinear_arith)
            requires
                32 < (sqrt_floor(32) + 1) * (sqrt_floor(32) + 1),
                sqrt_floor(32) >= 0,
        ;
        lemma_pruned_match_le(
            cand,
            ts[b - 1],
            sqrt_floor(NUM_POINTS as int),
            spec_registry_pruned(cand, ts, b - 1),
        );
    }
}

/// Lookup grids of the same dimensions that agree cell by cell yield the
/// same index for every point.
pub proof fn lemma_lut_lookup_agree(c1: PointCloud, c2: PointCloud)
    requires
        c1.lut@.len() == LUT_SIZE,
        c2.lut@.len() == LUT_SIZE,
        forall|x: int|
            0 <= x < LUT_SIZE ==> (#[trigger] c1.lut@[x])@.len() == LUT_SIZE && c2.lut@[x]@.len()
                == LUT_SIZE,
        forall|x: int, y: int|
            0 <= x < LUT_SIZE && 0 <= y < LUT_SIZE ==> #[trigger] c1.lut@[x]@[y] == c2.lut@[x]@[y],
    ensures
        forall|p: Point| spec_lut_lookup(c1, p) == #[trigger] spec_lut_lookup(c2, p),
{
    assert forall|p: Point| spec_lut_lookup(c1, p) == #[trigger] spec_lut_lookup(c2, p) by {
        vstd::arithmetic::div_mod::lemma_div_pos_is_pos(p.int_x as int + 8, 16);
        vstd::arithmetic::div_mod::lemma_div_pos_is_pos(p.int_y as int + 8, 16);
        assert(0 <= spec_lut_cell(p.int_x as int) < LUT_SIZE);
        assert(0 <= spec_lut_cell(p.int_y as int) < LUT_SIZE);
    }
}

/// The pruned scan of a direction depends only on the point sequences and
/// on what the varied cloud's lookup grid yields.
pub proof fn lemma_pruned_dir_same_views(
    a: PointCloud,
    b: PointCloud,
    t: PointCloud,
    step: int,
    j: int,
    acc: int,
)
    requires
        a.points@ == b.points@,
        forall|p: Point| spec_lut_lookup(a, p) == #[trigger] spec_lut_lookup(b, p),
    ensures
        spec_pruned_dir(a, t, step, j, acc) == spec_pruned_dir(b, t, step, j, acc),
        spec_pruned_dir(t, a, step, j, acc) == spec_pruned_dir(t, b, step, j, acc),
    decreases j,
{
    if j > 0 {
        lemma_pruned_dir_same_views(a, b, t, step, j - 1, acc);
        lemma_lb_partial_same_views(a, b, t, t, (j - 1) * step, a.points@.len() as int);
        lemma_lb_partial_same_views(t, t, a, b, (j - 1) * step, t.points@.len() as int);
    }
}

/// The pruned registry scan is the same for two candidate clouds with equal
/// points and agreeing lookup grids.
pub proof fn lemma_registry_pruned_same_views(
    a: PointCloud,
    b: PointCloud,
    ts: Seq<PointCloud>,
    i: int,
)
    requires
        a.points@ == b.points@,
        forall|p: Point| spec_lut_lookup(a, p) == #[trigger] spec_lut_lookup(b, p),
        0 <= i <= ts.len(),
    ensures
        spec_registry_pruned(a, ts, i) == spec_registry_pruned(b, ts, i),
    decreases i,
{
    if i > 0 {
        lemma_registry_pruned_same_views(a, b, ts, i - 1);
        let step = sqrt_floor(NUM_POINTS as int);
        let nofa = spec_num_offsets(step, a.points@.len() as int);
        let prev = spec_registry_pruned(a, ts, i - 1);
        lemma_pruned_dir_same_views(a, b, ts[i - 1], step, nofa, prev);
        lemma_pruned_dir_same_views(
            a,
            b,
            ts[i - 1],
            step,
            nofa,
            spec_pruned_dir(a, ts[i - 1], step, nofa, prev),
        );
    }
}

/// Every template's estimates are true lower bounds against the candidate,
/// in both match directions.
pub open spec fn spec_all_lb_valid(cand: PointCloud, ts: Seq<PointCloud>) -> bool {
    forall|i: int|
        0 <= i < ts.len() ==> spec_lb_valid(cand, #[trigger] ts[i], sqrt_floor(NUM_POINTS as int))
            && spec_lb_valid(ts[i], cand, sqrt_floor(NUM_POINTS as int))
}

/// Scan every template in registration order, pruning each pruned match
/// with the best distance so far. Returns the index of the winning template
/// and the final best distance: always exactly the running pruned registry
/// scan `spec_registry_pruned`, with the index the first template attaining
/// it; whenever the per-offset estimates are true lower bounds throughout,
/// that scan coincides with the running unpruned registry minimum.
pub fn best_match(cand: &PointCloud, templates: &Vec<PointCloud>) -> (r: (usize, u64))
    requires
        cloud_wf(*cand),
        forall|i: int| 0 <= i < templates@.len() ==> cloud_wf(#[trigger] templates@[i]),
        1 <= templates@.len(),
    ensures
        r.0 < templates@.len(),
        r.1 <= 17_179_869_184,
        r.1 == spec_registry_pruned(*cand, templates@, templates@.len() as int),
        r.1 == spec_registry_pruned(*cand, templates@, r.0 + 1),
        forall|m: int| 0 <= m <= r.0 ==> spec_registry_pruned(*cand, templates@, m) > r.1,
        spec_all_lb_valid(*cand, templates@) ==> {
            &&& r.1 == spec_registry_min(*cand, templates@, templates@.len() as int)
            &&& r.1 == spec_registry_min(*cand, templates@, r.0 + 1)
            &&& forall|m: int|
                0 <= m <= r.0 ==> spec_registry_min(*cand, templates@, m) > r.1
        },
{
    let mut best_distance: u64 = u64::MAX;
    let mut best_template: usize = 0;
    let mut i: usize = 0;
    while i < templates.len()
        invariant
            cloud_wf(*cand),
            forall|k: int| 0 <= k < templates@.len() ==> cloud_wf(#[trigger] templates@[k]),
            1 <= templates@.len(),
            0 <= i <= templates@.len(),
            best_template < templates@.len(),
            i >= 1 ==> best_distance <= 17_179_869_184,
            best_distance == spec_registry_pruned(*cand, templates@, i as int),
            i >= 1 ==> best_template < i && best_distance == spec_registry_pruned(
                *cand,
                templates@,
                best_template + 1,
            ) && forall|m: int|
                0 <= m <= best_template ==> spec_registry_pruned(*cand, templates@, m)
                    > best_distance,
            spec_all_lb_valid(*cand, templates@) ==> {
                &&& best_distance == spec_registry_min(*cand, templates@, i as int)
                &&& (i >= 1 ==> best_template < i && best_distance == spec_registry_min(
                    *cand,
                    templates@,
                    best_template + 1,
                ) && forall|m: int|
                    0 <= m <= best_template ==> spec_registry_min(*cand, templates@, m)
                        > best_distance)
            },
        decreases templates@.len() - i,
    {
        let dist = cloud_match(cand, &templates[i], best_distance);
        proof {
            assert(dist == spec_pruned_match(
                *cand,
                templates@[i as int],
                sqrt_floor(NUM_POINTS as int),
                best_distance as int,
            ));
            lemma_sqrt_floor_bounds(NUM_POINTS as int);
            assert(sqrt_floor(NUM_POINTS as int) >= 1) by (nonlinear_arith)
                requires
                    32 < (sqrt_floor(32) + 1) * (sqrt_floor(32) + 1),
                    sqrt_floor(32) >= 0,
            ;
            lemma_pruned_match_le(
                *cand,
                templates@[i as int],
                sqrt_floor(NUM_POINTS as int),
                best_distance as int,
            );
            assert forall|m: int| 0 <= m <= i implies spec_registry_pruned(*cand, templates@, m)
                >= spec_registry_pruned(*cand, templates@, i as int) by {
                lemma_registry_pruned_mono(*cand, templates@, m, i as int);
            }
            if spec_all_lb_valid(*cand, templates@) {
                lemma_registry_min_mono(*cand, templates@, 0, i as int);
                assert forall|m: int| 0 <= m <= i implies spec_registry_min(*cand, templates@, m)
                    >= spec_registry_min(*cand, templates@, i as int) by {
                    lemma_registry_min_mono(*cand, templates@, m, i as int);
                }
            }
        }
        if dist < best_distance {
            best_distance = dist;
            best_template = i;
        }
        i = i + 1;
    }
    (best_template, best_distance)
}

/// A mask of pushed `true`s counts its whole length.
pub proof fn lemma_count_true_all(mask: Seq<bool>)
    requires
        forall|m: int| 0 <= m < mask.len() ==> #[trigger] mask[m],
    ensures
        spec_count_true(mask) == mask.len(),
    decreases mask.len(),
{
    if mask.len() > 0 {
        lemma_count_true_all(mask.drop_last());
    }
}

} // verus!
