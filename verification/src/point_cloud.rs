//! The normalized, fixed-size, quantized representation of one gesture.

use crate::point::{coords_within, Point};
use crate::arith::lemma_div_range;
use crate::utils::{
    all_coords_within, compute_lut, lemma_bbox_bounds, lemma_sum_pointwise_eq, lemma_sum_x_bounds,
    lemma_sum_y_bounds, make_int_coords, resample, scale, spec_bbox_size, spec_min_x, spec_min_y,
    spec_path_len,
    spec_cell_dist, spec_centroid_x, spec_centroid_y, spec_cloud_points, spec_is_cloud_of,
    spec_origin, spec_quantize, spec_sum_x, spec_sum_y, translate_to, COORD_LIMIT, LUT_SIZE,
    MAX_INT_COORD, MAX_RAW_POINTS, NUM_POINTS, UNIT,
};
use vstd::prelude::*;

verus! {

/// One gesture instance after normalization: exactly `NUM_POINTS` points,
/// scale- and position-normalized, quantized, with the lookup grid built.
pub struct PointCloud {
    pub name: String,
    pub points: Vec<Point>,
    pub lut: Vec<Vec<usize>>,
}

/// Well-formedness of a normalized cloud: the fixed point count, coordinates
/// within `[-UNIT, UNIT]`, grid coordinates on the quantized grid, and a
/// `LUT_SIZE x LUT_SIZE` lookup grid whose entries index the cloud's points.
pub open spec fn cloud_wf(c: PointCloud) -> bool {
    &&& c.points@.len() == NUM_POINTS
    &&& forall|i: int|
        0 <= i < c.points@.len() ==> coords_within(#[trigger] c.points@[i], UNIT as int)
            && c.points@[i].int_x <= MAX_INT_COORD - 1 && c.points@[i].int_y <= MAX_INT_COORD - 1
    &&& c.lut@.len() == LUT_SIZE
    &&& forall|x: int| 0 <= x < LUT_SIZE ==> (#[trigger] c.lut@[x])@.len() == LUT_SIZE
    &&& forall|x: int, y: int|
        0 <= x < LUT_SIZE && 0 <= y < LUT_SIZE ==> (#[trigger] c.lut@[x]@[y]) < c.points@.len()
}

/// A raw gesture the pipeline accepts: at least two points, coordinates
/// within `COORD_LIMIT`, and enough path length to cut `NUM_POINTS - 1`
/// intervals of at least one tick each.
pub open spec fn raw_gesture_ok(s: Seq<Point>) -> bool {
    &&& 2 <= s.len() <= MAX_RAW_POINTS
    &&& all_coords_within(s, COORD_LIMIT as int)
    &&& spec_path_len(s) >= NUM_POINTS - 1
}

impl PointCloud {
    /// Build a normalized cloud from raw points: resample, scale, translate
    /// the centroid to the origin, quantize, and compute the lookup grid.
    /// The resulting cloud is centered on the origin, its grid coordinates
    /// quantize its fixed-point coordinates, and each lookup cell holds the
    /// index of the point whose projected cell is nearest, earliest on
    /// ties.
    pub fn new(name: String, points: Vec<Point>) -> (r: PointCloud)
        requires
            raw_gesture_ok(points@),
        ensures
            r.name@ == name@,
            cloud_wf(r),
            spec_is_cloud_of(r, points@),
            spec_centroid_x(r.points@) == 0,
            spec_centroid_y(r.points@) == 0,
            forall|i: int|
                0 <= i < r.points@.len() ==> (#[trigger] r.points@[i]).int_x == spec_quantize(
                    r.points@[i].x as int,
                ) && r.points@[i].int_y == spec_quantize(r.points@[i].y as int),
            forall|x: int, y: int, k: int|
                0 <= x < LUT_SIZE && 0 <= y < LUT_SIZE && 0 <= k < r.points@.len()
                    ==> spec_cell_dist(r.points@[#[trigger] r.lut@[x]@[y] as int], x, y)
                    <= spec_cell_dist(#[trigger] r.points@[k], x, y),
            forall|x: int, y: int, k: int|
                0 <= x < LUT_SIZE && 0 <= y < LUT_SIZE && 0 <= k < r.lut@[x]@[y]
                    ==> spec_cell_dist(#[trigger] r.points@[k], x, y)
                    > spec_cell_dist(r.points@[#[trigger] r.lut@[x]@[y] as int], x, y),
    {
        let resampled = resample(&points, NUM_POINTS);
        let scaled = scale(&resampled);
        let origin = Point::new(0, 0, 0);
        let translated = translate_to(&scaled, &origin);
        proof {
            if spec_bbox_size(resampled@) > 0 {
                lemma_sum_x_bounds(scaled@, 0, UNIT as int);
                lemma_sum_y_bounds(scaled@, 0, UNIT as int);
                lemma_div_range(spec_sum_x(scaled@), 0, UNIT as int, scaled@.len() as int);
                lemma_div_range(spec_sum_y(scaled@), 0, UNIT as int, scaled@.len() as int);
            } else {
                lemma_bbox_bounds(resampled@);
                let v = spec_min_x(resampled@);
                let w = spec_min_y(resampled@);
                assert(forall|i: int|
                    0 <= i < scaled@.len() ==> (#[trigger] scaled@[i]).x == v && scaled@[i].y
                        == w);
                lemma_sum_x_bounds(scaled@, v, v);
                lemma_sum_y_bounds(scaled@, w, w);
                assert(spec_sum_x(scaled@) == v * scaled@.len() as int) by (nonlinear_arith)
                    requires
                        spec_sum_x(scaled@) == scaled@.len() as int * v,
                ;
                assert(spec_sum_y(scaled@) == w * scaled@.len() as int) by (nonlinear_arith)
                    requires
                        spec_sum_y(scaled@) == scaled@.len() as int * w,
                ;
                vstd::arithmetic::div_mod::lemma_fundamental_div_mod_converse(
                    spec_sum_x(scaled@),
                    scaled@.len() as int,
                    v,
                    0,
                );
                vstd::arithmetic::div_mod::lemma_fundamental_div_mod_converse(
                    spec_sum_y(scaled@),
                    scaled@.len() as int,
                    w,
                    0,
                );
            }
            assert(all_coords_within(translated@, UNIT as int));
            assert(origin == spec_origin());
        }
        let pts = make_int_coords(&translated);
        proof {
            lemma_sum_pointwise_eq(pts@, translated@);
            assert(pts@ == spec_cloud_points(points@));
        }
        let lut = compute_lut(&pts);
        PointCloud { name, points: pts, lut }
    }
}

} // verus!
