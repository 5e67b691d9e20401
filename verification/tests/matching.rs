// The matching engine: pruned matching, its unpruned counterpart, the
// lookup grid, and the score formula.

use qdollar::qdollar::{score_for_distance, SCORE_SCALE, UNIT_SQ};
use qdollar::utils;
use qdollar::Point;
use qdollar::PointCloud;

fn square(offset: i64) -> Vec<Point> {
    vec![
        Point::new(offset, offset, 1),
        Point::new(offset, 1000 - offset, 1),
        Point::new(1000 - offset, 1000 - offset, 1),
        Point::new(1000 - offset, offset, 1),
        Point::new(offset, offset, 1),
    ]
}

fn triangle() -> Vec<Point> {
    vec![
        Point::new(0, 0, 1),
        Point::new(500, 1000, 1),
        Point::new(1000, 0, 1),
        Point::new(0, 0, 1),
    ]
}

#[test]
fn test_cloud_match() {
    let points1 = square(0);
    let points2 = square(100);
    let template = PointCloud::new("test".to_string(), points1);
    let candidate = PointCloud::new("test".to_string(), points2);

    let distance = utils::cloud_match(&candidate, &template, u64::MAX);
    // A perturbed square still matches its template within a tenth of a
    // squared unit of unnormalized distance.
    assert!(distance < UNIT_SQ / 10);
}

#[test]
fn test_pruned_match_equals_exhaustive() {
    let sq = PointCloud::new("square".to_string(), square(0));
    let tri = PointCloud::new("triangle".to_string(), triangle());
    let sq_shift = PointCloud::new("shifted".to_string(), square(100));

    let pairs = vec![(&sq, &tri), (&sq, &sq_shift), (&tri, &sq_shift)];
    for (a, b) in pairs {
        let pruned = utils::cloud_match(a, b, u64::MAX);
        let exhaustive = utils::cloud_match_exhaustive(a, b, u64::MAX);
        assert_eq!(pruned, exhaustive);
    }
}

#[test]
fn test_cloud_match_never_worse_than_bound() {
    let sq = PointCloud::new("square".to_string(), square(0));
    let tri = PointCloud::new("triangle".to_string(), triangle());
    let bound: u64 = 1;
    let result = utils::cloud_match(&sq, &tri, bound);
    assert!(result <= bound);
}

#[test]
fn test_compute_lut_picks_nearest_point() {
    // Two points on opposite grid corners after quantization.
    let mut near = Point::new(0, 0, 1);
    near.int_x = 0;
    near.int_y = 0;
    let mut far = Point::new(0, 0, 1);
    far.int_x = utils::MAX_INT_COORD - 1;
    far.int_y = utils::MAX_INT_COORD - 1;
    let points = vec![near, far];

    let lut = utils::compute_lut(&points);
    assert_eq!(lut.len(), utils::LUT_SIZE);
    assert!(lut.iter().all(|row| row.len() == utils::LUT_SIZE));
    assert_eq!(lut[0][0], 0);
    assert_eq!(lut[utils::LUT_SIZE - 1][utils::LUT_SIZE - 1], 1);
}

#[test]
fn test_score_formula() {
    // Up to one squared unit the score is perfect.
    assert_eq!(score_for_distance(0), SCORE_SCALE);
    assert_eq!(score_for_distance(UNIT_SQ), SCORE_SCALE);
    // Beyond it the score decays as SCORE_SCALE * UNIT_SQ / d.
    assert_eq!(score_for_distance(2 * UNIT_SQ), SCORE_SCALE / 2);
    assert_eq!(score_for_distance(4 * UNIT_SQ), SCORE_SCALE / 4);
    // Far distances score low but never zero.
    assert!(score_for_distance(17_179_869_184) > 0);
}
