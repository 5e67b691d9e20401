// The normalization pipeline: resampling, scaling, translation,
// quantization, and the basic geometry helpers. Coordinates are fixed-point
// ticks, 1000 ticks per drawing unit.

use qdollar::utils;
use qdollar::Point;

#[test]
fn test_utils_resample() {
    // Square path
    let square_points = vec![
        Point::new(0, 0, 1),
        Point::new(0, 1000, 1),
        Point::new(1000, 1000, 1),
        Point::new(1000, 0, 1),
        Point::new(0, 0, 1),
    ];

    // Triangle path
    let triangle_points = vec![
        Point::new(0, 0, 2),
        Point::new(500, 1000, 2),
        Point::new(1000, 0, 2),
        Point::new(0, 0, 2),
    ];

    // Complex path
    let complex_points = vec![
        Point::new(0, 0, 3),
        Point::new(0, 1000, 3),
        Point::new(500, 1000, 3),
        Point::new(500, 500, 3),
        Point::new(1000, 500, 3),
        Point::new(1000, 0, 3),
        Point::new(0, 0, 3),
    ];

    let shapes = vec![
        ("square", square_points),
        ("triangle", triangle_points),
        ("complex", complex_points),
    ];

    for (shape_name, points) in shapes {
        let resampled_points = utils::resample(&points, utils::NUM_POINTS);

        // Check that the resampled points have the correct length
        assert_eq!(resampled_points.len(), utils::NUM_POINTS, "shape {}", shape_name);

        // Check that the first point matches the original first point
        assert_eq!(resampled_points[0], points[0]);

        // Check that the last point matches the original last point or lies
        // within a small threshold (integer truncation can lose up to one
        // tick per interval along the walk)
        let last_point_threshold: i64 = 32;
        let last_resampled_point = &resampled_points[resampled_points.len() - 1];
        let last_original_point = &points[points.len() - 1];
        assert!(
            *last_resampled_point == *last_original_point
                || (last_resampled_point.x - last_original_point.x).abs() < last_point_threshold
                    && (last_resampled_point.y - last_original_point.y).abs()
                        < last_point_threshold,
            "last resampled point differs by more than the threshold for {}",
            shape_name
        );

        // Consecutive resampled points should sit within half an ideal
        // interval of the expected spacing
        let path_length = utils::path_length(&points);
        let expected_interval = (path_length / (resampled_points.len() as u64 - 1)) as i64;
        let max_deviation = expected_interval / 2;

        let mut prev_point = resampled_points[0];
        for point in &resampled_points[1..] {
            let dist = utils::euclidean_distance(&prev_point, point) as i64;
            assert!(
                (dist - expected_interval).abs() < max_deviation,
                "Distance between consecutive points should be within the allowed deviation"
            );
            prev_point = *point;
        }
    }
}

#[test]
fn test_resample_multistroke_keeps_count() {
    // Two strokes; the gap between them carries no path length.
    let points = vec![
        Point::new(0, 0, 1),
        Point::new(1000, 0, 1),
        Point::new(0, 500, 2),
        Point::new(1000, 500, 2),
    ];
    let resampled = utils::resample(&points, utils::NUM_POINTS);
    assert_eq!(resampled.len(), utils::NUM_POINTS);
    assert_eq!(resampled[0], points[0]);
}

#[test]
fn test_utils_scale() {
    let points = vec![
        Point::new(0, 0, 1),
        Point::new(10000, 0, 1),
        Point::new(10000, 10000, 1),
        Point::new(0, 10000, 1),
        Point::new(0, 0, 1),
    ];

    let scaled_points = utils::scale(&points);

    assert!(scaled_points.iter().all(|pt| pt.x >= 0 && pt.x <= utils::UNIT));
    assert!(scaled_points.iter().all(|pt| pt.y >= 0 && pt.y <= utils::UNIT));
}

#[test]
fn test_scale_degenerate_box_keeps_points() {
    let points = vec![Point::new(700, 700, 1), Point::new(700, 700, 1)];
    let scaled = utils::scale(&points);
    assert_eq!(scaled.len(), 2);
    assert!(scaled.iter().all(|pt| pt.x == 700 && pt.y == 700));
}

#[test]
fn test_utils_translate_to() {
    let point_sets = vec![
        // Square shape
        vec![
            Point::new(0, 0, 1),
            Point::new(1000, 0, 1),
            Point::new(1000, 1000, 1),
            Point::new(0, 1000, 1),
            Point::new(0, 0, 1),
        ],
        // Triangle shape
        vec![
            Point::new(0, 0, 1),
            Point::new(1000, 0, 1),
            Point::new(500, 1000, 1),
            Point::new(0, 0, 1),
        ],
        // Random points
        vec![
            Point::new(300, 700, 1),
            Point::new(100, 200, 1),
            Point::new(900, 400, 1),
            Point::new(600, 800, 1),
        ],
    ];

    let target_point = Point::new(1000, 1000, 0);

    for points in &point_sets {
        let translated_points = utils::translate_to(points, &target_point);
        let centroid = utils::centroid(&translated_points);
        // Floor division makes the translated centroid land exactly on the
        // target.
        assert_eq!(centroid.x, target_point.x);
        assert_eq!(centroid.y, target_point.y);
    }
}

#[test]
fn test_centroid() {
    let points = vec![
        Point::new(0, 0, 1),
        Point::new(0, 1000, 1),
        Point::new(1000, 1000, 1),
        Point::new(1000, 0, 1),
    ];

    let centroid = utils::centroid(&points);
    assert_eq!(centroid.x, 500);
    assert_eq!(centroid.y, 500);
}

#[test]
fn test_euclidean_distance() {
    let point1 = Point::new(0, 0, 1);
    let point2 = Point::new(3000, 4000, 1);

    let distance = utils::euclidean_distance(&point1, &point2);
    assert_eq!(distance, 5000);
}

#[test]
fn test_sqr_euclidean_distance() {
    let point1 = Point::new(-1000, 2000, 1);
    let point2 = Point::new(2000, 6000, 1);
    assert_eq!(utils::sqr_euclidean_distance(&point1, &point2), 25_000_000);
}

#[test]
fn test_path_length_skips_stroke_boundaries() {
    let same_stroke = vec![Point::new(0, 0, 1), Point::new(3000, 4000, 1)];
    assert_eq!(utils::path_length(&same_stroke), 5000);

    let two_strokes = vec![Point::new(0, 0, 1), Point::new(3000, 4000, 2)];
    assert_eq!(utils::path_length(&two_strokes), 0);
}

#[test]
fn test_make_int_coords_quantizes_onto_grid() {
    let points = vec![
        Point::new(-utils::UNIT, 0, 1),
        Point::new(0, 17, 1),
        Point::new(utils::UNIT, -utils::UNIT, 1),
    ];
    let quantized = utils::make_int_coords(&points);
    // round((v + UNIT) / (2 * UNIT) * (MAX_INT_COORD - 1))
    assert_eq!(quantized[0].int_x, 0);
    assert_eq!(quantized[1].int_x, 512);
    assert_eq!(quantized[2].int_x, utils::MAX_INT_COORD - 1);
    assert_eq!(quantized[2].int_y, 0);
    // x, y and stroke ids are untouched
    assert_eq!(quantized[1].x, 0);
    assert_eq!(quantized[1].y, 17);
    assert_eq!(quantized[1].id, 1);
}
