// Recognizer registry and end-to-end recognition. Coordinates are in
// fixed-point ticks: 1000 ticks stand for one drawing unit.

use qdollar::qdollar::SCORE_SCALE;
use qdollar::Point;
use qdollar::QDollarError;
use qdollar::QDollarRecognizer;

fn square_points() -> Vec<Point> {
    vec![
        Point::new(0, 0, 1),
        Point::new(0, 1000, 1),
        Point::new(1000, 1000, 1),
        Point::new(1000, 0, 1),
        Point::new(0, 0, 1),
    ]
}

fn triangle_points() -> Vec<Point> {
    vec![
        Point::new(0, 0, 1),
        Point::new(500, 1000, 1),
        Point::new(1000, 0, 1),
        Point::new(0, 0, 1),
    ]
}

#[test]
fn test_add_and_recognize_gesture() {
    let mut recognizer = QDollarRecognizer::new();

    let square_points = square_points();
    recognizer.add_gesture("square".to_string(), square_points.clone());

    let result = recognizer.recognize(&square_points).unwrap();
    assert_eq!(result.name, "square");
    assert!(result.score > SCORE_SCALE * 9 / 10);
}

#[test]
fn test_recognize_no_registered_gestures() {
    let recognizer = QDollarRecognizer::new();
    let points = vec![
        Point::new(0, 0, 1),
        Point::new(1000, 0, 1),
        Point::new(1000, 1000, 1),
        Point::new(0, 1000, 1),
    ];

    let result = recognizer.recognize(&points);
    assert!(result.is_err());
    assert_eq!(result.unwrap_err(), QDollarError::NoRegisteredGestures);
}

#[test]
fn test_recognize_multiple_gestures() {
    let mut recognizer = QDollarRecognizer::new();

    let square_points = square_points();
    recognizer.add_gesture("square".to_string(), square_points.clone());

    let triangle_points = triangle_points();
    recognizer.add_gesture("triangle".to_string(), triangle_points.clone());

    let result_square = recognizer.recognize(&square_points).unwrap();
    assert_eq!(result_square.name, "square");
    assert!(result_square.score > SCORE_SCALE * 9 / 10);

    let result_triangle = recognizer.recognize(&triangle_points).unwrap();
    assert_eq!(result_triangle.name, "triangle");
    assert!(result_triangle.score > SCORE_SCALE * 9 / 10);
}

#[test]
fn test_add_and_delete_gesture() {
    let mut recognizer = QDollarRecognizer::new();

    let circle_points = square_points();
    let num_gestures = recognizer.add_gesture("circle".to_string(), circle_points.clone());
    assert_eq!(num_gestures, 1);

    let result = recognizer.recognize(&circle_points).unwrap();
    assert_eq!(result.name, "circle");
    assert!(result.score > SCORE_SCALE * 9 / 10);

    let num_gestures = recognizer.delete_user_gestures();
    assert_eq!(num_gestures, 0);
}

#[test]
fn test_delete_resets_registry_and_recognize_fails() {
    let mut recognizer = QDollarRecognizer::new();
    let square = square_points();
    recognizer.add_gesture("square".to_string(), square.clone());
    recognizer.add_gesture("again".to_string(), square.clone());

    assert_eq!(recognizer.delete_user_gestures(), 0);
    let result = recognizer.recognize(&square);
    assert_eq!(result.unwrap_err(), QDollarError::NoRegisteredGestures);

    recognizer.add_gesture("square".to_string(), square.clone());
    assert!(recognizer.recognize(&square).is_ok());
}

#[test]
fn test_error_message() {
    let err = QDollarError::NoRegisteredGestures;
    assert_eq!(err.message(), "No gestures registered for recognition");
}
