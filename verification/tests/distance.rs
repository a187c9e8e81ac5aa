use lsph::{Distance, Euclidean, Manhattan, NearestNeighborState, Point};

fn assert_delta(x: f64, y: f64, delta: f64) {
    assert!((x - y).abs() <= delta, "{} is not within {} of {}", x, delta, y);
}

// The Euclidean measure is given by its square.
#[test]
fn distance_test_euclidean_f32() {
    let a = Point::new(0, 0, 0);
    let b = Point::new(0, 1, 1);
    let d = Euclidean::distance_point(&a, &b);
    assert_delta((d as f32).sqrt() as f64, 1.4142135, 0.00001);
}

#[test]
fn distance_test_euclidean_f64() {
    let a = Point::new(0, 0, 0);
    let b = Point::new(0, 1, 1);
    let d = Euclidean::distance_point(&a, &b);
    assert_delta((d as f64).sqrt(), 1.4142135, 0.00001);
}

#[test]
fn distance_test_manhattan_f32() {
    let a = Point::new(0, 0, 0);
    let b = Point::new(0, 1, 1);
    let d = Manhattan::distance_point(&a, &b);
    assert_delta(d as f32 as f64, 2., 0.00001);
}

#[test]
fn distance_test_manhattan_f64() {
    let a = Point::new(0, 0, 0);
    let b = Point::new(0, 1, 1);
    let d = Manhattan::distance_point(&a, &b);
    assert_delta(d as f64, 2., 0.00001);
}

#[test]
fn distances_at_the_ends_of_the_range() {
    let far = (u32::MAX as u128) * (u32::MAX as u128);
    assert_eq!(Euclidean::distance(&[i32::MIN, i32::MIN], &[i32::MAX, i32::MAX]), 2 * far);
    assert_eq!(Euclidean::distance(&[3, 4], &[0, 0]), 25);
    assert_eq!(Euclidean::distance(&[0, 0], &[3, 4]), 25);
    assert_eq!(Manhattan::distance(&[i32::MIN, i32::MAX], &[i32::MAX, i32::MIN]), 2 * (u32::MAX as u128));
    assert_eq!(Manhattan::distance(&[-3, 4], &[2, -1]), 10);
}

#[test]
fn a_nearer_state_has_the_smaller_distance() {
    let near = NearestNeighborState { distance: 4, point: Point::new(0, 2, 0) };
    let far = NearestNeighborState { distance: 9, point: Point::new(1, 3, 0) };
    assert!(near.is_nearer_than(&far));
    assert!(!far.is_nearer_than(&near));
    assert!(!near.is_nearer_than(&near));
}
