use lsph::{covariance, mean, mean_squared_error, variance, Error, Ratio};

fn value(r: Ratio) -> f64 {
    r.num() as f64 / r.den() as f64
}

fn assert_delta(x: f64, y: f64, delta: f64) {
    assert!((x - y).abs() <= delta, "{} is not within {} of {}", x, delta, y);
}

#[test]
fn mean_empty_vec() {
    let values: Vec<i32> = vec![];
    assert_delta(0., value(mean(&values)), 0.00001);
}

#[test]
fn mean_empty_vec_f32() {
    let values: Vec<i32> = vec![];
    let m = mean(&values);
    assert_eq!((m.num(), m.den()), (0, 1));
}

#[test]
fn mean_1_to_5() {
    let values = vec![1, 2, 3, 4, 5];
    assert_delta(3., value(mean(&values)), 0.00001);
}

#[test]
fn mean_1_to_5_f32() {
    let values: Vec<i32> = vec![1, 2, 3, 4, 5];
    let m = mean(&values);
    assert_eq!((m.num(), m.den()), (15, 5));
}

#[test]
fn variance_empty_vec() {
    let values: Vec<i32> = vec![];
    assert_delta(0., value(variance(&values)), 0.00001);
}

#[test]
fn variance_empty_vec_f32() {
    let values: Vec<i32> = vec![];
    let v = variance(&values);
    assert_eq!((v.num(), v.den()), (0, 1));
}

#[test]
fn variance_1_to_5() {
    let values = vec![1, 2, 3, 4, 5];
    assert_delta(2., value(variance(&values)), 0.00001);
}

#[test]
fn variance_1_to_5_f32() {
    let values: Vec<i32> = vec![1, 2, 3, 4, 5];
    let v = variance(&values);
    assert_eq!((v.num(), v.den()), (50, 25));
}

#[test]
fn covariance_empty_vec() {
    let x_values: Vec<i32> = vec![];
    let y_values: Vec<i32> = vec![];
    assert_delta(0., value(covariance(&x_values, &y_values).unwrap()), 0.00001);
}

#[test]
fn covariance_empty_vec_f32() {
    let x_values: Vec<i32> = vec![];
    let y_values: Vec<i32> = vec![];
    let c = covariance(&x_values, &y_values).unwrap();
    assert_eq!((c.num(), c.den()), (0, 1));
}

#[test]
fn covariance_1_to_5() {
    let x_values = vec![1, 2, 3, 4, 5];
    let y_values = vec![1, 3, 2, 3, 5];
    assert_delta(1.6, value(covariance(&x_values, &y_values).unwrap()), 0.00001);
}

#[test]
fn covariance_1_to_5_f32() {
    let x_values: Vec<i32> = vec![1, 2, 3, 4, 5];
    let y_values: Vec<i32> = vec![1, 3, 2, 3, 5];
    let c = covariance(&x_values, &y_values).unwrap();
    assert_eq!((c.num(), c.den()), (40, 25));
}

// The second sequence is 0.5, 4.0, 1.0, -5.0, 4.0 in halves.
#[test]
fn negative_covariance_1_to_5() {
    let x_values = vec![1, 2, 3, 4, 5];
    let y_halves = vec![1, 8, 2, -10, 8];
    assert_delta(-0.4, value(covariance(&x_values, &y_halves).unwrap()) / 2., 0.00001);
}

#[test]
fn negative_covariance_1_to_5_f32() {
    let x_values: Vec<i32> = vec![1, 2, 3, 4, 5];
    let y_halves: Vec<i32> = vec![1, 8, 2, -10, 8];
    let c = covariance(&x_values, &y_halves).unwrap();
    assert_eq!((c.num(), c.den()), (-20, 25));
}

#[test]
fn mean_squared_error_test() {
    let actual = vec![1, 2, 3, 4, 5];
    let predict = vec![1, 2, 3, 4, 5];
    assert_delta(0., value(mean_squared_error(&actual, &predict).unwrap()), 0.00001);
}

#[test]
fn mean_squared_error_test_f32() {
    let actual: Vec<i32> = vec![1, 2, 3, 4, 5];
    let predict: Vec<i32> = vec![1, 2, 3, 4, 5];
    let e = mean_squared_error(&actual, &predict).unwrap();
    assert_eq!((e.num(), e.den()), (0, 5));
}

// The sequences are 1.0, 2.0, .. and 1.0, 1.6, 3.0, .. in tenths.
#[test]
fn mean_squared_error_test_2() {
    let actual = vec![10, 20, 30, 40, 50];
    let predict = vec![10, 16, 30, 40, 50];
    assert_delta(0.032, value(mean_squared_error(&actual, &predict).unwrap()) / 100., 0.00001);
}

#[test]
fn mean_squared_error_test_2_f32() {
    let actual: Vec<i32> = vec![10, 20, 30, 40, 50];
    let predict: Vec<i32> = vec![10, 16, 30, 40, 50];
    let e = mean_squared_error(&actual, &predict).unwrap();
    assert_eq!((e.num(), e.den()), (16, 5));
}

#[test]
fn covariance_of_different_lengths_is_refused() {
    assert_eq!(covariance(&[1, 2, 3], &[1, 2]).map(|c| c.num()), Err(Error::DiffLen));
    assert_eq!(mean_squared_error(&[1], &[]).map(|e| e.num()), Err(Error::DiffLen));
}

#[test]
fn mean_of_negative_values_is_exact() {
    let m = mean(&[-3, -4, 2]);
    assert_eq!((m.num(), m.den()), (-5, 3));
    assert_eq!(m.floor(), -2);
    assert_eq!(m.ceil(), -1);
}

#[test]
fn ratio_needs_a_positive_denominator() {
    assert!(Ratio::new(1, 0).is_none());
    assert!(Ratio::new(1, -2).is_none());
    let r = Ratio::new(-7, 2).unwrap();
    assert_eq!(r.floor(), -4);
    assert_eq!(r.ceil(), -3);
    assert_eq!(Ratio::from_int(5).floor(), 5);
    assert_eq!(Ratio::from_int(5).ceil(), 5);
    assert_eq!(Ratio::new(i128::MIN, 3).unwrap().ceil(), i128::MIN / 3);
}
