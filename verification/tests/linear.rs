use lsph::{linear_regression, linear_regression_tuple, Error, LinearModel, Model, Ratio};

fn value(r: Ratio) -> f64 {
    r.num() as f64 / r.den() as f64
}

fn assert_delta(x: f64, y: f64, delta: f64) {
    assert!((x - y).abs() <= delta, "{} is not within {} of {}", x, delta, y);
}

#[test]
#[should_panic]
fn linear_should_panic_for_empty_vecs() {
    let x_values: Vec<i32> = vec![];
    let y_values: Vec<i32> = vec![];
    let mut model = LinearModel::new();
    model.fit(&x_values, &y_values).unwrap();

    assert_delta(0.8, value(model.coefficient()), 0.00001);
    assert_delta(0.4, value(model.intercept()), 0.00001);
}

#[test]
fn fit_coefficients() {
    let x_values: Vec<i32> = vec![1, 2, 3, 4, 5];
    let y_values: Vec<i32> = vec![1, 3, 2, 3, 5];
    let mut model = LinearModel::new();
    model.fit(&x_values, &y_values).unwrap();

    assert_delta(0.8, value(model.coefficient()), 0.00001);
    assert_delta(0.4, value(model.intercept()), 0.00001);
}

#[test]
fn fit_coefficients_f32() {
    let x_values: Vec<i32> = vec![1, 2, 3, 4, 5];
    let y_values: Vec<i32> = vec![1, 3, 2, 3, 5];
    let mut model = LinearModel::new();
    model.fit(&x_values, &y_values).unwrap();

    let coefficient = model.coefficient();
    let intercept = model.intercept();
    assert_eq!((coefficient.num(), coefficient.den()), (40, 50));
    assert_eq!((intercept.num(), intercept.den()), (20, 50));
}

#[test]
fn should_fit_coefficients_correctly() {
    let x_values: Vec<i32> = vec![1, 2, 3, 4, 5];
    let y_values: Vec<i32> = vec![1, 3, 2, 3, 5];
    let mut model = LinearModel::new();
    model.fit(&x_values, &y_values).unwrap();

    assert_delta(0.8, value(model.coefficient()), 0.00001);
    assert_delta(0.4, value(model.intercept()), 0.00001);
}

#[test]
fn predict() {
    let x_values = vec![1, 2, 3, 4, 5];
    let y_values = vec![1, 3, 2, 3, 5];
    let mut model = LinearModel::new();
    model.fit(&x_values, &y_values).unwrap();

    assert_delta(1.2, value(model.predict(1)), 0.00001);
    assert_delta(2., value(model.predict(2)), 0.00001);
    assert_delta(2.8, value(model.predict(3)), 0.00001);
    assert_delta(3.6, value(model.predict(4)), 0.00001);
    assert_delta(4.4, value(model.predict(5)), 0.00001);
}

#[test]
fn should_predict_correctly() {
    let x_values: Vec<i32> = vec![1, 2, 3, 4, 5];
    let y_values: Vec<i32> = vec![1, 3, 2, 3, 5];
    let mut model = LinearModel::new();
    model.fit(&x_values, &y_values).unwrap();

    assert_delta(1.2, value(model.predict(1)), 0.00001);
    assert_delta(2., value(model.predict(2)), 0.00001);
    assert_delta(2.8, value(model.predict(3)), 0.00001);
    assert_delta(3.6, value(model.predict(4)), 0.00001);
    assert_delta(4.4, value(model.predict(5)), 0.00001);
}

#[test]
fn predict_list() {
    let x_values = vec![1, 2, 3, 4, 5];
    let y_values = vec![1, 3, 2, 3, 5];
    let mut model = LinearModel::new();
    model.fit(&x_values, &y_values).unwrap();

    let predictions = model.batch_predict(&x_values);

    assert_delta(1.2, value(predictions[0]), 0.00001);
    assert_delta(2., value(predictions[1]), 0.00001);
    assert_delta(2.8, value(predictions[2]), 0.00001);
    assert_delta(3.6, value(predictions[3]), 0.00001);
    assert_delta(4.4, value(predictions[4]), 0.00001);
}

#[test]
fn should_predict_list_correctly() {
    let x_values: Vec<i32> = vec![1, 2, 3, 4, 5];
    let y_values: Vec<i32> = vec![1, 3, 2, 3, 5];
    let mut model = LinearModel::new();
    model.fit(&x_values, &y_values).unwrap();

    let predictions = model.batch_predict(&x_values);

    assert_eq!(predictions.len(), 5);
    assert_delta(1.2, value(predictions[0]), 0.00001);
    assert_delta(2., value(predictions[1]), 0.00001);
    assert_delta(2.8, value(predictions[2]), 0.00001);
    assert_delta(3.6, value(predictions[3]), 0.00001);
    assert_delta(4.4, value(predictions[4]), 0.00001);
}

// The model gives the mean squared error; its root is the error that is
// compared here.
#[test]
fn evaluate() {
    let x_values = vec![1, 2, 3, 4, 5];
    let y_values = vec![1, 3, 2, 3, 5];
    let mut model = LinearModel::new();
    model.fit(&x_values.clone(), &y_values.clone()).unwrap();

    let error = model.evaluate(&x_values, &y_values).unwrap();
    assert_delta(0.69282, value(error).sqrt(), 0.00001);
}

#[test]
fn should_evaluate_correctly() {
    let x_values: Vec<i32> = vec![1, 2, 3, 4, 5];
    let y_values: Vec<i32> = vec![1, 3, 2, 3, 5];
    let mut model = LinearModel::new();
    model.fit(&x_values.clone(), &y_values.clone()).unwrap();

    let error = model.evaluate(&x_values, &y_values).unwrap();
    // residuals 0.2, -1, 0.8, 0.6, -0.6 over the denominator 50
    assert_eq!((error.num(), error.den()), (6000, 12500));
}

#[test]
fn a_new_model_is_the_zero_line() {
    let model = LinearModel::new();
    assert_eq!(model.name(), "linear");
    assert_eq!(model.predict(10).floor(), 0);
    assert_eq!(model.predict(-10).num(), 0);
    assert!(model.unpredict(3).is_none());
    let other = LinearModel::default();
    assert_eq!(other.coefficient().num(), 0);
    assert_eq!(other.intercept().num(), 0);
}

#[test]
fn fit_reports_each_error() {
    let mut model = LinearModel::new();
    assert_eq!(model.fit(&[], &[]), Err(Error::EmptyVal));
    assert_eq!(model.fit(&[1], &[]), Err(Error::EmptyVal));
    assert_eq!(model.fit(&[], &[1]), Err(Error::EmptyVal));
    assert_eq!(model.fit(&[1, 2], &[1]), Err(Error::DiffLen));
    // no spread in x: the slope would be 0 / 0
    assert_eq!(model.fit(&[2, 2, 2], &[1, 2, 3]), Err(Error::SteepSlope));
    assert_eq!(model.fit(&[7], &[1]), Err(Error::SteepSlope));
    assert_eq!(model.fit_tuple(&[]), Err(Error::EmptyVal));
    assert_eq!(model.fit_tuple(&[(2, 1), (2, 5)]), Err(Error::SteepSlope));
    // the failed fits left the zero line
    assert_eq!(model.coefficient().num(), 0);
    assert_eq!(model.coefficient().den(), 1);
}

#[test]
fn fit_refuses_a_line_beyond_its_range() {
    let mut model = LinearModel::new();
    let xs: Vec<i32> = vec![i32::MAX, i32::MIN, i32::MAX - 1, i32::MIN + 1, 0];
    let ys: Vec<i32> = vec![i32::MAX, i32::MIN, i32::MAX, i32::MIN, 1];
    // the slope numerator is about 2^65 here, which a model keeps
    assert_eq!(model.fit(&xs, &ys), Ok(()));
    let many: Vec<i32> = (0..70000).map(|i| if i % 2 == 0 { i32::MAX } else { i32::MIN }).collect();
    // 70000^2 * 2^62 exceeds the limit of 2^94 for the slope numerator
    assert_eq!(model.fit(&many, &many), Err(Error::SteepSlope));
}

#[test]
fn fit_tuple_is_fit_on_the_pairs() {
    let mut by_pairs = LinearModel::new();
    by_pairs.fit_tuple(&[(1, 1), (2, 3), (3, 2), (4, 3), (5, 5)]).unwrap();
    let mut by_slices = LinearModel::new();
    by_slices.fit(&[1, 2, 3, 4, 5], &[1, 3, 2, 3, 5]).unwrap();
    assert_eq!(by_pairs.coefficient().num(), by_slices.coefficient().num());
    assert_eq!(by_pairs.intercept().num(), by_slices.intercept().num());
    assert_eq!(by_pairs.coefficient().den(), by_slices.coefficient().den());
}

#[test]
fn regression_gives_slope_and_intercept() {
    let (slope, intercept) = linear_regression(&[0, 1, 2], &[1, 3, 5]).unwrap();
    assert_delta(2., value(slope), 0.00001);
    assert_delta(1., value(intercept), 0.00001);
    let (slope, intercept) = linear_regression_tuple(&[(0, 1), (1, 3), (2, 5)]).unwrap();
    assert_eq!((slope.num(), slope.den()), (12, 6));
    assert_eq!((intercept.num(), intercept.den()), (6, 6));
    assert_eq!(linear_regression(&[1], &[1, 2]).map(|l| l.0.num()), Err(Error::DiffLen));
}

#[test]
fn unpredict_reverses_predict() {
    let model = LinearModel::with_line(Ratio::new(3, 1).unwrap(), Ratio::new(2, 1).unwrap()).unwrap();
    assert_eq!(model.predict(10).floor(), 32);
    let x = model.unpredict(32).unwrap();
    assert_eq!((x.num(), x.den()), (30, 3));
    let falling =
        LinearModel::with_line(Ratio::new(-2, 1).unwrap(), Ratio::new(1, 1).unwrap()).unwrap();
    let x = falling.unpredict(5).unwrap();
    assert_eq!((x.num(), x.den()), (-4, 2));
    assert!(
        LinearModel::with_line(Ratio::new(1, 2).unwrap(), Ratio::new(1, 3).unwrap()).is_none()
    );
}

#[test]
fn evaluate_refuses_different_lengths() {
    let model = LinearModel::new();
    assert_eq!(model.evaluate(&[1, 2], &[1]).map(|e| e.num()), Err(Error::DiffLen));
    let none = model.evaluate(&[], &[]).unwrap();
    assert_eq!((none.num(), none.den()), (0, 1));
}
