use lsph::{convert_to_points, Axis, Error, LinearModel, Point, Trainer};
use lsph::geometry::{extract_id, extract_x, extract_y, reset_id, sort_by_x, sort_by_y};

#[test]
fn sort_by() {
    let mut data: Vec<Point> = vec![
        Point::new(1, 1, 1),
        Point::new(2, 3, 1),
        Point::new(3, 2, 1),
        Point::new(4, 3, 2),
        Point::new(5, 5, 1),
    ];
    let data_sort_by_x: Vec<Point> = vec![
        Point::new(1, 1, 1),
        Point::new(3, 2, 1),
        Point::new(2, 3, 1),
        Point::new(4, 3, 2),
        Point::new(5, 5, 1),
    ];
    sort_by_x(&mut data);

    assert_eq!(data_sort_by_x, data);
}

#[test]
fn train() {
    let mut data: Vec<Point> = vec![
        Point::new(1, 1, 1),
        Point::new(2, 3, 1),
        Point::new(3, 2, 1),
        Point::new(4, 3, 2),
        Point::new(5, 5, 1),
    ];
    let trainer = Trainer::with_points(&mut data).unwrap();
    // the coordinates of the ordered points, beside their ranks
    let test_x = vec![1, 2, 3, 3, 5];
    let test_y = vec![0, 1, 2, 3, 4];

    assert_eq!(&test_x, trainer.train_x());
    assert_eq!(&test_y, trainer.train_y());
}

#[test]
fn with_points_orders_and_ranks_the_points() {
    let mut data: Vec<Point> = vec![
        Point::new(10, 1, 1),
        Point::new(20, 3, 1),
        Point::new(30, 2, 1),
        Point::new(40, 3, 2),
        Point::new(50, 5, 1),
    ];
    let trainer = Trainer::with_points(&mut data).unwrap();
    assert_eq!(trainer.axis(), Axis::X);
    assert_eq!(
        data,
        vec![
            Point::new(0, 1, 1),
            Point::new(1, 2, 1),
            Point::new(2, 3, 1),
            Point::new(3, 3, 2),
            Point::new(4, 5, 1),
        ]
    );
}

#[test]
fn the_axis_with_the_larger_variance_is_chosen() {
    let mut flat_in_x: Vec<Point> =
        vec![Point::new(0, 1, 30), Point::new(1, 2, 10), Point::new(2, 1, 20)];
    let trainer = Trainer::with_points(&mut flat_in_x).unwrap();
    assert_eq!(trainer.axis(), Axis::Y);
    assert_eq!(trainer.train_x(), &vec![10, 20, 30]);
    assert_eq!(trainer.train_y(), &vec![0, 1, 2]);
    assert_eq!(
        flat_in_x,
        vec![Point::new(0, 2, 10), Point::new(1, 1, 20), Point::new(2, 1, 30)]
    );
    // equal variances go to the y axis
    let mut even: Vec<Point> = vec![Point::new(0, 1, 2), Point::new(1, 2, 1)];
    assert_eq!(Trainer::with_points(&mut even).unwrap().axis(), Axis::Y);
}

#[test]
fn preprocess_takes_the_ordered_coordinates() {
    let mut trainer = Trainer::new();
    let points = trainer.preprocess(vec![1, 3, 2, 3, 5], vec![1, 1, 1, 2, 1]).unwrap();
    assert_eq!(trainer.axis(), Axis::X);
    assert_eq!(trainer.train_x(), &vec![1, 2, 3, 3, 5]);
    assert_eq!(trainer.train_y(), &vec![0, 1, 2, 3, 4]);
    assert_eq!(
        points,
        vec![
            Point::new(0, 1, 1),
            Point::new(1, 2, 1),
            Point::new(2, 3, 1),
            Point::new(3, 3, 2),
            Point::new(4, 5, 1),
        ]
    );
}

#[test]
fn preprocess_reports_each_error() {
    let mut trainer = Trainer::new();
    assert_eq!(trainer.preprocess(vec![], vec![]), Err(Error::EmptyVal));
    assert_eq!(trainer.preprocess(vec![], vec![1]), Err(Error::EmptyVal));
    assert_eq!(trainer.preprocess(vec![1, 2], vec![1]), Err(Error::DiffLen));
    assert!(trainer.train_x().is_empty());
    assert_eq!(Trainer::with_data(vec![], vec![]).map(|t| t.1), Err(Error::EmptyVal));
    assert_eq!(Trainer::with_data(vec![1], vec![]).map(|t| t.1), Err(Error::DiffLen));
}

#[test]
fn with_data_gives_trainer_and_points() {
    let (trainer, points) = Trainer::with_data(vec![5, 1, 3], vec![0, 0, 1]).unwrap();
    assert_eq!(trainer.axis(), Axis::X);
    assert_eq!(trainer.train_x(), &vec![1, 3, 5]);
    assert_eq!(trainer.train_y(), &vec![0, 1, 2]);
    assert_eq!(points, vec![Point::new(0, 1, 0), Point::new(1, 3, 1), Point::new(2, 5, 0)]);
}

#[test]
fn train_fits_the_model() {
    let mut trainer = Trainer::new();
    trainer.set_train_x(vec![1, 2, 3, 4, 5]);
    trainer.set_train_y(vec![1, 3, 2, 3, 5]);
    trainer.set_axis(Axis::Y);
    assert_eq!(trainer.axis(), Axis::Y);
    let mut model = LinearModel::new();
    let fitted = trainer.train(&mut model).unwrap();
    assert_eq!((fitted.coefficient().num(), fitted.coefficient().den()), (40, 50));
    assert_eq!((model.intercept().num(), model.intercept().den()), (20, 50));
    let empty = Trainer::default();
    assert_eq!(empty.train(&mut model).map(|m| m.coefficient().num()), Err(Error::EmptyVal));
    assert_eq!(model.coefficient().num(), 40);
}

#[test]
fn sorting_is_stable() {
    let mut by_x: Vec<Point> = vec![
        Point::new(0, 2, 9),
        Point::new(1, 1, 8),
        Point::new(2, 2, 7),
        Point::new(3, 1, 6),
        Point::new(4, 2, 5),
    ];
    sort_by_x(&mut by_x);
    assert_eq!(
        by_x,
        vec![
            Point::new(1, 1, 8),
            Point::new(3, 1, 6),
            Point::new(0, 2, 9),
            Point::new(2, 2, 7),
            Point::new(4, 2, 5),
        ]
    );
    let mut by_y: Vec<Point> =
        vec![Point::new(0, 5, 2), Point::new(1, 4, 1), Point::new(2, 3, 2), Point::new(3, 2, 1)];
    sort_by_y(&mut by_y);
    assert_eq!(
        by_y,
        vec![Point::new(1, 4, 1), Point::new(3, 2, 1), Point::new(0, 5, 2), Point::new(2, 3, 2)]
    );
}

#[test]
fn helpers_extract_and_renumber() {
    let mut points: Vec<Point> =
        vec![Point::new(7, 1, -1), Point::new(8, 2, -2), Point::new(9, 3, -3)];
    assert_eq!(extract_x(&points), vec![1, 2, 3]);
    assert_eq!(extract_y(&points), vec![-1, -2, -3]);
    assert_eq!(extract_id(&points), Some(vec![7, 8, 9]));
    reset_id(&mut points);
    assert_eq!(extract_id(&points), Some(vec![0, 1, 2]));
    // an identifier beyond the scalar type has no scalar
    let far = vec![Point::new(i32::MAX as usize, 0, 0)];
    assert_eq!(extract_id(&far), Some(vec![i32::MAX]));
    let beyond = vec![Point::new(0, 0, 0), Point::new(i32::MAX as usize + 1, 0, 0)];
    assert_eq!(extract_id(&beyond), None);
    assert_eq!(
        convert_to_points(&[[1, 2], [3, 4]]),
        Some(vec![Point::new(0, 1, 2), Point::new(1, 3, 4)])
    );
}

#[test]
fn points_have_their_parts() {
    let p = Point::new(3, -1, 2);
    assert_eq!((p.id(), p.x(), p.y()), (3, -1, 2));
    assert_eq!(Point::default(), Point::new(0, 0, 0));
    assert!(p.same_place(&Point::new(9, -1, 2)));
    assert!(!p.same_place(&Point::new(3, -1, 3)));
}

#[test]
fn with_data_succeeds_on_coordinates_of_one_count() {
    let (trainer, points) = Trainer::with_data(vec![1, 3, 2], vec![0, 0, 1]).unwrap();
    assert_eq!(points, vec![Point::new(0, 1, 0), Point::new(1, 2, 1), Point::new(2, 3, 0)]);
    assert_eq!(trainer.train_x(), &vec![1, 2, 3]);
    assert_eq!(trainer.train_y(), &vec![0, 1, 2]);
    // a single point, and points without spread, are prepared all the same
    assert!(Trainer::with_data(vec![7], vec![7]).is_ok());
    let mut trainer = Trainer::new();
    assert_eq!(
        trainer.preprocess(vec![2, 2], vec![5, 5]),
        Ok(vec![Point::new(0, 2, 5), Point::new(1, 2, 5)])
    );
    assert_eq!(trainer.train_x(), &vec![5, 5]);
    assert_eq!(trainer.axis(), Axis::Y);
}

#[test]
fn the_training_inputs_run_beside_their_ranks() {
    let mut data: Vec<Point> = vec![
        Point::new(9, 40, 0),
        Point::new(9, -3, 0),
        Point::new(9, 12, 0),
        Point::new(9, 12, 1),
        Point::new(9, 7, 0),
    ];
    let trainer = Trainer::with_points(&mut data).unwrap();
    assert_eq!(trainer.train_x(), &vec![-3, 7, 12, 12, 40]);
    assert_eq!(trainer.train_y(), &vec![0, 1, 2, 3, 4]);
    for (rank, p) in data.iter().enumerate() {
        assert_eq!(p.id(), rank);
        assert_eq!(p.x(), trainer.train_x()[rank]);
    }
}
