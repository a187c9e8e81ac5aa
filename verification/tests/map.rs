use lsph::{
    Axis, Distance, Error, Euclidean, LearnedHashMap, LearnedHasher, LinearModel, Point, Ratio,
    Trainer,
};
use rand::{Rng, SeedableRng};
use rand::rngs::SmallRng;

type Seed = [u8; 32];

const SEED_1: &Seed = b"wPYxAkIiHcEmSBAxQFoXFrpYToCe1B71";
const SEED_2: &Seed = b"4KbTVjPT4DXSwWAsQM5dkWWywPKZRfCX";

fn value(r: Ratio) -> f64 {
    r.num() as f64 / r.den() as f64
}

fn assert_delta(x: f64, y: f64, delta: f64) {
    assert!((x - y).abs() <= delta, "{} is not within {} of {}", x, delta, y);
}

// Random places of the unit square, on a grid of a millionth.
fn create_random_points(num_points: usize, seed: &[u8; 32]) -> Vec<(i32, i32)> {
    let mut result = Vec::with_capacity(num_points);
    let mut rng = SmallRng::from_seed(*seed);
    for _ in 0..num_points {
        let x: f64 = rng.random();
        let y: f64 = rng.random();
        result.push(((x * 1_000_000.) as i32, (y * 1_000_000.) as i32));
    }
    result
}

fn create_random_point_type_points(num_points: usize, seed: &[u8; 32]) -> Vec<Point> {
    let result = create_random_points(num_points, seed);
    result.into_iter().enumerate().map(|(id, (x, y))| Point::new(id, x, y)).collect::<Vec<_>>()
}

fn scenario() -> Vec<Point> {
    vec![
        Point::new(0, 1, 1),
        Point::new(1, 3, 1),
        Point::new(2, 2, 1),
        Point::new(3, 3, 2),
        Point::new(4, 5, 1),
    ]
}

#[test]
fn mod_insert() {
    let a: Point = Point::new(0, 0, 1);
    let b: Point = Point::new(0, 1, 0);

    let mut map = LearnedHashMap::<LinearModel>::new();
    map.insert(a);
    map.insert(b);

    assert_eq!(map.items(), 2);
    assert_eq!(map.get(&[0, 1]).unwrap(), &a);
    assert_eq!(map.get(&[1, 0]).unwrap(), &b);
}

#[test]
fn map_insert() {
    let a: Point = Point::new(1, 0, 1);
    let b: Point = Point::new(2, 1, 0);

    let mut map = LearnedHashMap::<LinearModel>::new();
    map.insert(a);
    map.insert(b);

    assert_eq!(map.items(), 2);
    assert_eq!(map.get(&[0, 1]).unwrap(), &a);
    assert_eq!(map.get(&[1, 0]).unwrap(), &b);
}

#[test]
fn map3_insert() {
    let a: Point = Point::new(1, 0, 1);
    let b: Point = Point::new(2, 1, 0);
    let hasher = LearnedHasher::with_model(LinearModel::new());
    let mut map: LearnedHashMap<LinearModel> = LearnedHashMap::with_hasher(hasher);
    map.insert(a);
    map.insert(b);
    assert_eq!(map.get(&[0, 1]).unwrap(), &a);
    assert_eq!(map.get(&[1, 0]).unwrap(), &b);
}

#[test]
fn mod_insert_repeated() {
    let mut map = LearnedHashMap::<LinearModel>::new();
    let a: Point = Point::new(0, 0, 1);
    let b: Point = Point::new(0, 1, 0);
    let res = map.insert(a);
    assert_eq!(map.items(), 1);
    assert_eq!(res, None);

    let res = map.insert(b);
    assert_eq!(map.items(), 2);
    assert_eq!(res, None);
}

// Two points at one place: the second takes the place of the first.
#[test]
fn map_insert_repeated() {
    let mut map = LearnedHashMap::<LinearModel>::new();
    let a: Point = Point::new(1, 0, 1);
    let b: Point = Point::new(2, 0, 1);

    let res = map.insert(a);
    assert_eq!(map.items(), 1);
    assert_eq!(res, None);

    let res = map.insert(b);
    assert_eq!(map.items(), 1);
    assert_eq!(res, Some(a));
    assert_eq!(map.get(&[0, 1]), Some(&b));
}

#[test]
fn map3_insert_repeated() {
    let hasher = LearnedHasher::with_model(LinearModel::new());
    let mut map: LearnedHashMap<LinearModel> = LearnedHashMap::with_hasher(hasher);
    let a: Point = Point::new(1, 0, 1);
    let b: Point = Point::new(2, 0, 1);

    let res = map.insert(a);
    assert_eq!(res, None);
    let res = map.insert(b);
    assert_eq!(res, Some(a));
    assert_eq!(map.items(), 1);
}

#[test]
fn with_data() {
    let data = vec![[1, 1], [2, 1], [3, 2], [4, 4]];
    let (mut map, _points) = LearnedHashMap::<LinearModel>::with_data(&data).unwrap();
    assert_eq!(map.get(&[1, 1]).is_some(), true);
}

#[test]
fn with_data_gives_the_ranked_points() {
    let data = vec![[1, 1], [2, 1], [3, 2], [4, 4]];
    let (mut map, points) = LearnedHashMap::<LinearModel>::with_data(&data).unwrap();
    // y varies more than x here, and the ranks follow y
    assert!(!map.hasher().sort_by_x());
    assert_eq!(
        points,
        vec![Point::new(0, 1, 1), Point::new(1, 2, 1), Point::new(2, 3, 2), Point::new(3, 4, 4)]
    );
    assert_eq!(map.items(), 4);
    assert!(!map.is_empty());
    assert_eq!(map.get(&[1, 1]), Some(&points[0]));
    assert_eq!(map.get(&[3, 1]).is_none(), true);
    assert_eq!(map.contains_points(&[1, 1]), true);
    assert_eq!(map.contains_points(&[0, 1]), false);
    assert_eq!(map.range_search(&[0, 0], &[3, 3]).is_some(), true);
    assert_eq!(map.radius_range(&[2, 1], 1).is_some(), true);
    assert_eq!(map.nearest_neighbor(&[2, 1]).is_some(), true);
    let p = points[0];
    assert_eq!(map.remove(&p).unwrap(), p);
    assert_eq!(map.items(), 3);
    let no_data: Vec<[i32; 2]> = vec![];
    assert_eq!(
        LearnedHashMap::<LinearModel>::with_data(&no_data).map(|m| m.1),
        Err(Error::EmptyVal)
    );
}

#[test]
fn mod_fit_batch_insert() {
    let mut data: Vec<Point> = scenario();
    let mut map = LearnedHashMap::<LinearModel>::new();
    map.batch_insert(&mut data).unwrap();

    assert_delta(1.02272, value(map.hasher().model.coefficient()), 0.00001);
    assert_delta(-0.86363, value(map.hasher().model.intercept()), 0.00001);
    assert_eq!(Some(&Point::new(0, 1, 1)), map.get(&[1, 1]));
    assert_eq!(Some(&Point::new(2, 3, 1)), map.get(&[3, 1]));
    assert_eq!(Some(&Point::new(4, 5, 1)), map.get(&[5, 1]));

    assert_eq!(None, map.get(&[5, 2]));
    assert_eq!(None, map.get(&[2, 2]));
    assert_eq!(None, map.get(&[50, 10]));
    assert_eq!(None, map.get(&[500, 100]));
}

// The model is fitted to the pairs of a coordinate and an identifier, and
// the points are then put in one by one.
#[test]
fn map_fit_batch_insert() {
    let data: Vec<Point> = vec![
        Point::new(1, 1, 1),
        Point::new(2, 3, 1),
        Point::new(3, 2, 1),
        Point::new(4, 3, 2),
        Point::new(5, 5, 1),
    ];
    let mut map = LearnedHashMap::<LinearModel>::new();
    let pairs: Vec<(i32, i32)> = data.iter().map(|p| (p.x(), p.id() as i32)).collect();
    map.model_fit_tuple(&pairs).unwrap();
    for p in data.iter() {
        map.insert(*p);
    }

    assert_delta(0.90909, value(map.hasher().model.coefficient()), 0.00001);
    assert_delta(0.45455, value(map.hasher().model.intercept()), 0.00001);
    assert_eq!(Some(&Point::new(1, 1, 1)), map.get(&[1, 1]));
    assert_eq!(Some(&Point::new(2, 3, 1)), map.get(&[3, 1]));
    assert_eq!(Some(&Point::new(5, 5, 1)), map.get(&[5, 1]));

    assert_eq!(None, map.get(&[5, 2]));
    assert_eq!(None, map.get(&[2, 2]));
    assert_eq!(None, map.get(&[50, 10]));
    assert_eq!(None, map.get(&[500, 100]));
}

#[test]
fn insert_after_batch_insert() {
    let mut data: Vec<Point> = scenario();
    let mut map = LearnedHashMap::<LinearModel>::new();
    map.batch_insert(&mut data).unwrap();

    let a: Point = Point::new(0, 10, 10);
    map.insert(a.clone());
    assert_eq!(Some(&a), map.get(&[10, 10]));

    let b: Point = Point::new(0, 100, 100);
    map.insert(b.clone());
    assert_eq!(Some(&b), map.get(&[100, 100]));
    assert_eq!(None, map.get(&[100, 101]));
    // the earlier points are still found after the table has grown
    assert_eq!(Some(&a), map.get(&[10, 10]));
    assert_eq!(Some(&Point::new(4, 5, 1)), map.get(&[5, 1]));
    assert_eq!(map.items(), 7);
    assert!(map.len() > 90);
}

// Coordinates are in halves here, so that 3.5 is 7.
#[test]
fn mod_range_search() {
    let mut data: Vec<Point> = vec![
        Point::new(0, 2, 2),
        Point::new(0, 4, 4),
        Point::new(0, 6, 6),
        Point::new(0, 8, 8),
        Point::new(0, 10, 10),
    ];
    let mut map = LearnedHashMap::<LinearModel>::new();
    map.batch_insert(&mut data).unwrap();

    let found: Vec<Point> = vec![Point::new(0, 2, 2), Point::new(1, 4, 4), Point::new(2, 6, 6)];

    assert_eq!(Some(found), map.range_search(&[2, 2], &[7, 6]));

    let found: Vec<Point> = vec![Point::new(0, 2, 2)];

    assert_eq!(Some(found), map.range_search(&[2, 2], &[6, 2]));
    assert_eq!(None, map.range_search(&[8, 4], &[10, 6]));
}

#[test]
fn map_range_search() {
    let mut data: Vec<Point> = vec![
        Point::new(1, 1, 1),
        Point::new(2, 2, 2),
        Point::new(3, 3, 3),
        Point::new(4, 4, 4),
        Point::new(5, 5, 5),
    ];
    let mut map = LearnedHashMap::<LinearModel>::new();
    map.batch_insert(&mut data).unwrap();

    let found: Vec<Point> = vec![Point::new(0, 1, 1), Point::new(1, 2, 2), Point::new(2, 3, 3)];
    assert_eq!(Some(found), map.range_search(&[1, 1], &[3, 3]));

    let found: Vec<Point> = vec![Point::new(0, 1, 1)];
    assert_eq!(Some(found), map.range_search(&[1, 1], &[3, 1]));
    assert_eq!(None, map.range_search(&[4, 2], &[5, 3]));
}

#[test]
fn mod_test_nearest_neighbor() {
    let points = create_random_point_type_points(1000, SEED_1);
    let mut map = LearnedHashMap::<LinearModel>::new();
    map.batch_insert(&mut points.clone()).unwrap();

    let sample_points = create_random_point_type_points(100, SEED_2);
    for sample_point in &sample_points {
        let mut nearest = None;
        let mut closest_dist = u128::MAX;
        for point in &points {
            let new_dist = Euclidean::distance_point(&point, &sample_point);
            if new_dist < closest_dist {
                closest_dist = new_dist;
                nearest = Some(point);
            }
        }
        let map_nearest = map.nearest_neighbor(&[sample_point.x(), sample_point.y()]).unwrap();
        assert_eq!(closest_dist, Euclidean::distance_point(&map_nearest, &sample_point));
        assert!(nearest.unwrap().same_place(&map_nearest));
    }
}

#[test]
fn map_test_nearest_neighbor() {
    let points = create_random_point_type_points(1000, SEED_1);
    let by_x = Trainer::with_points(&mut points.clone()).unwrap().axis() == Axis::X;
    let mut map = LearnedHashMap::<LinearModel>::new();
    map.batch_insert(&mut points.clone()).unwrap();
    // the model rises with the coordinates of the chosen axis
    assert!(map.hasher().model.coefficient().num() > 0);
    assert_eq!(map.hasher().sort_by_x(), by_x);
    assert!(map.len() >= 1000);

    let sample_points = create_random_point_type_points(100, SEED_2);
    for sample_point in &sample_points {
        let mut nearest = None;
        let mut closest_dist = u128::MAX;
        for point in &points {
            let new_dist = Euclidean::distance_point(&point, &sample_point);
            if new_dist < closest_dist {
                closest_dist = new_dist;
                nearest = Some(point);
            }
        }
        let map_nearest = map.nearest_neighbor(&[sample_point.x(), sample_point.y()]).unwrap();
        assert_eq!(closest_dist, Euclidean::distance_point(&map_nearest, &sample_point));
        assert!(nearest.unwrap().same_place(&map_nearest));
    }
}

#[test]
fn example_scenario() {
    let mut data: Vec<Point> = scenario();
    let mut map = LearnedHashMap::<LinearModel>::new();
    map.batch_insert(&mut data).unwrap();
    // the x axis has the larger variance
    assert!(map.hasher().sort_by_x());
    // the ranks of the points as they were given are 0, 2, 1, 3, 4, and the
    // line of least squares through (1, 0), (2, 1), (3, 2), (3, 3), (5, 4) is
    let coefficient = map.hasher().model.coefficient();
    let intercept = map.hasher().model.intercept();
    assert_eq!((coefficient.num(), coefficient.den()), (45, 44));
    assert_eq!((intercept.num(), intercept.den()), (-38, 44));
    assert_eq!(data.iter().map(|p| p.id()).collect::<Vec<_>>(), vec![0, 1, 2, 3, 4]);
    assert_eq!(data.iter().map(|p| p.x()).collect::<Vec<_>>(), vec![1, 2, 3, 3, 5]);
    assert_eq!(map.get(&[1, 1]), Some(&Point::new(0, 1, 1)));
    assert_eq!(map.get(&[50, 10]), None);
    // ascending in x; of two points with one x the later one comes first
    assert_eq!(
        map.range_search(&[1, 1], &[3, 3]),
        Some(vec![Point::new(0, 1, 1), Point::new(1, 2, 1), Point::new(3, 3, 2), Point::new(2, 3, 1)])
    );
    assert_eq!(
        map.range_search(&[1, 1], &[3, 1]),
        Some(vec![Point::new(0, 1, 1), Point::new(1, 2, 1), Point::new(2, 3, 1)])
    );
    assert_eq!(map.nearest_neighbor(&[0, 0]), Some(Point::new(0, 1, 1)));
}

#[test]
fn an_empty_map_has_nothing() {
    let mut map = LearnedHashMap::<LinearModel>::new();
    assert!(map.is_empty());
    assert_eq!(map.items(), 0);
    assert_eq!(map.len(), 0);
    assert_eq!(map.get(&[0, 0]), None);
    assert_eq!(map.remove(&Point::new(0, 0, 0)), None);
    assert_eq!(map.range_search(&[-5, -5], &[5, 5]), None);
    assert_eq!(map.radius_range(&[0, 0], 5), None);
    assert_eq!(map.nearest_neighbor(&[0, 0]), None);
    let mut other = LearnedHashMap::<LinearModel>::with_capacity(10);
    assert_eq!(other.len(), 0);
    assert_eq!(other.nearest_neighbor(&[1, 1]), None);
    let mut third = LearnedHashMap::<LinearModel>::default();
    assert_eq!(third.contains_points(&[1, 1]), false);
}

#[test]
fn batch_insert_reports_each_error() {
    let mut map = LearnedHashMap::<LinearModel>::new();
    map.insert(Point::new(7, 1, 1));
    let mut none: Vec<Point> = vec![];
    assert_eq!(map.batch_insert(&mut none), Err(Error::EmptyVal));
    // all points at one coordinate of the chosen axis: no slope
    let mut level: Vec<Point> = vec![Point::new(0, 2, 1), Point::new(1, 2, 1)];
    assert_eq!(map.batch_insert(&mut level), Err(Error::SteepSlope));
    // the map is as it was
    assert_eq!(map.items(), 1);
    assert_eq!(map.get(&[1, 1]), Some(&Point::new(7, 1, 1)));
    assert_eq!(map.get(&[2, 1]), None);
    assert_eq!(map.model_fit(&[1, 2], &[1]), Err(Error::DiffLen));
    assert_eq!(map.model_fit_tuple(&[]), Err(Error::EmptyVal));
    assert_eq!(map.hasher().model.coefficient().num(), 0);
}

#[test]
fn remove_takes_the_point_at_the_place() {
    let mut data: Vec<Point> = scenario();
    let mut map = LearnedHashMap::<LinearModel>::new();
    map.batch_insert(&mut data).unwrap();
    // the identifier of the argument does not matter
    assert_eq!(map.remove(&Point::new(99, 3, 1)), Some(Point::new(2, 3, 1)));
    assert_eq!(map.items(), 4);
    assert_eq!(map.get(&[3, 1]), None);
    assert_eq!(map.get(&[3, 2]), Some(&Point::new(3, 3, 2)));
    assert_eq!(map.remove(&Point::new(2, 3, 1)), None);
    assert_eq!(map.remove(&Point::new(0, 500, 1)), None);
    assert_eq!(map.items(), 4);
    // the last point of the bucket takes the place of the removed one
    let mut unfit = LearnedHashMap::<LinearModel>::new();
    for p in scenario() {
        unfit.insert(p);
    }
    assert_eq!(unfit.remove(&Point::new(0, 1, 1)), Some(Point::new(0, 1, 1)));
    assert_eq!(
        unfit.range_search(&[0, 0], &[9, 9]),
        Some(vec![Point::new(4, 5, 1), Point::new(2, 2, 1), Point::new(3, 3, 2), Point::new(1, 3, 1)])
    );
}

#[test]
fn a_bucket_keeps_its_points_in_the_order_of_the_axis() {
    let mut map = LearnedHashMap::<LinearModel>::new();
    for p in [Point::new(0, 5, 0), Point::new(1, 1, 0), Point::new(2, 3, 0), Point::new(3, 2, 9)] {
        assert_eq!(map.insert(p), None);
    }
    // an unfit model puts every point into the first bucket
    assert_eq!(
        map.range_search(&[0, 0], &[9, 9]),
        Some(vec![Point::new(1, 1, 0), Point::new(3, 2, 9), Point::new(2, 3, 0), Point::new(0, 5, 0)])
    );
    // one bucket, then two, then four as the table fills
    assert_eq!(map.len(), 4);
    assert_eq!(map.find_by_hash(0, &[3, 0]), Some(&Point::new(2, 3, 0)));
    assert_eq!(map.find_by_hash(1, &[3, 0]), None);
}

#[test]
fn a_copy_of_a_map_holds_the_same() {
    let mut data: Vec<Point> = scenario();
    let mut map = LearnedHashMap::<LinearModel>::new();
    map.batch_insert(&mut data).unwrap();
    let mut copy = map.clone();
    map.remove(&Point::new(0, 1, 1));
    assert_eq!(copy.get(&[1, 1]), Some(&Point::new(0, 1, 1)));
    assert_eq!(copy.items(), 5);
    assert_eq!(map.get(&[1, 1]), None);
}

#[test]
fn radius_range_gives_the_points_of_the_square() {
    let mut data: Vec<Point> = scenario();
    let mut map = LearnedHashMap::<LinearModel>::new();
    map.batch_insert(&mut data).unwrap();
    assert_eq!(
        map.radius_range(&[2, 1], 1),
        Some(vec![Point::new(0, 1, 1), Point::new(1, 2, 1), Point::new(3, 3, 2), Point::new(2, 3, 1)])
    );
    assert_eq!(map.radius_range(&[2, 1], 0), Some(vec![Point::new(1, 2, 1)]));
    assert_eq!(map.radius_range(&[2, 1], -1), None);
    assert_eq!(map.radius_range(&[8, 8], 2), None);
    // the square is held to the range of the coordinates
    assert_eq!(map.radius_range(&[i32::MAX, 1], i32::MAX).map(|v| v.len()), Some(5));
    assert_eq!(map.radius_range(&[i32::MIN, i32::MIN], i32::MAX), None);
}
