use lsph::{Distance, Euclidean, LearnedHashMap, LinearModel, Point};
use rand::{Rng, SeedableRng};
use rand::rngs::SmallRng;

const SEED: &[u8; 32] = b"wPYxAkIiHcEmSBAxQFoXFrpYToCe1B71";

fn random_points(num_points: usize, side: i32, seed: &[u8; 32]) -> Vec<Point> {
    let mut rng = SmallRng::from_seed(*seed);
    let mut result = Vec::with_capacity(num_points);
    for id in 0..num_points {
        let x: f64 = rng.random();
        let y: f64 = rng.random();
        result.push(Point::new(id, (x * side as f64) as i32, (y * side as f64) as i32));
    }
    result
}

fn places(points: &[Point]) -> Vec<(i32, i32)> {
    let mut all: Vec<(i32, i32)> = points.iter().map(|p| (p.x(), p.y())).collect();
    all.sort();
    all.dedup();
    all
}

fn held(map: &LearnedHashMap<LinearModel>) -> Vec<Point> {
    let mut walk = map.iter();
    let mut all = Vec::new();
    while let Some(p) = walk.next() {
        all.push(*p);
    }
    all
}

// A map that was trained on the points and holds them: its model rises.
fn trained_map(points: &[Point]) -> LearnedHashMap<LinearModel> {
    let mut map = LearnedHashMap::<LinearModel>::new();
    map.batch_insert(&mut points.to_vec()).unwrap();
    assert!(map.hasher().model.coefficient().num() > 0);
    map
}

#[test]
fn round_trip_of_single_insertions() {
    let points = random_points(300, 1000, SEED);
    let mut map = LearnedHashMap::<LinearModel>::new();
    for p in &points {
        map.insert(*p);
    }
    for p in &points {
        let found = map.get(&[p.x(), p.y()]).unwrap();
        assert!(found.same_place(p));
    }
    // the last point that was put in at a place is the one that is found
    let mut last_at = std::collections::HashMap::new();
    for p in &points {
        last_at.insert((p.x(), p.y()), *p);
    }
    for (place, p) in &last_at {
        assert_eq!(map.get(&[place.0, place.1]), Some(p));
    }
    assert_eq!(map.items(), last_at.len());
}

#[test]
fn round_trip_of_a_batch() {
    let points = random_points(500, 100000, SEED);
    let mut batch = points.clone();
    let mut map = LearnedHashMap::<LinearModel>::new();
    map.batch_insert(&mut batch).unwrap();
    for p in &points {
        let found = map.get(&[p.x(), p.y()]).unwrap();
        assert_eq!((found.x(), found.y()), (p.x(), p.y()));
    }
    // the batch comes back ranked, and the ranks are the identifiers
    for (rank, p) in batch.iter().enumerate() {
        assert_eq!(p.id(), rank);
        assert_eq!(map.get(&[p.x(), p.y()]).map(|q| (q.x(), q.y())), Some((p.x(), p.y())));
    }
    assert_eq!(places(&batch), places(&points));
}

#[test]
fn a_second_point_at_a_place_replaces_the_first() {
    let mut map = LearnedHashMap::<LinearModel>::new();
    assert_eq!(map.insert(Point::new(1, 4, 4)), None);
    assert_eq!(map.insert(Point::new(2, 5, 5)), None);
    assert_eq!(map.items(), 2);
    assert_eq!(map.insert(Point::new(3, 4, 4)), Some(Point::new(1, 4, 4)));
    assert_eq!(map.items(), 2);
    assert_eq!(map.get(&[4, 4]), Some(&Point::new(3, 4, 4)));
    assert_eq!(map.insert(Point::new(3, 4, 4)), Some(Point::new(3, 4, 4)));
    assert_eq!(map.items(), 2);
    // and in a trained map
    let mut batch = vec![Point::new(0, 1, 9), Point::new(0, 2, 8), Point::new(0, 3, 7)];
    map.batch_insert(&mut batch).unwrap();
    assert_eq!(map.items(), 5);
    assert_eq!(map.insert(Point::new(77, 2, 8)), Some(Point::new(1, 2, 8)));
    assert_eq!(map.items(), 5);
    assert_eq!(map.get(&[2, 8]), Some(&Point::new(77, 2, 8)));
}

#[test]
fn range_search_gives_the_points_of_the_box() {
    let points = random_points(400, 1000, SEED);
    let mut map = trained_map(&points);
    let boxes =
        [([0, 0], [1000, 1000]), ([100, 200], [300, 900]), ([500, 500], [510, 510]), ([990, 0], [2000, 50]), ([-50, -50], [20, 2000]), ([300, 300], [200, 400])];
    for (bottom_left, top_right) in boxes {
        let mut expected: Vec<(i32, i32)> = places(&points)
            .into_iter()
            .filter(|p| {
                bottom_left[0] <= p.0
                    && p.0 <= top_right[0]
                    && bottom_left[1] <= p.1
                    && p.1 <= top_right[1]
            })
            .collect();
        expected.sort();
        match map.range_search(&bottom_left, &top_right) {
            Some(found) => {
                let mut got: Vec<(i32, i32)> = found.iter().map(|p| (p.x(), p.y())).collect();
                got.sort();
                assert_eq!(got, expected);
            },
            None => assert!(expected.is_empty()),
        }
    }
}

#[test]
fn nearest_neighbor_is_the_nearest_point() {
    let points = random_points(600, 10000, SEED);
    let mut map = trained_map(&points);
    // queries inside the data and far outside of it
    let mut queries: Vec<[i32; 2]> =
        random_points(60, 10000, b"4KbTVjPT4DXSwWAsQM5dkWWywPKZRfCX").iter().map(|p| [p.x(), p.y()]).collect();
    queries.extend([
        [-100000, 5000],
        [200000, 5000],
        [5000, -300000],
        [5000, 400000],
        [i32::MIN, i32::MIN],
        [i32::MAX, i32::MAX],
        [i32::MIN, i32::MAX],
        [0, 0],
    ]);
    for query in queries {
        let least =
            points.iter().map(|p| Euclidean::distance(&query, &[p.x(), p.y()])).min().unwrap();
        let nearest = map.nearest_neighbor(&query).unwrap();
        assert_eq!(Euclidean::distance(&query, &[nearest.x(), nearest.y()]), least);
        assert_eq!(map.get(&[nearest.x(), nearest.y()]), Some(&nearest));
    }
}

#[test]
fn nearest_neighbor_is_exact_over_a_falling_line() {
    // ranks that fall as the coordinates rise give a line that falls
    let mut map = LearnedHashMap::<LinearModel>::new();
    let xs: Vec<i32> = (0..50).map(|i| 20 * i).collect();
    let ys: Vec<i32> = (0..50).rev().collect();
    map.model_fit(&xs, &ys).unwrap();
    assert!(map.hasher().model.coefficient().num() < 0);
    let points: Vec<Point> =
        (0..50).map(|i| Point::new(i, 20 * i as i32, (i as i32 * 7) % 13)).collect();
    for p in &points {
        map.insert(*p);
    }
    // the buckets do not follow the order of the coordinates
    assert_eq!(map.range_search(&[0, 0], &[1000, 13]), None);
    for query in [[0, 0], [500, 5], [1001, 12], [-4000, 3], [333, -70]] {
        let least =
            points.iter().map(|p| Euclidean::distance(&query, &[p.x(), p.y()])).min().unwrap();
        let nearest = map.nearest_neighbor(&query).unwrap();
        assert_eq!(Euclidean::distance(&query, &[nearest.x(), nearest.y()]), least);
    }
}

#[test]
fn a_fit_moves_the_stored_points_to_their_new_buckets() {
    let mut map = LearnedHashMap::<LinearModel>::new();
    let points: Vec<Point> = (0..30).map(|i| Point::new(i, 3 * i as i32, i as i32)).collect();
    for p in &points {
        map.insert(*p);
    }
    // all in the first bucket so far
    assert_eq!(map.find_by_hash(0, &[15, 5]), Some(&points[5]));
    let xs: Vec<i32> = points.iter().map(|p| p.x()).collect();
    let pairs: Vec<(i32, i32)> = points.iter().map(|p| (p.x(), p.id() as i32)).collect();
    let ys: Vec<i32> = (0..30).collect();
    map.model_fit(&xs, &ys).unwrap();
    assert_eq!(map.items(), 30);
    assert_eq!(map.find_by_hash(0, &[15, 5]), None);
    assert_eq!(map.find_by_hash(5, &[15, 5]), Some(&points[5]));
    for p in &points {
        assert_eq!(map.get(&[p.x(), p.y()]), Some(p));
    }
    assert_eq!(map.range_search(&[30, 0], &[40, 99]).map(|v| v.len()), Some(4));
    let mut other = map.clone();
    other.model_fit_tuple(&pairs).unwrap();
    assert_eq!(other.find_by_hash(7, &[21, 7]), Some(&points[7]));
}

#[test]
fn one_by_one_or_as_a_batch_gives_the_same_places() {
    let points = random_points(700, 5000, SEED);
    let mut one_by_one = LearnedHashMap::<LinearModel>::new();
    for p in &points {
        one_by_one.insert(*p);
    }
    // the table has grown several times
    assert!(one_by_one.len() >= 512);
    let mut as_batch = LearnedHashMap::<LinearModel>::new();
    as_batch.batch_insert(&mut points.clone()).unwrap();
    assert_eq!(places(&held(&one_by_one)), places(&held(&as_batch)));
    assert_eq!(places(&held(&one_by_one)), places(&points));
    assert_eq!(one_by_one.items(), as_batch.items());
    assert_eq!(held(&one_by_one).len(), one_by_one.items());
}

#[test]
fn a_walk_gives_the_points_bucket_after_bucket() {
    let mut batch =
        vec![Point::new(0, 5, 1), Point::new(0, 1, 1), Point::new(0, 3, 2), Point::new(0, 3, 1)];
    let mut map = LearnedHashMap::<LinearModel>::new();
    map.batch_insert(&mut batch).unwrap();
    let mut walk = map.iter();
    let mut seen = Vec::new();
    while let Some(p) = walk.next() {
        seen.push(*p);
    }
    assert_eq!(walk.next(), None);
    let mut sorted = seen.clone();
    sorted.sort_by_key(|p| p.x());
    assert_eq!(seen.len(), 4);
    assert_eq!(seen.iter().map(|p| p.x()).collect::<Vec<_>>(), sorted.iter().map(|p| p.x()).collect::<Vec<_>>());
    // the walk that takes the points out gives each bucket from its end
    let mut unfit = LearnedHashMap::<LinearModel>::new();
    for p in [Point::new(0, 5, 1), Point::new(1, 1, 1), Point::new(2, 3, 2)] {
        unfit.insert(p);
    }
    let mut taking = unfit.into_iter();
    assert_eq!(taking.next(), Some(Point::new(0, 5, 1)));
    assert_eq!(taking.next(), Some(Point::new(2, 3, 2)));
    assert_eq!(taking.next(), Some(Point::new(1, 1, 1)));
    assert_eq!(taking.next(), None);
    assert_eq!(taking.next(), None);
}

#[test]
fn a_batch_into_a_map_with_points_keeps_them() {
    let mut map = LearnedHashMap::<LinearModel>::new();
    let early = [Point::new(10, -40, 3), Point::new(11, 900, 4), Point::new(12, 17, 17)];
    for p in early {
        map.insert(p);
    }
    let mut batch: Vec<Point> = (0..40).map(|i| Point::new(0, 3 * i, 100 - i)).collect();
    map.batch_insert(&mut batch).unwrap();
    assert_eq!(map.items(), 43);
    for p in early {
        assert_eq!(map.get(&[p.x(), p.y()]), Some(&p));
    }
    for p in &batch {
        assert_eq!(map.get(&[p.x(), p.y()]), Some(p));
    }
    assert_eq!(map.nearest_neighbor(&[901, 4]), Some(Point::new(11, 900, 4)));
    assert_eq!(map.nearest_neighbor(&[-50, 0]), Some(Point::new(10, -40, 3)));
}

#[test]
fn a_large_batch_spreads_over_the_table() {
    let points = random_points(100_000, 1_000_000, SEED);
    let mut map = trained_map(&points);
    assert_eq!(map.items(), places(&points).len());
    assert!(map.len() >= 100_000);
    for p in points.iter().step_by(997) {
        assert!(map.get(&[p.x(), p.y()]).unwrap().same_place(p));
        let nearest = map.nearest_neighbor(&[p.x() + 1, p.y() - 1]).unwrap();
        assert!(Euclidean::distance(&[p.x() + 1, p.y() - 1], &[nearest.x(), nearest.y()]) <= 2);
    }
    let found = map.range_search(&[0, 0], &[1000, 1_000_000]).unwrap();
    let expected = places(&points).into_iter().filter(|p| p.0 <= 1000).count();
    assert_eq!(found.len(), expected);
}

#[test]
fn of_equally_near_points_the_first_on_the_way_is_given() {
    // an unfit model keeps all points in the first bucket, in the order of x
    let mut unfit = LearnedHashMap::<LinearModel>::new();
    for p in [Point::new(0, 1, 0), Point::new(1, -1, 0), Point::new(2, 0, 1), Point::new(3, 0, -1)] {
        unfit.insert(p);
    }
    assert_eq!(unfit.nearest_neighbor(&[0, 0]), Some(Point::new(1, -1, 0)));
    // a rising line: one point in each bucket
    let mut batch: Vec<Point> = (0..9).map(|i| Point::new(0, 10 * i, 0)).collect();
    let mut map = LearnedHashMap::<LinearModel>::new();
    map.batch_insert(&mut batch).unwrap();
    // between two points: the one in the bucket of the query
    assert_eq!(map.nearest_neighbor(&[45, 0]), Some(Point::new(4, 40, 0)));
    // equally far from the bucket before and the bucket after: the one before
    assert_eq!(map.nearest_neighbor(&[40, 10]), Some(Point::new(4, 40, 0)));
    map.remove(&Point::new(0, 40, 0));
    assert_eq!(map.nearest_neighbor(&[40, 0]), Some(Point::new(3, 30, 0)));
    map.remove(&Point::new(0, 30, 0));
    assert_eq!(map.nearest_neighbor(&[40, 0]), Some(Point::new(5, 50, 0)));
}

#[test]
fn a_range_result_lists_each_point_once_and_ascends() {
    let points = random_points(800, 300, SEED);
    let mut map = trained_map(&points);
    let by_x = map.hasher().sort_by_x();
    for (bottom_left, top_right) in [([0, 0], [300, 300]), ([50, 20], [120, 280]), ([200, 0], [210, 300])] {
        let found = map.range_search(&bottom_left, &top_right).unwrap();
        let keys: Vec<i32> = found.iter().map(|p| if by_x { p.x() } else { p.y() }).collect();
        let mut ordered = keys.clone();
        ordered.sort();
        assert_eq!(keys, ordered);
        let mut seen = places(&found);
        seen.dedup();
        assert_eq!(seen.len(), found.len());
    }
}
