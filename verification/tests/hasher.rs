use lsph::{make_hash, make_hash_point, unhash, LearnedHasher, LinearModel, Ratio};

fn value(r: Ratio) -> f64 {
    r.num() as f64 / r.den() as f64
}

fn assert_delta(x: f64, y: f64, delta: f64) {
    assert!((x - y).abs() <= delta, "{} is not within {} of {}", x, delta, y);
}

fn line(slope: i128, intercept: i128, den: i128) -> LinearModel {
    LinearModel::with_line(Ratio::new(slope, den).unwrap(), Ratio::new(intercept, den).unwrap())
        .unwrap()
}

#[test]
fn hasher_hasher_with_empty_model() {
    let mut hasher: LearnedHasher<LinearModel> = LearnedHasher::new();
    hasher.write(&10);
    assert_eq!(0u64, hasher.finish());
}

#[test]
fn mod_hasher_with_empty_model() {
    let mut hasher: LearnedHasher<LinearModel> = LearnedHasher::default();
    hasher.write(&10);
    assert_eq!(0u64, hasher.finish());
    assert!(hasher.sort_by_x());
}

// Coordinates are in halves here: 10.5 is 21, and 3 x + 2 is 3/2 x' + 2.
#[test]
fn hasher_unhash() {
    let mut hasher: LearnedHasher<LinearModel> = LearnedHasher::with_model(line(3, 4, 2));
    hasher.write(&21);
    assert_eq!(33u64, hasher.finish());
    assert_delta(10.33, value(hasher.unwrite(33u64).unwrap()) / 2., 0.01);
}

#[test]
fn mod_unhash() {
    let mut hasher: LearnedHasher<LinearModel> = LearnedHasher::with_model(line(3, 4, 2));
    assert_eq!(33u64, make_hash(&mut hasher, &21));
    let x = unhash(&mut hasher, 33u64).unwrap();
    assert_eq!((x.num(), x.den()), (62, 3));
}

#[test]
fn test_hash() {
    let mut hasher: LearnedHasher<LinearModel> = LearnedHasher::with_model(line(3, 2, 1));
    hasher.write(&3);
    assert_eq!(hasher.finish(), 11u64);
}

#[test]
fn hashes_are_held_to_the_scalar_range() {
    let mut hasher: LearnedHasher<LinearModel> = LearnedHasher::with_model(line(4, -8, 1));
    assert_eq!(make_hash(&mut hasher, &1), 0);
    assert_eq!(make_hash(&mut hasher, &2), 0);
    assert_eq!(make_hash(&mut hasher, &3), 4);
    assert_eq!(make_hash(&mut hasher, &i32::MIN), 0);
    assert_eq!(make_hash(&mut hasher, &i32::MAX), i32::MAX as u64);
    // the floor, not the truncation, of a negative estimate
    let mut halves: LearnedHasher<LinearModel> = LearnedHasher::with_model(line(1, 3, 2));
    assert_eq!(make_hash(&mut halves, &-3), 0);
    assert_eq!(make_hash(&mut halves, &-2), 0);
    assert_eq!(make_hash(&mut halves, &0), 1);
}

#[test]
fn the_hasher_takes_the_coordinate_of_its_axis() {
    let mut hasher: LearnedHasher<LinearModel> = LearnedHasher::with_model(line(1, 0, 1));
    assert_eq!(make_hash_point(&mut hasher, &[3, 8]), 3);
    hasher.set_sort_by_x(false);
    assert!(!hasher.sort_by_x());
    assert_eq!(make_hash_point(&mut hasher, &[3, 8]), 8);
    assert_eq!(hasher.finish(), 8);
}

#[test]
fn unhash_has_no_coordinate_beyond_the_scalar_range() {
    let mut hasher: LearnedHasher<LinearModel> = LearnedHasher::with_model(line(1, 0, 1));
    let x = unhash(&mut hasher, i32::MAX as u64).unwrap();
    assert_eq!((x.num(), x.den()), (i32::MAX as i128, 1));
    assert!(unhash(&mut hasher, i32::MAX as u64 + 1).is_none());
    let mut level: LearnedHasher<LinearModel> = LearnedHasher::new();
    assert!(unhash(&mut level, 1).is_none());
}
