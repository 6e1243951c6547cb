use hanower::{select_per_bucket, ByBucket, Extremum, Interval, Sample};

fn range(low: f64, high: f64, count: u64) -> Interval {
    Interval::new(low.to_bits(), high.to_bits(), count).unwrap()
}

/// `value` with its place on the logarithmic scale of `interval`.
fn sample(interval: &Interval, value: i64) -> Sample {
    let low = f64::from_bits(interval.low());
    let high = f64::from_bits(interval.high());
    let number = value as f64;
    let position =
        f64::ln(number - low + 1.0) / f64::ln(high - low + 1.0) * interval.count() as f64;
    Sample {
        value,
        position: position.to_bits(),
    }
}

fn samples(interval: &Interval, values: &[i64]) -> Vec<Sample> {
    values.iter().map(|&value| sample(interval, value)).collect()
}

/// The bucket of `value`, computed without the library.
fn bucket_of(interval: &Interval, value: i64) -> Option<usize> {
    let low = f64::from_bits(interval.low());
    let high = f64::from_bits(interval.high());
    let number = value as f64;
    if number < low || number >= high {
        return None;
    }
    let bucket = f64::ln(number - low + 1.0) / f64::ln(high - low + 1.0) * interval.count() as f64;
    Some(bucket.trunc() as usize)
}

#[test]
fn scenario_one_maximum_per_occupied_bucket() {
    let interval = range(10.0, 100.0, 10);
    let input = samples(&interval, &[20, 40, 100, 60]);
    // 20 falls into bucket 5, 40 into 7, 60 into 8, and 100 into none.
    assert_eq!(bucket_of(&interval, 20), Some(5));
    assert_eq!(bucket_of(&interval, 40), Some(7));
    assert_eq!(bucket_of(&interval, 60), Some(8));
    assert_eq!(bucket_of(&interval, 100), None);
    assert_eq!(ByBucket::new(interval).select_max(&input), vec![20, 40, 60]);
    assert_eq!(ByBucket::new(interval).select_min(&input), vec![20, 40, 60]);
}

#[test]
fn result_is_in_bucket_order_not_input_order() {
    let interval = range(10.0, 100.0, 10);
    let input = samples(&interval, &[60, 100, 40, 20]);
    assert_eq!(ByBucket::new(interval).select_max(&input), vec![20, 40, 60]);
    assert_eq!(ByBucket::new(interval).select_min(&input), vec![20, 40, 60]);
}

#[test]
fn maximum_and_minimum_of_shared_buckets() {
    let interval = range(10.0, 100.0, 10);
    let values = [20, 22, 45, 40, 60, 21, 41, 99, 10, 9, 100, 1000, -3];
    for &value in &[20, 21, 22] {
        assert_eq!(bucket_of(&interval, value), Some(5));
    }
    for &value in &[40, 41, 45] {
        assert_eq!(bucket_of(&interval, value), Some(7));
    }
    assert_eq!(bucket_of(&interval, 10), Some(0));
    assert_eq!(bucket_of(&interval, 99), Some(9));
    let input = samples(&interval, &values);
    let by_bucket = ByBucket::new(interval);
    assert_eq!(by_bucket.select_max(&input), vec![10, 22, 45, 60, 99]);
    assert_eq!(by_bucket.select_min(&input), vec![10, 20, 40, 60, 99]);
}

#[test]
fn selection_matches_a_plain_reference() {
    let interval = range(-50.0, 5000.0, 13);
    let mut values: Vec<i64> = Vec::new();
    let mut seed: i64 = 12345;
    for _ in 0..500 {
        seed = (seed * 1103515245 + 12345) % 2147483648;
        values.push(seed % 6000 - 500);
    }
    let mut highest: Vec<Option<i64>> = vec![None; 13];
    let mut lowest: Vec<Option<i64>> = vec![None; 13];
    for &value in &values {
        if let Some(slot) = bucket_of(&interval, value) {
            highest[slot] = Some(highest[slot].map_or(value, |held| held.max(value)));
            lowest[slot] = Some(lowest[slot].map_or(value, |held| held.min(value)));
        }
    }
    let highest: Vec<i64> = highest.into_iter().flatten().collect();
    let lowest: Vec<i64> = lowest.into_iter().flatten().collect();
    let input = samples(&interval, &values);
    assert_eq!(ByBucket::new(interval).select_max(&input), highest);
    assert_eq!(ByBucket::new(interval).select_min(&input), lowest);
    assert!(highest.len() <= 13);
}

#[test]
fn nothing_selected_from_nothing() {
    let interval = range(10.0, 100.0, 10);
    assert_eq!(ByBucket::new(interval).select_max(&[]), Vec::<i64>::new());
    assert_eq!(ByBucket::new(interval).select_min(&[]), Vec::<i64>::new());
}

#[test]
fn values_outside_the_range_are_dropped() {
    let interval = range(10.0, 100.0, 10);
    let input = samples(&interval, &[9, 100, 101, -1, i64::MAX, i64::MIN]);
    assert_eq!(ByBucket::new(interval).select_max(&input), Vec::<i64>::new());
    assert_eq!(ByBucket::new(interval).select_min(&input), Vec::<i64>::new());
}

#[test]
fn equal_values_leave_one() {
    let interval = range(10.0, 100.0, 10);
    let input = samples(&interval, &[20, 20, 20]);
    assert_eq!(ByBucket::new(interval).select_max(&input), vec![20]);
    assert_eq!(ByBucket::new(interval).select_min(&input), vec![20]);
}

#[test]
fn a_position_beyond_the_buckets_is_dropped() {
    let interval = range(10.0, 100.0, 10);
    let input = [
        Sample { value: 20, position: 10.0f64.to_bits() },
        Sample { value: 21, position: 1e30f64.to_bits() },
        Sample { value: 22, position: f64::INFINITY.to_bits() },
        Sample { value: 23, position: 9.5f64.to_bits() },
        Sample { value: 24, position: 0.5f64.to_bits() },
    ];
    assert_eq!(
        select_per_bucket(&interval, &input, Extremum::Max),
        vec![24, 23]
    );
}

#[test]
fn the_value_decides_the_range_test_and_the_position_the_bucket() {
    let interval = range(10.0, 100.0, 10);
    // A value outside the range has no bucket, whatever its position says.
    let input = [
        Sample { value: 100, position: 3.0f64.to_bits() },
        Sample { value: 9, position: 3.0f64.to_bits() },
        Sample { value: 99, position: 3.0f64.to_bits() },
        Sample { value: 10, position: 3.9f64.to_bits() },
    ];
    assert_eq!(select_per_bucket(&interval, &input, Extremum::Max), vec![99]);
    assert_eq!(select_per_bucket(&interval, &input, Extremum::Min), vec![10]);
}

#[test]
fn policies() {
    assert!(Extremum::Max.wins(5, None));
    assert!(Extremum::Min.wins(5, None));
    assert!(Extremum::Max.wins(5, Some(4)));
    assert!(!Extremum::Max.wins(5, Some(5)));
    assert!(!Extremum::Max.wins(5, Some(6)));
    assert!(Extremum::Min.wins(5, Some(6)));
    assert!(!Extremum::Min.wins(5, Some(5)));
    assert!(!Extremum::Min.wins(5, Some(4)));
}

#[test]
fn negative_values_in_a_negative_range() {
    let interval = range(-11000.0, -1200.0, 16);
    let values = [-11000, -10999, -5000, -1201, -1200, -6000, -5900, 0];
    let input = samples(&interval, &values);
    let mut highest: Vec<Option<i64>> = vec![None; 16];
    for &value in &values {
        if let Some(slot) = bucket_of(&interval, value) {
            highest[slot] = Some(highest[slot].map_or(value, |held| held.max(value)));
        }
    }
    let highest: Vec<i64> = highest.into_iter().flatten().collect();
    assert_eq!(ByBucket::new(interval).select_max(&input), highest);
    assert_eq!(highest.first(), Some(&-11000));
}
