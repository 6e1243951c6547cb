use hanower::binary64::{ONE, SIGN, ZERO};
use hanower::{find_fenceposts, Breakpoint, Interval, IntervalError, IntervalIter};

/// The place of `number` on the logarithmic scale of `interval`.
fn position(interval: &Interval, number: f64) -> f64 {
    let low = f64::from_bits(interval.low());
    let high = f64::from_bits(interval.high());
    f64::ln(number - low + 1.0) / f64::ln(high - low + 1.0) * interval.count() as f64
}

fn bucket(interval: &Interval, number: f64) -> Option<usize> {
    interval.bucket(number.to_bits(), position(interval, number).to_bits())
}

/// The value of a fencepost of `interval`.
fn evaluate(interval: &Interval, fencepost: Breakpoint) -> f64 {
    let low = f64::from_bits(interval.low());
    let high = f64::from_bits(interval.high());
    match fencepost {
        Breakpoint::Floor(bits) => f64::from_bits(bits),
        Breakpoint::Formula(index) => {
            let nlog = (high - low + 1.0).ln() / interval.count() as f64;
            let expo = (nlog * index as f64).exp();
            expo + low - 1.0
        }
    }
}

fn new(low: f64, high: f64, count: u64) -> Result<Interval, IntervalError> {
    Interval::new(low.to_bits(), high.to_bits(), count)
}

fn test_data() -> Vec<(Interval, Vec<i64>)> {
    vec![
        (new(1.0, 16.0, 4).unwrap(), vec![2, 4, 8, 16]),
        (
            new(100.0, 1000.0, 15).unwrap(),
            vec![
                101, 101, 103, 105, 109, 114, 123, 137, 158, 192, 246, 330, 463, 671, 1000,
            ],
        ),
        (
            new(3.0, 72.0, 9).unwrap(),
            vec![4, 5, 6, 9, 13, 19, 29, 46, 72],
        ),
        (new(-19.0, 12.0, 3).unwrap(), vec![-17, -10, 12]),
        (
            new(-11000.0, -1200.0, 16).unwrap(),
            vec![
                -10999, -10998, -10995, -10991, -10983, -10970, -10945, -10902, -10825, -10689,
                -10446, -10016, -9252, -7894, -5483, -1200,
            ],
        ),
    ]
}

#[test]
fn start_after_end_err() {
    let args = new(10.0, 1.0, 5);

    // Assert that bad inputs lead to an error
    assert!(args.is_err());
}

#[test]
fn count_less_than_two_err() {
    let args = new(1.0, 10.0, 1);

    // Assert that a bad count leads to an error
    assert!(args.is_err());
}

#[test]
fn hanower_algorithm_iter() {
    // For each set of args and precomputed outputs
    for (args, expected_list) in test_data().into_iter() {
        // Generate the actual outputs
        let actual_list: Vec<f64> = args
            .intervals()
            .collect()
            .into_iter()
            .map(|fencepost| evaluate(&args, fencepost))
            .collect();

        for (idx, (&actual, &expected)) in actual_list.iter().zip(expected_list.iter()).enumerate()
        {
            // Round the actual item
            let rounded = actual.round() as i64;

            // Check that the rounded item matches the precomputed item
            assert_eq!(
                rounded, expected,
                "@{} => Expected {}, received {} ({})\nExpected Values | {:?}\nActual Values  | {:?}",
                idx, expected, rounded, actual, expected_list, actual_list
            );
        }

        // Assert the lists are the same length, if they aren't the actual data is wrong
        assert_eq!(actual_list.len(), expected_list.len());
    }
}

#[test]
fn hanower_algorithm_iter_back() {
    for (interval, expected_list) in test_data().into_iter() {
        let actual_list: IntervalIter = interval.intervals();

        let reversed: Vec<f64> = interval
            .intervals()
            .collect_rev()
            .into_iter()
            .map(|fencepost| evaluate(&interval, fencepost))
            .collect();
        assert_eq!(reversed.len(), expected_list.len());

        for (idx, (actual, &expected)) in
            reversed.into_iter().zip(expected_list.iter().rev()).enumerate()
        {
            // Round the actual item
            let rounded = actual.round() as i64;

            // Check that the rounded item matches the precomputed item
            assert_eq!(
                rounded, expected,
                "@{} => Expected {}, received {} ({})\nExpected Values | {:?}\nActual Values  | {:?}",
                idx, expected, rounded, actual, expected_list, actual_list
            );
        }

        assert_eq!(actual_list.len() as usize, expected_list.len());
    }
}

// tests the bucket method of Interval
#[test]
fn interval_bucket_method() {
    let data = vec![
        (new(1.0, 10.0, 5).unwrap(), 7.0, Some(4)),
        (new(30.0, 100.0, 10).unwrap(), 1000.0, None),
        (new(30.0, 100.0, 10).unwrap(), 0.0, None),
        (new(30.0, 100.0, 10).unwrap(), 10.0 * 10.0, None),
        (new(-100.0, 100.0, 10).unwrap(), 0.0, Some(8)),
        (new(-100.0, 100.0, 10).unwrap(), -100.0, Some(0)),
    ];

    for (interval, number, expected) in data {
        let actual = bucket(&interval, number);

        assert_eq!(expected, actual)
    }
}

#[test]
fn test_bucket() {
    let data = vec![
        (new(1.0, 10.0, 5).unwrap(), 8.0, Some(4)),
        (new(30.0, 100.0, 10).unwrap(), 1000.0, None),
        (new(30.0, 100.0, 10).unwrap(), 0.0, None),
        (new(30.0, 100.0, 10).unwrap(), 10.0 * 10.0, None),
        (new(-100.0, 100.0, 10).unwrap(), 0.0, Some(8)),
        (new(-100.0, 100.0, 10).unwrap(), -100.0, Some(0)),
    ];

    for (interval, number, expected) in data {
        let actual = bucket(&interval, number);

        assert_eq!(expected, actual)
    }
}

#[test]
fn construction_refuses_exactly_what_it_should() {
    let values = [
        -1e9,
        -100.0,
        -1.0,
        -0.0,
        0.0,
        0.5,
        1.0,
        10.0,
        1e300,
        f64::INFINITY,
        f64::NEG_INFINITY,
    ];
    for &low in &values {
        for &high in &values {
            for count in [0u64, 1, 2, 3, 1000, u64::MAX] {
                let made = new(low, high, count);
                if low >= high {
                    assert_eq!(made.err(), Some(IntervalError::InvalidRange));
                } else if count < 2 {
                    assert_eq!(made.err(), Some(IntervalError::LowCount(count)));
                } else {
                    let interval = made.unwrap();
                    assert_eq!(interval.low(), low.to_bits());
                    assert_eq!(interval.high(), high.to_bits());
                    assert_eq!(interval.count(), count);
                }
            }
        }
    }
}

#[test]
fn construction_tests_the_range_before_the_count() {
    assert_eq!(new(5.0, 5.0, 0).err(), Some(IntervalError::InvalidRange));
    assert_eq!(new(5.0, 4.0, 1).err(), Some(IntervalError::InvalidRange));
    assert_eq!(new(4.0, 5.0, 0).err(), Some(IntervalError::LowCount(0)));
    assert_eq!(new(4.0, 5.0, 1).err(), Some(IntervalError::LowCount(1)));
    assert!(new(4.0, 5.0, 2).is_ok());
}

#[test]
fn construction_with_equal_zeros_is_an_invalid_range() {
    assert_eq!(
        Interval::new(SIGN, ZERO, 4).err(),
        Some(IntervalError::InvalidRange)
    );
    assert_eq!(
        Interval::new(ZERO, SIGN, 4).err(),
        Some(IntervalError::InvalidRange)
    );
}

#[test]
fn construction_with_an_unordered_end_follows_the_comparison() {
    // `low >= high` is false when either side is not a number.
    assert!(new(f64::NAN, 1.0, 2).is_ok());
    assert!(new(1.0, f64::NAN, 2).is_ok());
    assert_eq!(
        new(f64::NAN, 1.0, 1).err(),
        Some(IntervalError::LowCount(1))
    );
}

#[test]
fn error_messages() {
    assert_eq!(
        IntervalError::LowCount(1).message(),
        "Invalid count. Ensure `number` value is >= 2 (was: 1)"
    );
    assert_eq!(
        IntervalError::LowCount(0).message(),
        "Invalid count. Ensure `number` value is >= 2 (was: 0)"
    );
    assert_eq!(
        IntervalError::InvalidRange.message(),
        "Invalid range. Ensure `start` value is less than `end`"
    );
}

#[test]
fn accessors_return_what_was_given() {
    let interval = new(-19.0, 12.0, 3).unwrap();
    assert_eq!(f64::from_bits(interval.low()), -19.0);
    assert_eq!(f64::from_bits(interval.high()), 12.0);
    assert_eq!(interval.count(), 3);
    let copy = interval;
    assert_eq!(copy.low(), interval.low());
}

#[test]
fn scenario_powers_of_two() {
    let interval = new(1.0, 16.0, 4).unwrap();
    let rounded: Vec<i64> = interval
        .intervals()
        .collect()
        .into_iter()
        .map(|fencepost| evaluate(&interval, fencepost).round() as i64)
        .collect();
    assert_eq!(rounded, vec![2, 4, 8, 16]);
}

#[test]
fn scenario_negative_floor() {
    let interval = new(-19.0, 12.0, 3).unwrap();
    let rounded: Vec<i64> = interval
        .intervals()
        .collect()
        .into_iter()
        .map(|fencepost| evaluate(&interval, fencepost).round() as i64)
        .collect();
    assert_eq!(rounded, vec![-17, -10, 12]);
}

#[test]
fn scenario_bucket_of_seven_and_eight() {
    let interval = new(1.0, 10.0, 5).unwrap();
    assert_eq!(bucket(&interval, 8.0), Some(4));
    assert_eq!(bucket(&interval, 7.0), Some(4));
    // ln(7) / ln(10) * 5 = 4.2254...
    let at_seven = position(&interval, 7.0);
    assert!((at_seven - 4.225490200071284).abs() < 1e-12);
    assert_eq!(interval.bucket(7.0f64.to_bits(), at_seven.to_bits()), Some(4));
}

#[test]
fn fencepost_values() {
    let interval = new(1.0, 16.0, 4).unwrap();
    assert_eq!(evaluate(&interval, Breakpoint::Floor(interval.low())), 1.0);
    assert!((evaluate(&interval, Breakpoint::Formula(2)) - 4.0).abs() < 1e-12);
    assert!((evaluate(&interval, Breakpoint::Formula(4)) - 16.0).abs() < 1e-12);
    let interval = new(-19.0, 12.0, 3).unwrap();
    assert_eq!(evaluate(&interval, Breakpoint::Floor(interval.low())), -19.0);
    assert!((evaluate(&interval, Breakpoint::Formula(1)) - -16.8251978960636).abs() < 1e-12);
    // ln(101) / ln(201) * 10 = 8.70..., which is bucket 8.
    let interval = new(-100.0, 100.0, 10).unwrap();
    assert!((position(&interval, 0.0) - 8.702348058147612).abs() < 1e-12);
}

#[test]
fn scenario_bucket_across_zero() {
    let interval = new(-100.0, 100.0, 10).unwrap();
    assert_eq!(bucket(&interval, -100.0), Some(0));
    assert_eq!(bucket(&interval, 0.0), Some(8));
}

#[test]
fn bucket_of_the_floor_is_the_first() {
    for (low, high, count) in [
        (1.0, 16.0, 4u64),
        (-19.0, 12.0, 3),
        (0.0, 1e-300, 2),
        (-1e300, 1e300, 7),
        (f64::NEG_INFINITY, 0.0, 2),
    ] {
        let interval = new(low, high, count).unwrap();
        assert_eq!(bucket(&interval, low), Some(0), "{} {}", low, high);
        assert_eq!(interval.bucket(low.to_bits(), ZERO), Some(0));
    }
}

#[test]
fn bucket_is_unassigned_outside_the_range() {
    let interval = new(30.0, 100.0, 10).unwrap();
    for number in [
        29.999,
        0.0,
        -5.0,
        f64::NEG_INFINITY,
        100.0,
        100.001,
        1e9,
        f64::INFINITY,
    ] {
        assert_eq!(bucket(&interval, number), None, "{}", number);
        // Whatever position comes with it.
        assert_eq!(interval.bucket(number.to_bits(), ONE), None);
        assert_eq!(interval.bucket(number.to_bits(), 3.5f64.to_bits()), None);
    }
}

#[test]
fn bucket_truncates_the_position_it_is_given() {
    let interval = new(30.0, 100.0, 10).unwrap();
    let inside = 50.0f64.to_bits();
    assert_eq!(interval.bucket(inside, 0.0f64.to_bits()), Some(0));
    assert_eq!(interval.bucket(inside, 0.999f64.to_bits()), Some(0));
    assert_eq!(interval.bucket(inside, 1.0f64.to_bits()), Some(1));
    assert_eq!(interval.bucket(inside, 9.99f64.to_bits()), Some(9));
    assert_eq!(interval.bucket(inside, f64::NAN.to_bits()), Some(0));
    assert_eq!(interval.bucket(inside, (-2.0f64).to_bits()), Some(0));
    // 30 itself is inside, 100 is not.
    assert_eq!(interval.bucket(30.0f64.to_bits(), 2.5f64.to_bits()), Some(2));
    assert_eq!(interval.bucket(100.0f64.to_bits(), 2.5f64.to_bits()), None);
}

#[test]
fn bucket_asked_twice_answers_the_same() {
    let interval = new(1.0, 10.0, 5).unwrap();
    for number in [0.0, 1.0, 2.0, 3.5, 7.0, 8.0, 9.999, 10.0, 11.0] {
        assert_eq!(bucket(&interval, number), bucket(&interval, number));
    }
}

#[test]
fn every_inside_number_has_a_bucket_below_count() {
    let interval = new(1.0, 10.0, 5).unwrap();
    let mut number = 1.0;
    while number < 10.0 {
        let found = bucket(&interval, number).unwrap();
        assert!(found < 5, "{} in {}", number, found);
        number += 0.01;
    }
}

#[test]
fn full_sequence_starts_at_low_and_ascends_to_high() {
    for (interval, _) in test_data() {
        let low = f64::from_bits(interval.low());
        let high = f64::from_bits(interval.high());
        let all: Vec<Breakpoint> = interval.iter().collect();
        assert_eq!(all.len() as u64, interval.count() + 1);
        assert_eq!(all[0], Breakpoint::Floor(interval.low()));
        for (index, &fencepost) in all.iter().enumerate().skip(1) {
            assert_eq!(fencepost, Breakpoint::Formula(index as u64));
        }
        let values: Vec<f64> = all.iter().map(|&f| evaluate(&interval, f)).collect();
        assert_eq!(values[0], low);
        for pair in values.windows(2) {
            assert!(pair[0] < pair[1], "{:?}", values);
        }
        let last = values[values.len() - 1];
        assert!((last - high).abs() <= 1e-9 * high.abs().max(1.0), "{} {}", last, high);
    }
}

#[test]
fn sequence_lengths() {
    for count in [2u64, 3, 4, 10, 257] {
        let interval = new(1.0, 1000.0, count).unwrap();
        assert_eq!(interval.iter().len(), count as u128 + 1);
        assert_eq!(interval.intervals().len(), count as u128);
        assert_eq!(interval.iter().collect().len() as u64, count + 1);
        assert_eq!(interval.intervals().collect().len() as u64, count);
        assert_eq!(interval.iter().collect_rev().len() as u64, count + 1);
        assert_eq!(interval.intervals().collect_rev().len() as u64, count);
    }
}

#[test]
fn length_counts_down_with_every_pull() {
    let interval = new(1.0, 16.0, 4).unwrap();
    let mut walk = interval.iter();
    assert_eq!(walk.len(), 5);
    assert_eq!(walk.next(), Some(Breakpoint::Floor(1.0f64.to_bits())));
    assert_eq!(walk.len(), 4);
    assert_eq!(walk.next_back(), Some(Breakpoint::Formula(4)));
    assert_eq!(walk.len(), 3);
    assert_eq!(walk.next(), Some(Breakpoint::Formula(1)));
    assert_eq!(walk.next_back(), Some(Breakpoint::Formula(3)));
    assert_eq!(walk.len(), 1);
    assert_eq!(walk.next_back(), Some(Breakpoint::Formula(2)));
    assert_eq!(walk.len(), 0);
    assert_eq!(walk.next(), None);
    assert_eq!(walk.next_back(), None);
    assert_eq!(walk.next(), None);
    assert_eq!(walk.len(), 0);
}

#[test]
fn back_reaches_the_floor() {
    let interval = new(-19.0, 12.0, 3).unwrap();
    let mut walk = interval.iter();
    assert_eq!(walk.next_back(), Some(Breakpoint::Formula(3)));
    assert_eq!(walk.next_back(), Some(Breakpoint::Formula(2)));
    assert_eq!(walk.next_back(), Some(Breakpoint::Formula(1)));
    assert_eq!(
        walk.next_back(),
        Some(Breakpoint::Floor((-19.0f64).to_bits()))
    );
    assert_eq!(walk.next_back(), None);
    assert_eq!(walk.next(), None);
}

#[test]
fn intervals_skip_the_floor_from_both_ends() {
    let interval = new(-19.0, 12.0, 3).unwrap();
    let mut walk = interval.intervals();
    assert_eq!(walk.next_back(), Some(Breakpoint::Formula(3)));
    assert_eq!(walk.next_back(), Some(Breakpoint::Formula(2)));
    assert_eq!(walk.next_back(), Some(Breakpoint::Formula(1)));
    assert_eq!(walk.next_back(), None);
    assert_eq!(
        interval.intervals().collect(),
        vec![
            Breakpoint::Formula(1),
            Breakpoint::Formula(2),
            Breakpoint::Formula(3)
        ]
    );
}

#[test]
fn back_is_the_reverse_of_front() {
    for count in [2u64, 3, 4, 5, 16, 100, 1001] {
        let interval = new(-7.0, 900.0, count).unwrap();
        let front = interval.iter().collect();
        let mut back = interval.iter().collect_rev();
        back.reverse();
        assert_eq!(front, back);

        let front = interval.intervals().collect();
        let mut back = interval.intervals().collect_rev();
        back.reverse();
        assert_eq!(front, back);
    }
}

#[test]
fn pulls_from_both_ends_meet_without_overlap() {
    let interval = new(1.0, 1000.0, 9).unwrap();
    let mut walk = interval.iter();
    let mut front = Vec::new();
    let mut back = Vec::new();
    let mut turn = 0;
    loop {
        let pulled = if turn % 3 == 0 {
            walk.next_back().map(|f| back.push(f))
        } else {
            walk.next().map(|f| front.push(f))
        };
        if pulled.is_none() {
            break;
        }
        turn += 1;
    }
    back.reverse();
    front.extend(back);
    assert_eq!(front, interval.iter().collect());
}

#[test]
fn a_cloned_walk_goes_its_own_way() {
    let interval = new(1.0, 16.0, 4).unwrap();
    let mut walk = interval.iter();
    walk.next();
    let mut copy = walk.clone();
    assert_eq!(copy.next(), Some(Breakpoint::Formula(1)));
    assert_eq!(copy.len(), 3);
    assert_eq!(walk.len(), 4);
    assert_eq!(walk.next(), Some(Breakpoint::Formula(1)));
}

#[test]
fn the_largest_count_can_be_walked() {
    let interval = new(0.0, 1.0, u64::MAX).unwrap();
    let mut walk = interval.iter();
    assert_eq!(walk.len(), 1u128 << 64);
    assert_eq!(walk.next_back(), Some(Breakpoint::Formula(u64::MAX)));
    assert_eq!(walk.next(), Some(Breakpoint::Floor(0)));
    assert_eq!(walk.next(), Some(Breakpoint::Formula(1)));
    assert_eq!(walk.len(), (1u128 << 64) - 3);
    assert_eq!(interval.intervals().len(), u64::MAX as u128);
}

#[test]
fn coarsest_fenceposts_are_the_ordered_ends() {
    let (posts, swapped) = find_fenceposts(16.0f64.to_bits(), 15.0f64.to_bits(), 2);
    assert!(swapped);
    assert_eq!(posts, vec![15.0f64.to_bits(), 16.0f64.to_bits()]);

    let (posts, swapped) = find_fenceposts(15.0f64.to_bits(), 16.0f64.to_bits(), 2);
    assert!(!swapped);
    assert_eq!(posts, vec![15.0f64.to_bits(), 16.0f64.to_bits()]);

    let (posts, swapped) = find_fenceposts(3.0f64.to_bits(), 3.0f64.to_bits(), 2);
    assert!(!swapped);
    assert_eq!(posts, vec![3.0f64.to_bits(), 3.0f64.to_bits()]);
}

#[test]
fn other_fencepost_counts_give_the_unit() {
    for gaps in [0usize, 1, 3, 4, 100] {
        let (posts, swapped) = find_fenceposts(16.0f64.to_bits(), 15.0f64.to_bits(), gaps);
        assert!(swapped);
        assert_eq!(posts, vec![1.0f64.to_bits()]);
        let (posts, swapped) = find_fenceposts(1.0f64.to_bits(), 15.0f64.to_bits(), gaps);
        assert!(!swapped);
        assert_eq!(posts, vec![ONE]);
    }
}
