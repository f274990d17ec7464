use rewards::Error;
use rewards::RewardIndex;

fn filled_index(fan_out: u64, values: &[u64]) -> RewardIndex {
    let mut idx = RewardIndex::new(fan_out);
    for (epoch, value) in values.iter().enumerate() {
        idx.record(epoch as u64, *value).expect("record must fit");
    }
    idx
}

fn plain_sum(values: &[u64], start: u64, end: u64) -> u64 {
    let mut total: u64 = 0;
    let mut e = start;
    while e <= end {
        total += values[e as usize];
        e += 1;
    }
    total
}

#[test]
fn range_sum_matches_plain_sum_fan_out_two() {
    let values: Vec<u64> = (1..=8).collect();
    let idx = filled_index(2, &values);
    for start in 0..8u64 {
        for end in start..8u64 {
            let expected = plain_sum(&values, start, end);
            assert_eq!(idx.range_sum(start, end, true), Ok(expected));
            assert_eq!(idx.range_sum(start, end, false), Ok(expected));
        }
    }
}

#[test]
fn range_sum_matches_plain_sum_fan_out_five() {
    let values: Vec<u64> = (0..26).map(|e| 3 * e + 1).collect();
    let idx = filled_index(5, &values);
    assert_eq!(idx.epoch_count(), 26);
    assert_eq!(idx.range_sum(0, 25, true), Ok(plain_sum(&values, 0, 25)));
    assert_eq!(idx.range_sum(3, 21, true), Ok(plain_sum(&values, 3, 21)));
    assert_eq!(idx.range_sum(5, 24, true), Ok(plain_sum(&values, 5, 24)));
    assert_eq!(idx.range_sum(10, 10, true), Ok(values[10]));
    assert_eq!(idx.range_sum(0, 4, false), Ok(plain_sum(&values, 0, 4)));
}

#[test]
fn empty_range_sums_to_zero() {
    let idx = filled_index(4, &[7, 7, 7]);
    assert_eq!(idx.range_sum(5, 3, true), Ok(0));
    assert_eq!(idx.range_sum(2, 1, true), Ok(0));
}

#[test]
fn unrecorded_epoch_is_a_consistency_violation() {
    let idx = filled_index(4, &[7, 7, 7]);
    assert_eq!(
        idx.range_sum(1, 5, true),
        Err(Error::IndexConsistencyViolation)
    );
    assert_eq!(
        idx.range_sum(3, 3, true),
        Err(Error::IndexConsistencyViolation)
    );
}

#[test]
fn cascade_overflow_aborts_and_leaves_index_unchanged() {
    let mut idx = RewardIndex::new(2);
    assert_eq!(idx.record(0, u64::MAX), Ok(()));
    // epoch 1 completes a block of two; its aggregate would exceed u64
    assert_eq!(idx.record(1, 1), Err(Error::ArithmeticOverflow));
    assert_eq!(idx.epoch_count(), 1);
    // the same epoch with a zero value fits exactly
    assert_eq!(idx.record(1, 0), Ok(()));
    assert_eq!(idx.epoch_count(), 2);
    assert_eq!(idx.range_sum(0, 1, true), Ok(u64::MAX));
}

#[test]
fn query_overflow_is_detected() {
    let mut idx = RewardIndex::new(4);
    idx.record(0, u64::MAX).unwrap();
    idx.record(1, u64::MAX).unwrap();
    idx.record(2, 0).unwrap();
    assert_eq!(idx.range_sum(0, 1, true), Err(Error::ArithmeticOverflow));
    assert_eq!(idx.range_sum(1, 2, true), Ok(u64::MAX));
    assert_eq!(idx.range_sum(2, 2, true), Ok(0));
}

#[test]
fn reset_drops_recorded_values() {
    let mut idx = filled_index(3, &[1, 2, 3, 4]);
    assert_eq!(idx.epoch_count(), 4);
    idx.reset();
    assert_eq!(idx.epoch_count(), 0);
    assert_eq!(idx.record(0, 9), Ok(()));
    assert_eq!(idx.range_sum(0, 0, true), Ok(9));
}
