use merging_chunks::error::MergeError;
use merging_chunks::partition::{PartitionPlan, MAX_PART_EXP};

fn plan(part_exp: usize) -> PartitionPlan {
    match PartitionPlan::new(part_exp) {
        Ok(plan) => plan,
        Err(e) => panic!("exponent {} refused: {:?}", part_exp, e),
    }
}

#[test]
fn exponent_above_64_is_refused() {
    assert!(matches!(PartitionPlan::new(65), Err(MergeError::InvalidArgument)));
    assert!(matches!(PartitionPlan::new(1000), Err(MergeError::InvalidArgument)));
    assert!(matches!(PartitionPlan::new(usize::MAX), Err(MergeError::InvalidArgument)));
}

#[test]
fn exponents_up_to_64_are_accepted() {
    for part_exp in 0..=MAX_PART_EXP {
        assert!(PartitionPlan::new(part_exp).is_ok());
    }
}

#[test]
fn exponent_zero_is_one_partition_for_all_keys() {
    let p = plan(0);
    assert_eq!(p.last(), 0);
    assert_eq!(p.bounds(0), (0, u64::MAX));
    assert_eq!(p.index_of(0), 0);
    assert_eq!(p.index_of(12345), 0);
    assert_eq!(p.index_of(u64::MAX), 0);
}

#[test]
fn exponent_one_splits_at_two_to_the_63() {
    let p = plan(1);
    assert_eq!(p.last(), 1);
    assert_eq!(p.bounds(0), (0, (1u64 << 63) - 1));
    assert_eq!(p.bounds(1), (1u64 << 63, u64::MAX));
    assert_eq!(p.index_of((1u64 << 63) - 1), 0);
    assert_eq!(p.index_of(1u64 << 63), 1);
}

#[test]
fn exponent_nine_gives_512_partitions() {
    let p = plan(9);
    assert_eq!(p.last(), 511);
    assert_eq!(p.bounds(0), (0, (1u64 << 55) - 1));
    assert_eq!(p.bounds(3), (3u64 << 55, (4u64 << 55) - 1));
    assert_eq!(p.bounds(511), (511u64 << 55, u64::MAX));
    assert_eq!(p.index_of(3u64 << 55), 3);
    assert_eq!(p.index_of((3u64 << 55) - 1), 2);
}

#[test]
fn exponent_64_makes_every_key_a_partition() {
    let p = plan(64);
    assert_eq!(p.last(), u64::MAX);
    assert_eq!(p.bounds(0), (0, 0));
    assert_eq!(p.bounds(77), (77, 77));
    assert_eq!(p.bounds(u64::MAX), (u64::MAX, u64::MAX));
    assert_eq!(p.index_of(0), 0);
    assert_eq!(p.index_of(77), 77);
    assert_eq!(p.index_of(u64::MAX), u64::MAX);
}

#[test]
fn exponent_63_gives_partitions_of_two_keys() {
    let p = plan(63);
    assert_eq!(p.last(), (1u64 << 63) - 1);
    assert_eq!(p.bounds(0), (0, 1));
    assert_eq!(p.bounds(5), (10, 11));
    assert_eq!(p.bounds((1u64 << 63) - 1), (u64::MAX - 1, u64::MAX));
    assert_eq!(p.index_of(11), 5);
    assert_eq!(p.index_of(12), 6);
}

#[test]
fn partitions_are_contiguous_and_cover_all_keys() {
    for part_exp in 0..=10usize {
        let p = plan(part_exp);
        let last = p.last();
        assert_eq!(last as u128 + 1, 1u128 << part_exp);
        assert_eq!(p.bounds(0).0, 0);
        assert_eq!(p.bounds(last).1, u64::MAX);
        let mut i: u64 = 0;
        loop {
            let (lb, ub) = p.bounds(i);
            assert!(lb <= ub);
            assert_eq!((ub - lb) as u128 + 1, 1u128 << (64 - part_exp));
            if i == last {
                break;
            }
            assert_eq!(ub + 1, p.bounds(i + 1).0);
            i += 1;
        }
    }
}

#[test]
fn the_ends_of_the_plan_for_every_exponent() {
    for part_exp in 0..=MAX_PART_EXP {
        let p = plan(part_exp);
        let last = p.last();
        assert_eq!(last as u128 + 1, 1u128 << part_exp);
        assert_eq!(p.bounds(0).0, 0);
        assert_eq!(p.bounds(last).1, u64::MAX);
        assert_eq!(p.index_of(0), 0);
        assert_eq!(p.index_of(u64::MAX), last);
    }
}

#[test]
fn boundary_values_belong_to_their_own_partition() {
    for part_exp in [0usize, 1, 2, 9, 17, 32, 63, 64] {
        let p = plan(part_exp);
        let last = p.last();
        for i in [0u64, 1, 2, last / 2, last.saturating_sub(1), last] {
            if i > last {
                continue;
            }
            let (lb, ub) = p.bounds(i);
            assert_eq!(p.index_of(lb), i);
            assert_eq!(p.index_of(ub), i);
            if lb > 0 {
                assert_eq!(p.index_of(lb - 1), i - 1);
            }
            if ub < u64::MAX {
                assert_eq!(p.index_of(ub + 1), i + 1);
            }
        }
    }
}

#[test]
fn every_key_lies_within_the_bounds_of_its_partition() {
    let keys: [u64; 8] = [0, 1, 1 << 20, (1 << 55) - 1, 1 << 55, 1 << 63, u64::MAX - 1, u64::MAX];
    for part_exp in [0usize, 1, 9, 33, 64] {
        let p = plan(part_exp);
        for x in keys {
            let (lb, ub) = p.bounds(p.index_of(x));
            assert!(lb <= x && x <= ub);
        }
    }
}
