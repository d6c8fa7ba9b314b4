use merging_chunks::error::MergeError;
use merging_chunks::merger::bucketed::{
    fan_out, fan_out_chunk, merge_chunks_large, new_buckets, resolve_bucket, resolve_buckets,
};
use merging_chunks::merger::model::Strategy;
use merging_chunks::merger::streaming::merge_chunks_small;
use merging_chunks::merger::{choose_strategy, merge_chunks, BUCKETED_FROM};
use rand::distributions::{Distribution, Uniform};

/// What the result holds before each run of these tests: it must not show up.
const STALE: &[u8] = b"7 7 7 ";

fn small(chunks: &Vec<Vec<u8>>, part_exp: usize) -> Result<Vec<u8>, MergeError> {
    let mut result = STALE.to_vec();
    merge_chunks_small(chunks, part_exp, &mut result).map(|_| result)
}

fn large(chunks: &Vec<Vec<u8>>, part_exp: usize) -> Result<Vec<u8>, MergeError> {
    let mut result = STALE.to_vec();
    merge_chunks_large(chunks, part_exp, &mut result).map(|_| result)
}

fn dispatched(chunks: &Vec<Vec<u8>>, part_exp: usize) -> Result<Vec<u8>, MergeError> {
    let mut result = STALE.to_vec();
    merge_chunks(chunks, part_exp, &mut result).map(|_| result)
}

fn generate_chunk(len: usize, lb: u64, ub: u64) -> Vec<u64> {
    if lb >= ub {
        panic!("incorrect bounds");
    }

    let mut rng = rand::thread_rng();
    let dist = Uniform::from(lb..ub);

    let mut v = Vec::new();
    v.reserve_exact(len);
    for _ in 0..len {
        v.push(dist.sample(&mut rng));
    }

    v.sort();
    v
}

fn write_chunk(v: &Vec<u64>) -> Vec<u8> {
    let mut text = String::new();
    for i in v {
        text.push_str(&format!("{} ", i));
    }
    text.into_bytes()
}

fn validate_result(result: &Vec<u8>, expected: &Vec<u64>) -> bool {
    let text = String::from_utf8(result.clone()).expect("read result failed");
    let v: Vec<u64> =
        text.split_whitespace().map(|x| x.parse::<u64>().expect("not an u64")).collect();

    if v.len() != expected.len() {
        return false;
    }

    for i in 0..v.len() {
        if v[i] != expected[i] {
            return false;
        }
    }

    true
}

fn do_test(is_large: bool, chunks: &Vec<Vec<u8>>, expected: &Vec<u64>) {
    let mut result: Vec<u8> = Vec::new();
    if is_large {
        merge_chunks_large(chunks, 9, &mut result).expect("merging failed");
    } else {
        merge_chunks_small(chunks, 9, &mut result).expect("merging failed");
    }
    assert_eq!(validate_result(&result, expected), true);
}

fn chunks_of(texts: &[&str]) -> Vec<Vec<u8>> {
    texts.iter().map(|t| t.as_bytes().to_vec()).collect()
}

#[test]
fn merge_chunk_small_should_work() {
    for _ in 0..10 {
        const LIM: usize = 100;

        let mut expected: Vec<u64> = Vec::new();
        expected.reserve(LIM * LIM);
        let mut chunks: Vec<Vec<u8>> = Vec::new();

        let mut rng = rand::thread_rng();
        let dist = Uniform::from(1..LIM);
        for _ in 0..LIM {
            let cur_chunk = generate_chunk(dist.sample(&mut rng), 0, std::u64::MAX);
            chunks.push(write_chunk(&cur_chunk));
            expected.extend(&cur_chunk);
        }

        expected.sort();
        do_test(false, &chunks, &expected);
    }
}

#[test]
fn merge_chunk_large_should_work() {
    for _ in 0..10 {
        const LIM: usize = 100;

        let mut expected: Vec<u64> = Vec::new();
        expected.reserve(LIM * LIM);
        let mut chunks: Vec<Vec<u8>> = Vec::new();

        let mut rng = rand::thread_rng();
        let dist = Uniform::from(1..LIM);
        for _ in 0..LIM {
            let cur_chunk = generate_chunk(dist.sample(&mut rng), 0, std::u64::MAX);
            chunks.push(write_chunk(&cur_chunk));
            expected.extend(&cur_chunk);
        }

        expected.sort();
        do_test(true, &chunks, &expected);
    }
}

#[test]
fn three_chunks_two_partitions_streaming() {
    let chunks = chunks_of(&["1 5 9 ", "2 2 8 ", ""]);
    assert_eq!(small(&chunks, 1), Ok(b"1 2 2 5 8 9 ".to_vec()));
}

#[test]
fn three_chunks_two_partitions_bucketed() {
    let chunks = chunks_of(&["1 5 9 ", "2 2 8 ", ""]);
    assert_eq!(large(&chunks, 1), Ok(b"1 2 2 5 8 9 ".to_vec()));
}

#[test]
fn three_chunks_two_partitions_dispatched() {
    let chunks = chunks_of(&["1 5 9 ", "2 2 8 ", ""]);
    assert_eq!(dispatched(&chunks, 1), Ok(b"1 2 2 5 8 9 ".to_vec()));
}

#[test]
fn no_chunks_give_an_empty_result() {
    let chunks: Vec<Vec<u8>> = Vec::new();
    assert_eq!(small(&chunks, 9), Ok(Vec::new()));
    assert_eq!(large(&chunks, 9), Ok(Vec::new()));
    assert_eq!(dispatched(&chunks, 9), Ok(Vec::new()));
    assert_eq!(small(&chunks, 0), Ok(Vec::new()));
    assert_eq!(large(&chunks, 0), Ok(Vec::new()));
}

#[test]
fn empty_chunks_give_an_empty_result() {
    let chunks = chunks_of(&["", "   ", ""]);
    assert_eq!(small(&chunks, 3), Ok(Vec::new()));
    assert_eq!(large(&chunks, 3), Ok(Vec::new()));
}

#[test]
fn values_on_both_sides_of_the_split() {
    let chunks = chunks_of(&[
        "1 9223372036854775807 9223372036854775808 18446744073709551615 ",
        "0 9223372036854775808 ",
    ]);
    let expected =
        b"0 1 9223372036854775807 9223372036854775808 9223372036854775808 18446744073709551615 "
            .to_vec();
    assert_eq!(small(&chunks, 1), Ok(expected.clone()));
    assert_eq!(large(&chunks, 1), Ok(expected));
}

#[test]
fn the_result_does_not_depend_on_the_exponent() {
    let chunks = chunks_of(&["3 3 1000000 18446744073709551615", "0 2 4 99999999999", "5 "]);
    let expected = b"0 2 3 3 4 5 1000000 99999999999 18446744073709551615 ".to_vec();
    for part_exp in [0usize, 1, 2, 5, 9, 12] {
        assert_eq!(small(&chunks, part_exp), Ok(expected.clone()));
        assert_eq!(large(&chunks, part_exp), Ok(expected.clone()));
        assert_eq!(dispatched(&chunks, part_exp), Ok(expected.clone()));
    }
}

#[test]
fn the_result_is_sorted_from_end_to_end() {
    let chunks = chunks_of(&["10 20 30 ", "5 25 35 ", "1 2 3 40 "]);
    let result = dispatched(&chunks, 9).expect("merging failed");
    let text = String::from_utf8(result).expect("not text");
    let values: Vec<u64> = text
        .split(' ')
        .filter(|t| !t.is_empty())
        .map(|t| t.parse().expect("not an u64"))
        .collect();
    for i in 1..values.len() {
        assert!(values[i - 1] <= values[i]);
    }
    assert_eq!(values, vec![1, 2, 3, 5, 10, 20, 25, 30, 35, 40]);
}

#[test]
fn every_value_is_kept_as_often_as_it_occurs() {
    let chunks = chunks_of(&["7 7 7 ", "7 ", "7 7 "]);
    assert_eq!(small(&chunks, 4), Ok(b"7 7 7 7 7 7 ".to_vec()));
    assert_eq!(large(&chunks, 4), Ok(b"7 7 7 7 7 7 ".to_vec()));
}

#[test]
fn the_strategies_return_the_same_bytes() {
    let chunks = chunks_of(&["+1 002 3", "  2   18446744073709551615  ", "0 9223372036854775808"]);
    let streamed = small(&chunks, 9);
    let bucketed = large(&chunks, 9);
    assert_eq!(streamed, bucketed);
    assert_eq!(streamed, Ok(b"0 1 2 2 3 9223372036854775808 18446744073709551615 ".to_vec()));
}

#[test]
fn a_second_run_returns_the_same() {
    let chunks = chunks_of(&["1 4 4 9 ", "2 3 "]);
    let first = dispatched(&chunks, 9);
    let second = dispatched(&chunks, 9);
    assert_eq!(first, second);
    assert_eq!(first, Ok(b"1 2 3 4 4 9 ".to_vec()));
}

#[test]
fn the_result_is_written_in_canonical_text() {
    let chunks = chunks_of(&["+3  0004    +0005"]);
    assert_eq!(small(&chunks, 2), Ok(b"3 4 5 ".to_vec()));
    assert_eq!(large(&chunks, 2), Ok(b"3 4 5 ".to_vec()));
}

#[test]
fn an_exponent_above_64_is_invalid() {
    let chunks = chunks_of(&["1 2 "]);
    assert_eq!(dispatched(&chunks, 65), Err(MergeError::InvalidArgument));
    assert_eq!(small(&chunks, 65), Err(MergeError::InvalidArgument));
    assert_eq!(large(&chunks, 65), Err(MergeError::InvalidArgument));
    assert!(matches!(fan_out(&chunks, 65), Err(MergeError::InvalidArgument)));
}

#[test]
fn an_invalid_exponent_comes_before_a_bad_token() {
    let chunks = chunks_of(&["1 x "]);
    assert_eq!(dispatched(&chunks, 65), Err(MergeError::InvalidArgument));
    assert_eq!(small(&chunks, 65), Err(MergeError::InvalidArgument));
    assert_eq!(large(&chunks, 65), Err(MergeError::InvalidArgument));
}

#[test]
fn the_bucketed_strategy_refuses_buckets_it_cannot_address() {
    let chunks = chunks_of(&["1 2 "]);
    assert_eq!(large(&chunks, 64), Err(MergeError::InvalidArgument));
    assert_eq!(large(&chunks, usize::BITS as usize), Err(MergeError::InvalidArgument));
    assert!(matches!(fan_out(&chunks, 64), Err(MergeError::InvalidArgument)));
}

#[test]
fn a_bad_token_is_a_parse_error() {
    for bad in ["1 2 x ", "abc", "1 -2 3 ", "18446744073709551616 ", "1\x0b2 ", "1,2 ", "+ "] {
        let chunks = chunks_of(&["1 2 3 ", bad, "4 "]);
        assert_eq!(small(&chunks, 9), Err(MergeError::Parse));
        assert_eq!(large(&chunks, 9), Err(MergeError::Parse));
        assert_eq!(dispatched(&chunks, 9), Err(MergeError::Parse));
    }
}

#[test]
fn a_bad_token_at_the_very_end_is_found() {
    let chunks = chunks_of(&["1 2 3 18446744073709551615 zz"]);
    assert_eq!(small(&chunks, 9), Err(MergeError::Parse));
    assert_eq!(large(&chunks, 9), Err(MergeError::Parse));
}

#[test]
fn the_bucketed_strategy_sorts_chunks_that_are_not_sorted() {
    let chunks = chunks_of(&["9 1 5 ", "8 2 2 "]);
    assert_eq!(large(&chunks, 1), Ok(b"1 2 2 5 8 9 ".to_vec()));
}

#[test]
fn the_streaming_strategy_keeps_the_values_of_chunks_that_are_not_sorted() {
    let chunks = chunks_of(&["5 9223372036854775809 3 9223372036854775810 "]);
    let result = small(&chunks, 1).expect("merging failed");
    assert_eq!(result, b"5 3 9223372036854775809 9223372036854775810 ".to_vec());
    let text = String::from_utf8(result).expect("not text");
    let mut values: Vec<u64> =
        text.split_whitespace().map(|t| t.parse().expect("not an u64")).collect();
    values.sort();
    assert_eq!(values, vec![3, 5, 9223372036854775809, 9223372036854775810]);
}

#[test]
fn fan_out_fills_one_bucket_for_each_partition() {
    let chunks =
        chunks_of(&["1 4611686018427387904 ", "0 13835058055282163712 18446744073709551615 "]);
    let buckets = fan_out(&chunks, 2).expect("fan-out failed");
    assert_eq!(buckets.len(), 4);
    assert_eq!(buckets[0], b"1 0 ".to_vec());
    assert_eq!(buckets[1], b"4611686018427387904 ".to_vec());
    assert_eq!(buckets[2], Vec::<u8>::new());
    assert_eq!(buckets[3], b"13835058055282163712 18446744073709551615 ".to_vec());
}

#[test]
fn fan_out_with_exponent_zero_has_one_bucket() {
    let chunks = chunks_of(&["3 1 ", "2 "]);
    let buckets = fan_out(&chunks, 0).expect("fan-out failed");
    assert_eq!(buckets, vec![b"3 1 2 ".to_vec()]);
}

#[test]
fn fan_out_reports_a_bad_token() {
    let chunks = chunks_of(&["3 1 ", "2 two "]);
    assert!(matches!(fan_out(&chunks, 3), Err(MergeError::Parse)));
}

#[test]
fn resolve_buckets_sorts_each_bucket_and_joins_them() {
    let buckets = chunks_of(&["3 1 2 ", "", "12 10 11 "]);
    assert_eq!(resolve_buckets(&buckets), Ok(b"1 2 3 10 11 12 ".to_vec()));
}

#[test]
fn resolve_buckets_of_nothing_is_empty() {
    let buckets: Vec<Vec<u8>> = Vec::new();
    assert_eq!(resolve_buckets(&buckets), Ok(Vec::new()));
}

#[test]
fn resolve_buckets_reports_a_bad_token() {
    let buckets = chunks_of(&["3 1 2 ", "1o "]);
    assert_eq!(resolve_buckets(&buckets), Err(MergeError::Parse));
}

#[test]
fn the_strategy_goes_by_the_number_of_chunks() {
    assert_eq!(BUCKETED_FROM, 1usize << 30);
    assert_eq!(choose_strategy(0), Strategy::Streaming);
    assert_eq!(choose_strategy(100), Strategy::Streaming);
    assert_eq!(choose_strategy((1usize << 30) - 1), Strategy::Streaming);
    assert_eq!(choose_strategy(1usize << 30), Strategy::Bucketed);
    assert_eq!(choose_strategy(usize::MAX), Strategy::Bucketed);
}

#[test]
fn many_partitions_and_few_values() {
    let chunks = chunks_of(&["0 18446744073709551615 ", "9223372036854775808 "]);
    let expected = b"0 9223372036854775808 18446744073709551615 ".to_vec();
    assert_eq!(small(&chunks, 16), Ok(expected.clone()));
    assert_eq!(large(&chunks, 16), Ok(expected));
}

#[test]
fn chunks_may_be_delimited_by_any_whitespace() {
    let chunks = chunks_of(&["1\n5\n9\n", "2\t2\r\n8", "\n\n"]);
    assert_eq!(small(&chunks, 1), Ok(b"1 2 2 5 8 9 ".to_vec()));
    assert_eq!(large(&chunks, 1), Ok(b"1 2 2 5 8 9 ".to_vec()));
    assert_eq!(dispatched(&chunks, 9), Ok(b"1 2 2 5 8 9 ".to_vec()));
}

#[test]
fn what_the_result_held_before_is_discarded() {
    let chunks = chunks_of(&["1 4 ", "2 3 "]);
    let mut fresh: Vec<u8> = Vec::new();
    let mut stale: Vec<u8> = b"7 7 7 ".to_vec();
    assert_eq!(merge_chunks(&chunks, 9, &mut fresh), Ok(()));
    assert_eq!(merge_chunks(&chunks, 9, &mut stale), Ok(()));
    assert_eq!(fresh, b"1 2 3 4 ".to_vec());
    assert_eq!(stale, fresh);

    let mut stale: Vec<u8> = b"0 0 ".to_vec();
    assert_eq!(merge_chunks_small(&chunks, 3, &mut stale), Ok(()));
    assert_eq!(stale, fresh);
    let mut stale: Vec<u8> = b"99 ".to_vec();
    assert_eq!(merge_chunks_large(&chunks, 3, &mut stale), Ok(()));
    assert_eq!(stale, fresh);
}

#[test]
fn a_run_on_the_result_of_a_run_is_a_fresh_run() {
    let chunks = chunks_of(&["5 6 ", "1 "]);
    let mut result: Vec<u8> = Vec::new();
    assert_eq!(merge_chunks(&chunks, 9, &mut result), Ok(()));
    assert_eq!(merge_chunks(&chunks, 9, &mut result), Ok(()));
    assert_eq!(result, b"1 5 6 ".to_vec());
}

#[test]
fn a_refused_exponent_leaves_the_result_as_it_was() {
    let chunks = chunks_of(&["1 2 "]);
    let mut result: Vec<u8> = b"3 4 ".to_vec();
    assert_eq!(merge_chunks(&chunks, 65, &mut result), Err(MergeError::InvalidArgument));
    assert_eq!(result, b"3 4 ".to_vec());
    assert_eq!(merge_chunks_small(&chunks, 65, &mut result), Err(MergeError::InvalidArgument));
    assert_eq!(result, b"3 4 ".to_vec());
    assert_eq!(merge_chunks_large(&chunks, 64, &mut result), Err(MergeError::InvalidArgument));
    assert_eq!(result, b"3 4 ".to_vec());
}

#[test]
fn new_buckets_are_empty_and_one_for_each_partition() {
    for part_exp in [0usize, 1, 4, 9] {
        let buckets = new_buckets(part_exp).expect("buckets refused");
        assert_eq!(buckets.len(), 1usize << part_exp);
        assert!(buckets.iter().all(|b| b.is_empty()));
    }
    assert!(matches!(new_buckets(64), Err(MergeError::InvalidArgument)));
    assert!(matches!(new_buckets(65), Err(MergeError::InvalidArgument)));
}

#[test]
fn fan_out_chunk_appends_to_the_buckets() {
    let mut buckets = new_buckets(2).expect("buckets refused");
    assert_eq!(fan_out_chunk(&mut buckets, b"1 4611686018427387904 ", 2), Ok(()));
    assert_eq!(buckets[0], b"1 ".to_vec());
    assert_eq!(buckets[1], b"4611686018427387904 ".to_vec());
    assert_eq!(fan_out_chunk(&mut buckets, b"0\n13835058055282163712\n2", 2), Ok(()));
    assert_eq!(buckets[0], b"1 0 2 ".to_vec());
    assert_eq!(buckets[1], b"4611686018427387904 ".to_vec());
    assert_eq!(buckets[2], Vec::<u8>::new());
    assert_eq!(buckets[3], b"13835058055282163712 ".to_vec());
}

#[test]
fn fan_out_chunk_of_an_empty_chunk_changes_nothing() {
    let mut buckets: Vec<Vec<u8>> = vec![b"5 ".to_vec(), b"9223372036854775808 ".to_vec()];
    assert_eq!(fan_out_chunk(&mut buckets, b"", 1), Ok(()));
    assert_eq!(fan_out_chunk(&mut buckets, b" \n ", 1), Ok(()));
    assert_eq!(buckets, vec![b"5 ".to_vec(), b"9223372036854775808 ".to_vec()]);
}

#[test]
fn fan_out_chunk_reports_a_bad_token() {
    let mut buckets = new_buckets(1).expect("buckets refused");
    assert_eq!(fan_out_chunk(&mut buckets, b"1 2 three ", 1), Err(MergeError::Parse));
    assert_eq!(buckets.len(), 2);
}

#[test]
fn chunk_by_chunk_gives_the_buckets_of_the_whole() {
    let chunks = chunks_of(&["9 1 18446744073709551615 ", "", "4611686018427387904 3 "]);
    let whole = fan_out(&chunks, 3).expect("fan-out failed");
    let mut buckets = new_buckets(3).expect("buckets refused");
    for chunk in &chunks {
        assert_eq!(fan_out_chunk(&mut buckets, chunk, 3), Ok(()));
    }
    assert_eq!(buckets, whole);
}

#[test]
fn resolve_bucket_sorts_the_values_of_the_bucket() {
    assert_eq!(resolve_bucket(b"3 1 2 "), Ok(b"1 2 3 ".to_vec()));
    assert_eq!(resolve_bucket(b"10\n9\n9\n"), Ok(b"9 9 10 ".to_vec()));
    assert_eq!(resolve_bucket(b""), Ok(Vec::new()));
}

#[test]
fn resolve_bucket_reports_a_bad_token() {
    assert_eq!(resolve_bucket(b"3 1 x2 "), Err(MergeError::Parse));
}

#[test]
fn bucket_by_bucket_gives_the_result_of_the_whole() {
    let chunks = chunks_of(&["9 1 18446744073709551615 ", "4611686018427387904 3 "]);
    let buckets = fan_out(&chunks, 4).expect("fan-out failed");
    let mut joined: Vec<u8> = Vec::new();
    for bucket in &buckets {
        joined.extend(resolve_bucket(bucket).expect("resolve failed"));
    }
    assert_eq!(Ok(joined.clone()), resolve_buckets(&buckets));
    assert_eq!(Ok(joined), large(&chunks, 4));
}
