//! What holds of every run.

use crate::error::MergeError;
use crate::merger::model::{
    all_sorted,
    all_values,
    all_well_formed,
    chunk_values,
    merge_outcome,
    Strategy,
};
use crate::partition::MAX_PART_EXP;
use crate::sorter::{lemma_sorted_same_values, lemma_sorted_values, sorted, sorted_values};
use crate::writer::encode;
use vstd::prelude::*;

verus! {

/// Global sortedness: the result of a run on chunks that are each in
/// non-decreasing order holds its values in non-decreasing order from end to end.
pub proof fn lemma_result_sorted(
    chunks: Seq<Seq<u8>>,
    part_exp: nat,
    strategy: Strategy,
    r: Result<Seq<u8>, MergeError>,
)
    requires
        merge_outcome(chunks, part_exp, strategy, r),
        all_sorted(chunks),
        r is Ok,
    ensures
        sorted(chunk_values(r.unwrap())),
{
}

/// Nothing is lost, doubled or made up: the result of a run holds the values of
/// the chunks, each as often as the chunks hold it, whichever the strategy.
pub proof fn lemma_result_holds_all(
    chunks: Seq<Seq<u8>>,
    part_exp: nat,
    strategy: Strategy,
    r: Result<Seq<u8>, MergeError>,
)
    requires
        merge_outcome(chunks, part_exp, strategy, r),
        r is Ok,
    ensures
        chunk_values(r.unwrap()).to_multiset() == all_values(chunks).to_multiset(),
{
}

/// A run on chunks whose tokens are all the text of values succeeds wherever its
/// partitioning can be built: with the streaming strategy for every exponent up
/// to 64, with the bucketed strategy for every exponent below 64 that is below
/// the width of the machine word.
pub proof fn lemma_run_succeeds(
    chunks: Seq<Seq<u8>>,
    part_exp: nat,
    strategy: Strategy,
    r: Result<Seq<u8>, MergeError>,
)
    requires
        merge_outcome(chunks, part_exp, strategy, r),
        all_well_formed(chunks),
        part_exp <= MAX_PART_EXP,
        strategy == Strategy::Bucketed ==> part_exp < usize::BITS,
    ensures
        r is Ok,
{
}

/// The strategies agree: on the same chunks, each in non-decreasing order, and
/// with the same exponent, the streaming and the bucketed strategy return the
/// same, byte for byte. Left out are the exponents up to 64 for which the bucketed
/// strategy cannot address its buckets.
pub proof fn lemma_strategies_agree(
    chunks: Seq<Seq<u8>>,
    part_exp: nat,
    streamed: Result<Seq<u8>, MergeError>,
    bucketed: Result<Seq<u8>, MergeError>,
)
    requires
        merge_outcome(chunks, part_exp, Strategy::Streaming, streamed),
        merge_outcome(chunks, part_exp, Strategy::Bucketed, bucketed),
        all_sorted(chunks),
        part_exp < usize::BITS || part_exp > MAX_PART_EXP,
    ensures
        streamed == bucketed,
{
    if streamed is Ok {
        lemma_sorted_same_values(
            chunk_values(streamed.unwrap()),
            chunk_values(bucketed.unwrap()),
        );
    }
}

/// A second run comes to what the first did: two runs of one strategy on the same
/// chunks with the same exponent come to the same outcome, byte for byte, whatever
/// the result held before either of them.
pub proof fn lemma_rerun_identical(
    chunks: Seq<Seq<u8>>,
    part_exp: nat,
    strategy: Strategy,
    first: Result<Seq<u8>, MergeError>,
    second: Result<Seq<u8>, MergeError>,
)
    requires
        merge_outcome(chunks, part_exp, strategy, first),
        merge_outcome(chunks, part_exp, strategy, second),
    ensures
        first == second,
{
    if first is Ok && strategy == Strategy::Bucketed {
        lemma_sorted_same_values(chunk_values(first.unwrap()), chunk_values(second.unwrap()));
    }
}

/// On chunks that are each in non-decreasing order, the result holds the values of
/// the chunks in non-decreasing order: there is one such sequence of values.
pub proof fn lemma_result_is_sorted_values(
    chunks: Seq<Seq<u8>>,
    part_exp: nat,
    strategy: Strategy,
    r: Result<Seq<u8>, MergeError>,
)
    requires
        merge_outcome(chunks, part_exp, strategy, r),
        strategy == Strategy::Bucketed || all_sorted(chunks),
        r is Ok,
    ensures
        r.unwrap() == encode(sorted_values(all_values(chunks))),
{
    lemma_sorted_values(all_values(chunks), chunk_values(r.unwrap()));
}

} // verus!
