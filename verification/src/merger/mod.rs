//! The merge: a dispatcher and the two strategies that resolve the partitions.

pub mod bucketed;
pub mod laws;
pub mod model;
pub mod streaming;

use crate::error::MergeError;
use crate::merger::bucketed::merge_chunks_large;
use crate::merger::model::{contents, merge_outcome, outcome, refused, Strategy};
use crate::merger::streaming::merge_chunks_small;
use crate::partition::MAX_PART_EXP;
use vstd::prelude::*;

verus! {

/// The number of chunks from which on the bucketed strategy is used: `2^30`.
pub const BUCKETED_FROM: usize = 0x4000_0000;

/// The strategy for a number of chunks.
pub open spec fn strategy_for(chunk_num: nat) -> Strategy {
    if chunk_num >= BUCKETED_FROM {
        Strategy::Bucketed
    } else {
        Strategy::Streaming
    }
}

/// Picks the strategy for a number of chunks: streaming below `BUCKETED_FROM`
/// chunks, where a reader and a lookahead value for each chunk are cheap, and
/// bucketed from there on.
pub fn choose_strategy(chunk_num: usize) -> (s: Strategy)
    ensures
        s == strategy_for(chunk_num as nat),
{
    if chunk_num >= BUCKETED_FROM {
        Strategy::Bucketed
    } else {
        Strategy::Streaming
    }
}

/// Merges the chunks into one sorted sequence, with `2^part_exp` partitions, and
/// leaves it in `result`.
///
/// `chunks[i]` holds the bytes of chunk `i`: values as decimal text, delimited by
/// whitespace, in non-decreasing order. What `result` holds at the start is
/// cleared; at the end it holds the text of the merged values. The strategy goes
/// by the number of chunks; see `merge_outcome` for what the result owes the
/// chunks and for the errors. A refused exponent leaves `result` as it was; after
/// any other error it is not to be trusted.
pub fn merge_chunks(chunks: &Vec<Vec<u8>>, part_exp: usize, result: &mut Vec<u8>) -> (r: Result<
    (),
    MergeError,
>)
    ensures
        merge_outcome(
            contents(chunks@),
            part_exp as nat,
            strategy_for(chunks.len() as nat),
            outcome(r, final(result)@),
        ),
        refused(strategy_for(chunks.len() as nat), part_exp as nat) ==> final(result)@ == old(
            result,
        )@,
{
    if part_exp > MAX_PART_EXP {
        return Err(MergeError::InvalidArgument);
    }
    match choose_strategy(chunks.len()) {
        Strategy::Bucketed => merge_chunks_large(chunks, part_exp, result),
        Strategy::Streaming => merge_chunks_small(chunks, part_exp, result),
    }
}

} // verus!
