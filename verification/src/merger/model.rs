//! What a merge is: the values of the chunks, and what the result owes them.

use crate::decimal::token_value;
use crate::error::MergeError;
use crate::merger::streaming::streamed;
use crate::partition::MAX_PART_EXP;
use crate::reader::{token_values, tokens};
use crate::sorter::sorted;
use crate::writer::{encode, lemma_encode_round_trip};
use vstd::prelude::*;
use vstd::seq_lib::{lemma_flatten_concat, lemma_multiset_commutative};

verus! {

/// How the partitions are resolved.
#[derive(Debug, Clone, Copy, PartialEq, Eq, Structural)]
pub enum Strategy {
    /// Every chunk is read once, partition by partition, behind a lookahead value.
    Streaming,
    /// Every value is first moved to the staging bucket of its partition.
    Bucketed,
}

/// The bytes of each chunk.
pub open spec fn contents(chunks: Seq<Vec<u8>>) -> Seq<Seq<u8>> {
    chunks.map_values(|c: Vec<u8>| c@)
}

/// Every token of the chunk is the text of a value.
pub open spec fn well_formed(chunk: Seq<u8>) -> bool {
    forall|k: int| 0 <= k < tokens(chunk).len() ==> token_value(#[trigger] tokens(chunk)[k]) is Some
}

/// The values of a well-formed chunk, in order.
pub open spec fn chunk_values(chunk: Seq<u8>) -> Seq<u64> {
    token_values(tokens(chunk))
}

/// Every chunk is well-formed.
pub open spec fn all_well_formed(chunks: Seq<Seq<u8>>) -> bool {
    forall|j: int| 0 <= j < chunks.len() ==> well_formed(#[trigger] chunks[j])
}

/// Every chunk holds its values in non-decreasing order.
pub open spec fn all_sorted(chunks: Seq<Seq<u8>>) -> bool {
    forall|j: int| 0 <= j < chunks.len() ==> sorted(chunk_values(#[trigger] chunks[j]))
}

/// The values of all chunks: those of the first chunk, then those of the second,
/// and so on.
pub open spec fn all_values(chunks: Seq<Seq<u8>>) -> Seq<u64> {
    chunks.map_values(|c: Seq<u8>| chunk_values(c)).flatten()
}

/// The exponent asks for a partitioning that the strategy cannot build: more than
/// `2^64` partitions, or, with one staging bucket for each partition, more buckets
/// than a machine word can count. With words of 64 bits the bucketed strategy
/// refuses the exponent 64 and no other up to 64.
pub open spec fn refused(strategy: Strategy, part_exp: nat) -> bool {
    part_exp > MAX_PART_EXP || (strategy == Strategy::Bucketed && part_exp >= usize::BITS)
}

/// The outcome of a run that returned `r` and left `bytes` in the result: the
/// bytes on success, else the error. What a failed run leaves in the result is of
/// no account.
pub open spec fn outcome(r: Result<(), MergeError>, bytes: Seq<u8>) -> Result<
    Seq<u8>,
    MergeError,
> {
    match r {
        Ok(()) => Ok(bytes),
        Err(e) => Err(e),
    }
}

/// What a run of a strategy on `chunks` with `2^part_exp` partitions comes to.
/// It goes by the chunks and the exponent alone: what the result held before the
/// run has no part in it.
///
/// A refused exponent gives `InvalidArgument`, whatever the chunks hold. Else a
/// chunk with a token that is not the text of a value gives `Parse`. Else the run
/// succeeds, and its result
/// - is the text of the values that it holds: each in canonical form, followed by
///   one space;
/// - holds the values of the chunks, each as often as the chunks hold it; and
/// - holds them in non-decreasing order, if every chunk does (the bucketed
///   strategy: in any case).
///
/// That fixes the result wherever the values come out in non-decreasing order.
/// Where a chunk is out of order the streaming strategy may write values out of
/// order too; its result then holds the values in the order of `streamed`.
pub open spec fn merge_outcome(
    chunks: Seq<Seq<u8>>,
    part_exp: nat,
    strategy: Strategy,
    r: Result<Seq<u8>, MergeError>,
) -> bool {
    if refused(strategy, part_exp) {
        r == Err::<Seq<u8>, MergeError>(MergeError::InvalidArgument)
    } else if !all_well_formed(chunks) {
        r == Err::<Seq<u8>, MergeError>(MergeError::Parse)
    } else {
        &&& r is Ok
        &&& well_formed(r.unwrap())
        &&& r.unwrap() == encode(chunk_values(r.unwrap()))
        &&& chunk_values(r.unwrap()).to_multiset() == all_values(chunks).to_multiset()
        &&& strategy == Strategy::Bucketed || all_sorted(chunks) ==> sorted(
            chunk_values(r.unwrap()),
        )
        &&& strategy == Strategy::Streaming ==> chunk_values(r.unwrap()) == streamed(
            chunks,
            part_exp,
        )
    }
}

/// The text of a sequence of values is well-formed and holds those values.
pub proof fn lemma_encode_well_formed(vals: Seq<u64>)
    ensures
        well_formed(encode(vals)),
        chunk_values(encode(vals)) == vals,
{
    lemma_encode_round_trip(vals);
}

/// Sequences that are all empty hold no value between them.
pub proof fn lemma_flatten_empties(ss: Seq<Seq<u64>>)
    requires
        forall|i: int| 0 <= i < ss.len() ==> (#[trigger] ss[i]).len() == 0,
    ensures
        ss.flatten() == Seq::<u64>::empty(),
    decreases ss.len(),
{
    if ss.len() > 0 {
        lemma_flatten_empties(ss.drop_first());
    }
}

/// Extending one sequence of a sequence of sequences adds the extension's values
/// to the values of the whole.
pub proof fn lemma_flatten_extend(ss: Seq<Seq<u64>>, b: int, t: Seq<u64>)
    requires
        0 <= b < ss.len(),
    ensures
        ss.update(b, ss[b] + t).flatten().to_multiset() == ss.flatten().to_multiset().add(
            t.to_multiset(),
        ),
{
    let front = ss.take(b);
    let back = ss.skip(b + 1);
    let extended = ss.update(b, ss[b] + t);
    assert(ss =~= front + seq![ss[b]] + back);
    assert(extended =~= front + seq![ss[b] + t] + back);
    lemma_flatten_concat(front + seq![ss[b]], back);
    lemma_flatten_concat(front, seq![ss[b]]);
    lemma_flatten_concat(front + seq![ss[b] + t], back);
    lemma_flatten_concat(front, seq![ss[b] + t]);
    seq![ss[b]].lemma_flatten_one_element();
    seq![ss[b] + t].lemma_flatten_one_element();
    let f = front.flatten();
    let k = back.flatten();
    lemma_multiset_commutative(f + ss[b], k);
    lemma_multiset_commutative(f, ss[b]);
    lemma_multiset_commutative(f + (ss[b] + t), k);
    lemma_multiset_commutative(f, ss[b] + t);
    lemma_multiset_commutative(ss[b], t);
}

} // verus!
