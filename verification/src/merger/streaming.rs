//! The streaming strategy: every chunk is read once, from front to back, while
//! the partitions are resolved in increasing order. Of each chunk one value is
//! held back: the first that did not fit the partition at hand.

use crate::decimal::token_value;
use crate::error::MergeError;
use crate::merger::model::{
    all_sorted,
    all_well_formed,
    chunk_values,
    contents,
    lemma_encode_well_formed,
    lemma_flatten_empties,
    lemma_flatten_extend,
    merge_outcome,
    outcome,
    refused,
    well_formed,
    Strategy,
};
use crate::partition::{
    lemma_count_width,
    lemma_partitions_contiguous,
    lower_bound,
    part_count,
    upper_bound,
    PartitionPlan,
    MAX_PART_EXP,
};
use crate::reader::{read_chunk, read_next, token_values, tokens, ChunkReader};
use crate::sorter::{
    lemma_same_values_member,
    lemma_sorted_concat,
    lemma_sorted_values,
    sort,
    sorted,
    sorted_values,
};
use crate::writer::{encode, lemma_encode_concat, write_result};
use vstd::prelude::*;
use vstd::seq_lib::lemma_multiset_commutative;

verus! {

/// The end of the run of values from position `p` on that do not exceed `ub`: the
/// position of the first value from `p` on that exceeds it, or the length.
pub open spec fn run_end(vals: Seq<u64>, p: nat, ub: nat) -> nat
    decreases vals.len() - p,
{
    if p < vals.len() && vals[p as int] <= ub {
        run_end(vals, p + 1, ub)
    } else {
        p
    }
}

/// The position of a chunk's lookahead value when partition `i` comes up. Each
/// partition before it has taken the run of values from the lookahead value on
/// that did not exceed its upper bound.
pub open spec fn cursor_at(vals: Seq<u64>, i: nat, part_exp: nat) -> nat
    decreases i,
{
    if i == 0 {
        0
    } else {
        run_end(
            vals,
            cursor_at(vals, (i - 1) as nat, part_exp),
            upper_bound((i - 1) as nat, part_exp),
        )
    }
}

/// The values that a chunk gives to partition `i`.
pub open spec fn share(vals: Seq<u64>, i: nat, part_exp: nat) -> Seq<u64> {
    vals.subrange(cursor_at(vals, i, part_exp) as int, cursor_at(vals, i + 1, part_exp) as int)
}

/// The values that partition `i` gathers: the share of the first chunk, then that
/// of the second, and so on.
pub open spec fn gathered(chunks: Seq<Seq<u8>>, i: nat, part_exp: nat) -> Seq<u64> {
    chunks.map_values(|c: Seq<u8>| share(chunk_values(c), i, part_exp)).flatten()
}

/// The values that the first `n` partitions write: what each has gathered, sorted,
/// in partition order.
pub open spec fn streamed_upto(chunks: Seq<Seq<u8>>, n: nat, part_exp: nat) -> Seq<u64> {
    Seq::new(n, |i: int| sorted_values(gathered(chunks, i as nat, part_exp))).flatten()
}

/// The values that the streaming strategy writes, in order. Where every chunk is in
/// non-decreasing order these are the values of the chunks in non-decreasing order.
pub open spec fn streamed(chunks: Seq<Seq<u8>>, part_exp: nat) -> Seq<u64> {
    streamed_upto(chunks, part_count(part_exp), part_exp)
}

/// A run that holds no value above `ub` and ends at one, or at the end, is the run
/// that `run_end` measures.
proof fn lemma_run_end_is(vals: Seq<u64>, p: nat, q: nat, ub: nat)
    requires
        p <= q <= vals.len(),
        forall|k: int| p <= k < q ==> #[trigger] vals[k] <= ub,
        q == vals.len() || vals[q as int] > ub,
    ensures
        run_end(vals, p, ub) == q,
    decreases q - p,
{
    if p < q {
        lemma_run_end_is(vals, p + 1, q, ub);
    }
}

/// One more chunk adds its share to what a partition gathers.
proof fn lemma_gathered_push(chunks: Seq<Seq<u8>>, c: Seq<u8>, i: nat, part_exp: nat)
    ensures
        gathered(chunks.push(c), i, part_exp) == gathered(chunks, i, part_exp) + share(
            chunk_values(c),
            i,
            part_exp,
        ),
{
    let f = |c: Seq<u8>| share(chunk_values(c), i, part_exp);
    assert(chunks.push(c).map_values(f) =~= chunks.map_values(f).push(f(c)));
    chunks.map_values(f).lemma_flatten_push(f(c));
}

/// One more partition adds what it has gathered, sorted, to what is written.
proof fn lemma_streamed_push(chunks: Seq<Seq<u8>>, n: nat, part_exp: nat)
    ensures
        streamed_upto(chunks, n + 1, part_exp) == streamed_upto(chunks, n, part_exp)
            + sorted_values(gathered(chunks, n, part_exp)),
{
    let f = |i: int| sorted_values(gathered(chunks, i as nat, part_exp));
    assert(Seq::new(n + 1, f) =~= Seq::new(n, f).push(f(n as int)));
    Seq::new(n, f).lemma_flatten_push(f(n as int));
}

/// The number of values of a chunk that have left it for the result or for the
/// partition at hand: all but the lookahead value and what the reader still holds.
spec fn taken_len(toks: Seq<Seq<u8>>, rest: Seq<Seq<u8>>, next: Option<u64>) -> int {
    toks.len() - rest.len() - if next is Some {
        1int
    } else {
        0int
    }
}

/// The values of a chunk that have left it.
spec fn taken_of(chunk: Seq<u8>, rest: Seq<Seq<u8>>, next: Option<u64>) -> Seq<u64> {
    chunk_values(chunk).take(taken_len(tokens(chunk), rest, next))
}

/// The state of one chunk between two steps: `rest` is what its reader still
/// holds and `next` its lookahead value. Every token read so far was the text of a
/// value, the lookahead value is the one that follows the values taken, and the
/// reader holds what follows that.
spec fn cursor_inv(chunk: Seq<u8>, rest: Seq<Seq<u8>>, next: Option<u64>) -> bool {
    let toks = tokens(chunk);
    let p = taken_len(toks, rest, next);
    &&& 0 <= p <= toks.len()
    &&& forall|k: int| 0 <= k < p ==> token_value(#[trigger] toks[k]) is Some
    &&& match next {
        Some(x) => p < toks.len() && token_value(toks[p]) == Some(x) && rest == toks.skip(p + 1),
        None => rest.len() == 0,
    }
}

/// The state of all chunks between two steps.
spec fn cursors_inv<'a>(
    source: Seq<Seq<u8>>,
    readers: Seq<ChunkReader<'a>>,
    nexts: Seq<Option<u64>>,
) -> bool {
    &&& readers.len() == source.len()
    &&& nexts.len() == source.len()
    &&& forall|j: int|
        0 <= j < source.len() ==> cursor_inv(source[j], (#[trigger] readers[j])@, nexts[j])
}

/// The values that have left the chunks, chunk by chunk.
spec fn all_taken<'a>(
    source: Seq<Seq<u8>>,
    readers: Seq<ChunkReader<'a>>,
    nexts: Seq<Option<u64>>,
) -> Seq<Seq<u64>> {
    Seq::new(source.len(), |j: int| taken_of(source[j], readers[j]@, nexts[j]))
}

/// Chunk `j` is where it is when partition `i` comes up: the partitions before
/// have taken their shares, and the lookahead value belongs to partition `i` or to
/// a later one.
spec fn cursor_at_partition(
    chunk: Seq<u8>,
    rest: Seq<Seq<u8>>,
    next: Option<u64>,
    i: nat,
    part_exp: nat,
) -> bool {
    &&& taken_len(tokens(chunk), rest, next) == cursor_at(chunk_values(chunk), i, part_exp)
    &&& next is Some ==> next.unwrap() >= lower_bound(i, part_exp)
}

/// A chunk that has just been opened: nothing is taken.
proof fn lemma_cursor_open(chunk: Seq<u8>, rest: Seq<Seq<u8>>, next: Option<u64>, part_exp: nat)
    requires
        part_exp <= MAX_PART_EXP,
        tokens(chunk).len() == 0 ==> next is None && rest.len() == 0,
        tokens(chunk).len() > 0 ==> rest == tokens(chunk).skip(1) && token_value(tokens(chunk)[0])
            == next && next is Some,
    ensures
        cursor_inv(chunk, rest, next),
        cursor_at_partition(chunk, rest, next, 0, part_exp),
        taken_of(chunk, rest, next) == Seq::<u64>::empty(),
{
    lemma_partitions_contiguous(0, part_exp);
}

/// A chunk whose lookahead value `x` was taken, with the `n` values behind it that
/// `read_chunk` moved: together they are the run of values up to `ub`.
proof fn lemma_cursor_run(
    chunk: Seq<u8>,
    rest: Seq<Seq<u8>>,
    x: u64,
    n: int,
    ub: u64,
    rest_after: Seq<Seq<u8>>,
    next_after: Option<u64>,
)
    requires
        cursor_inv(chunk, rest, Some(x)),
        0 <= n <= rest.len(),
        forall|k: int|
            0 <= k < n ==> token_value(#[trigger] rest[k]) is Some && token_value(rest[k]).unwrap()
                <= ub,
        x <= ub,
        match next_after {
            None => n == rest.len() && rest_after.len() == 0,
            Some(y) => n < rest.len() && token_value(rest[n]) == Some(y) && y > ub && rest_after
                == rest.skip(n + 1),
        },
    ensures
        cursor_inv(chunk, rest_after, next_after),
        taken_len(tokens(chunk), rest_after, next_after) == taken_len(
            tokens(chunk),
            rest,
            Some(x),
        ) + 1 + n,
        run_end(
            chunk_values(chunk),
            taken_len(tokens(chunk), rest, Some(x)) as nat,
            ub as nat,
        ) == taken_len(tokens(chunk), rest, Some(x)) + 1 + n,
        seq![x] + token_values(rest.take(n)) == chunk_values(chunk).subrange(
            taken_len(tokens(chunk), rest, Some(x)),
            taken_len(tokens(chunk), rest, Some(x)) + 1 + n,
        ),
        sorted(chunk_values(chunk)) ==> forall|k: int|
            0 <= k < n ==> x <= #[trigger] token_values(rest.take(n))[k],
{
    let toks = tokens(chunk);
    let vals = chunk_values(chunk);
    let p = taken_len(toks, rest, Some(x));
    let q = p + 1 + n;
    let moved = token_values(rest.take(n));
    assert forall|k: int| 0 <= k < q implies token_value(#[trigger] toks[k]) is Some by {
        if k > p {
            assert(toks[k] == rest[k - p - 1]);
        }
    }
    if next_after is Some {
        assert(rest.skip(n + 1) =~= toks.skip(q + 1));
        assert(rest[n] == toks[q]);
    }
    assert(seq![x] + moved =~= vals.subrange(p, q)) by {
        assert forall|k: int| 0 <= k < q - p implies (seq![x] + moved)[k] == vals.subrange(
            p,
            q,
        )[k] by {
            if k > 0 {
                assert(rest.take(n)[k - 1] == toks[p + k]);
            }
        }
    }
    assert forall|k: int| p <= k < q implies #[trigger] vals[k] <= ub by {
        if k > p {
            assert(toks[k] == rest[k - p - 1]);
        }
    }
    lemma_run_end_is(vals, p as nat, q as nat, ub as nat);
    if sorted(vals) {
        assert forall|k: int| 0 <= k < n implies x <= #[trigger] moved[k] by {
            assert(moved[k] == vals[p + 1 + k]);
            assert(vals[p] == x);
        }
    }
}

/// The same step, seen from partition `i`, whose upper bound is `ub`: the chunk
/// has given its share and is where it is when partition `i + 1` comes up.
proof fn lemma_cursor_step(
    chunk: Seq<u8>,
    rest: Seq<Seq<u8>>,
    x: u64,
    n: int,
    ub: u64,
    i: nat,
    part_exp: nat,
    rest_after: Seq<Seq<u8>>,
    next_after: Option<u64>,
)
    requires
        part_exp <= MAX_PART_EXP,
        ub == upper_bound(i, part_exp),
        cursor_inv(chunk, rest, Some(x)),
        cursor_at_partition(chunk, rest, Some(x), i, part_exp),
        cursor_inv(chunk, rest_after, next_after),
        taken_len(tokens(chunk), rest_after, next_after) == taken_len(
            tokens(chunk),
            rest,
            Some(x),
        ) + 1 + n,
        run_end(
            chunk_values(chunk),
            taken_len(tokens(chunk), rest, Some(x)) as nat,
            ub as nat,
        ) == taken_len(tokens(chunk), rest, Some(x)) + 1 + n,
        next_after is Some ==> next_after.unwrap() > ub,
        n >= 0,
    ensures
        cursor_at_partition(chunk, rest_after, next_after, i + 1, part_exp),
        share(chunk_values(chunk), i, part_exp) == chunk_values(chunk).subrange(
            taken_len(tokens(chunk), rest, Some(x)),
            taken_len(tokens(chunk), rest, Some(x)) + 1 + n,
        ),
        taken_of(chunk, rest_after, next_after) == taken_of(chunk, rest, Some(x)) + share(
            chunk_values(chunk),
            i,
            part_exp,
        ),
{
    let vals = chunk_values(chunk);
    lemma_partitions_contiguous(i, part_exp);
    assert(cursor_at(vals, i + 1, part_exp) == run_end(
        vals,
        cursor_at(vals, i, part_exp),
        upper_bound(i, part_exp),
    ));
}

/// A chunk that is exhausted, or whose lookahead value lies beyond partition `i`,
/// gives nothing to it.
proof fn lemma_cursor_skip(
    chunk: Seq<u8>,
    rest: Seq<Seq<u8>>,
    next: Option<u64>,
    i: nat,
    part_exp: nat,
)
    requires
        part_exp <= MAX_PART_EXP,
        cursor_inv(chunk, rest, next),
        cursor_at_partition(chunk, rest, next, i, part_exp),
        next is Some ==> next.unwrap() > upper_bound(i, part_exp),
    ensures
        cursor_at_partition(chunk, rest, next, i + 1, part_exp),
        share(chunk_values(chunk), i, part_exp) == Seq::<u64>::empty(),
{
    let vals = chunk_values(chunk);
    let p = taken_len(tokens(chunk), rest, next);
    assert(run_end(vals, p as nat, upper_bound(i, part_exp)) == p);
    assert(vals.subrange(p, p) =~= Seq::<u64>::empty());
}

/// A token that is not the text of a value, met behind the lookahead value, shows
/// that the chunk is not well-formed.
proof fn lemma_cursor_bad_token(chunk: Seq<u8>, rest: Seq<Seq<u8>>, x: u64, n: int)
    requires
        cursor_inv(chunk, rest, Some(x)),
        0 <= n < rest.len(),
        token_value(rest[n]) is None,
    ensures
        !well_formed(chunk),
{
    let toks = tokens(chunk);
    let p = taken_len(toks, rest, Some(x));
    assert(rest[n] == toks[p + 1 + n]);
}

/// A chunk without lookahead value has been read to its end: it is well-formed
/// and all its values are taken.
proof fn lemma_cursor_done(chunk: Seq<u8>, rest: Seq<Seq<u8>>)
    requires
        cursor_inv(chunk, rest, None),
    ensures
        well_formed(chunk),
        taken_of(chunk, rest, None) == chunk_values(chunk),
{
    assert(chunk_values(chunk).take(tokens(chunk).len() as int) =~= chunk_values(chunk));
}

/// Opens the chunks: a reader at the start of each, and its first value as the
/// lookahead value.
fn open_chunks<'a>(chunks: &'a Vec<Vec<u8>>, Ghost(part_exp): Ghost<nat>) -> (r: Result<
    (Vec<ChunkReader<'a>>, Vec<Option<u64>>),
    MergeError,
>)
    requires
        part_exp <= MAX_PART_EXP,
    ensures
        match r {
            Ok((readers, nexts)) => {
                let source = contents(chunks@);
                &&& cursors_inv(source, readers@, nexts@)
                &&& forall|j: int|
                    0 <= j < source.len() ==> cursor_at_partition(
                        source[j],
                        (#[trigger] readers[j])@,
                        nexts[j],
                        0,
                        part_exp,
                    )
                &&& all_taken(source, readers@, nexts@).flatten() == Seq::<u64>::empty()
            },
            Err(e) => e == MergeError::Parse && !all_well_formed(contents(chunks@)),
        },
{
    let ghost source = contents(chunks@);
    let mut readers: Vec<ChunkReader<'a>> = Vec::new();
    let mut nexts: Vec<Option<u64>> = Vec::new();
    let mut c: usize = 0;
    while c < chunks.len()
        invariant
            c <= chunks.len(),
            part_exp <= MAX_PART_EXP,
            source == contents(chunks@),
            readers.len() == c,
            nexts.len() == c,
            forall|j: int|
                0 <= j < c ==> cursor_inv(source[j], (#[trigger] readers[j])@, nexts[j]),
            forall|j: int|
                0 <= j < c ==> cursor_at_partition(
                    source[j],
                    (#[trigger] readers[j])@,
                    nexts[j],
                    0,
                    part_exp,
                ),
            forall|j: int|
                0 <= j < c ==> taken_of(source[j], (#[trigger] readers[j])@, nexts[j]) == Seq::<
                    u64,
                >::empty(),
        decreases chunks.len() - c,
    {
        let mut reader = ChunkReader::new(chunks[c].as_slice());
        let next = match read_next(&mut reader) {
            Ok(next) => next,
            Err(e) => {
                return Err(e);
            },
        };
        proof {
            lemma_cursor_open(source[c as int], reader@, next, part_exp);
        }
        readers.push(reader);
        nexts.push(next);
        c = c + 1;
    }
    proof {
        lemma_flatten_empties(all_taken(source, readers@, nexts@));
    }
    Ok((readers, nexts))
}

/// Gathers the values of partition `i`, whose upper bound is `ub`: of every chunk
/// whose lookahead value does not exceed `ub`, that value and the values behind it
/// up to the first that exceeds `ub`, which becomes the chunk's lookahead value.
fn gather<'a>(
    chunks: &'a Vec<Vec<u8>>,
    readers: &mut Vec<ChunkReader<'a>>,
    nexts: &mut Vec<Option<u64>>,
    ub: u64,
    Ghost(i): Ghost<nat>,
    Ghost(part_exp): Ghost<nat>,
) -> (r: Result<Vec<u64>, MergeError>)
    requires
        part_exp <= MAX_PART_EXP,
        ub == upper_bound(i, part_exp),
        cursors_inv(contents(chunks@), old(readers)@, old(nexts)@),
        forall|j: int|
            0 <= j < chunks.len() ==> cursor_at_partition(
                contents(chunks@)[j],
                (#[trigger] old(readers)[j])@,
                old(nexts)[j],
                i,
                part_exp,
            ),
    ensures
        match r {
            Ok(v) => {
                let source = contents(chunks@);
                &&& cursors_inv(source, final(readers)@, final(nexts)@)
                &&& forall|j: int|
                    0 <= j < source.len() ==> cursor_at_partition(
                        source[j],
                        (#[trigger] final(readers)[j])@,
                        final(nexts)[j],
                        i + 1,
                        part_exp,
                    )
                &&& v@ == gathered(source, i, part_exp)
                &&& all_taken(source, final(readers)@, final(nexts)@).flatten().to_multiset()
                    == all_taken(source, old(readers)@, old(nexts)@).flatten().to_multiset().add(
                    v@.to_multiset(),
                )
                &&& all_sorted(source) ==> forall|k: int|
                    0 <= k < v@.len() ==> lower_bound(i, part_exp) <= #[trigger] v@[k] <= ub
            },
            Err(e) => e == MergeError::Parse && !all_well_formed(contents(chunks@)),
        },
{
    let chunk_num: usize = chunks.len();
    let ghost source = contents(chunks@);
    let ghost before = all_taken(source, readers@, nexts@);
    let ghost lb = lower_bound(i, part_exp);
    let mut v: Vec<u64> = Vec::new();
    let mut j: usize = 0;
    proof {
        lemma_partitions_contiguous(i, part_exp);
        lemma_multiset_commutative(before.flatten(), v@);
    }
    while j < chunk_num
        invariant
            j <= chunk_num,
            chunk_num == chunks.len(),
            part_exp <= MAX_PART_EXP,
            source == contents(chunks@),
            ub == upper_bound(i, part_exp),
            lb == lower_bound(i, part_exp),
            lb <= ub,
            cursors_inv(source, readers@, nexts@),
            forall|c: int|
                0 <= c < chunk_num ==> cursor_at_partition(
                    source[c],
                    (#[trigger] readers[c])@,
                    nexts[c],
                    if c < j {
                        i + 1
                    } else {
                        i
                    },
                    part_exp,
                ),
            all_taken(source, readers@, nexts@).flatten().to_multiset()
                == before.flatten().to_multiset().add(v@.to_multiset()),
            v@ == gathered(source.take(j as int), i, part_exp),
            all_sorted(source) ==> forall|k: int|
                0 <= k < v@.len() ==> lb <= #[trigger] v@[k] <= ub,
        decreases chunk_num - j,
    {
        let ghost chunk = source[j as int];
        let ghost taken = all_taken(source, readers@, nexts@);
        proof {
            lemma_gathered_push(source.take(j as int), chunk, i, part_exp);
            assert(source.take(j + 1) =~= source.take(j as int).push(chunk));
        }
        // A chunk that is exhausted, or whose lookahead value lies beyond this
        // partition, gives nothing to it.
        let fits: bool = match nexts[j] {
            Some(x) => x <= ub,
            None => false,
        };
        if fits {
            let x: u64 = nexts[j].unwrap();
            let ghost held = v@;
            let ghost rest = readers[j as int]@;
            v.push(x);
            let ghost pushed = v@;
            let next = match read_chunk(&mut v, &mut readers[j], ub) {
                Ok(next) => next,
                Err(e) => {
                    proof {
                        lemma_cursor_bad_token(chunk, rest, x, v@.len() - pushed.len());
                    }
                    return Err(e);
                },
            };
            nexts[j] = next;
            proof {
                let n = v@.len() - pushed.len();
                let grown = share(chunk_values(chunk), i, part_exp);
                lemma_cursor_run(chunk, rest, x, n, ub, readers[j as int]@, next);
                lemma_cursor_step(chunk, rest, x, n, ub, i, part_exp, readers[j as int]@, next);
                assert(v@ =~= held + grown);
                let after = all_taken(source, readers@, nexts@);
                assert(after =~= taken.update(j as int, taken[j as int] + grown));
                lemma_flatten_extend(taken, j as int, grown);
                lemma_multiset_commutative(held, grown);
                if all_sorted(source) {
                    assert forall|k: int| 0 <= k < v@.len() implies lb <= #[trigger] v@[k]
                        <= ub by {
                        if k > held.len() {
                            assert(v@[k] == token_values(rest.take(n))[k - held.len() - 1]);
                        }
                    }
                }
            }
        } else {
            proof {
                lemma_cursor_skip(chunk, readers[j as int]@, nexts[j as int], i, part_exp);
            }
        }
        j = j + 1;
    }
    proof {
        assert(source.take(chunk_num as int) =~= source);
    }
    Ok(v)
}

/// Merges the chunks by the streaming strategy, with `2^part_exp` partitions, and
/// leaves the text of the merged values in `result`.
///
/// `chunks[i]` holds the bytes of chunk `i`. What `result` holds at the start is
/// cleared. See `merge_outcome` for what the result owes the chunks and for the
/// errors. A refused exponent leaves `result` as it was; after any other error it
/// is not to be trusted.
pub fn merge_chunks_small(chunks: &Vec<Vec<u8>>, part_exp: usize, result: &mut Vec<u8>) -> (r:
    Result<(), MergeError>)
    ensures
        merge_outcome(
            contents(chunks@),
            part_exp as nat,
            Strategy::Streaming,
            outcome(r, final(result)@),
        ),
        refused(Strategy::Streaming, part_exp as nat) ==> final(result)@ == old(result)@,
{
    let plan = match PartitionPlan::new(part_exp) {
        Ok(plan) => plan,
        Err(e) => {
            return Err(e);
        },
    };
    let ghost exp = part_exp as nat;
    let ghost source = contents(chunks@);
    // chunk_readers[j] reads chunk j; chunk_nexts[j] is its lookahead value.
    let (mut chunk_readers, mut chunk_nexts) = match open_chunks(chunks, Ghost(exp)) {
        Ok(opened) => opened,
        Err(e) => {
            return Err(e);
        },
    };
    result.clear();
    let ghost mut out: Seq<u64> = Seq::empty();
    let ghost mut done: nat = 0;
    let last: u64 = plan.last();
    let mut i: u64 = 0;
    loop
        invariant_except_break
            i == done,
        invariant
            i <= last,
            done <= last + 1,
            last == part_count(exp) - 1,
            plan.part_exp() == exp,
            exp == part_exp,
            exp <= MAX_PART_EXP,
            source == contents(chunks@),
            cursors_inv(source, chunk_readers@, chunk_nexts@),
            forall|j: int|
                0 <= j < source.len() ==> cursor_at_partition(
                    source[j],
                    (#[trigger] chunk_readers[j])@,
                    chunk_nexts[j],
                    done,
                    exp,
                ),
            out == streamed_upto(source, done, exp),
            out.to_multiset() == all_taken(
                source,
                chunk_readers@,
                chunk_nexts@,
            ).flatten().to_multiset(),
            result@ == encode(out),
            all_sorted(source) ==> sorted(out),
            all_sorted(source) ==> forall|k: int|
                0 <= k < out.len() ==> #[trigger] out[k] < lower_bound(done, exp),
        ensures
            done == part_count(exp),
        decreases last - i,
    {
        let (_, ub) = plan.bounds(i);
        let gathered = gather(
            chunks,
            &mut chunk_readers,
            &mut chunk_nexts,
            ub,
            Ghost(done),
            Ghost(exp),
        );
        let mut v = match gathered {
            Ok(v) => v,
            Err(e) => {
                return Err(e);
            },
        };
        let ghost unsorted = v@;
        sort(&mut v);
        write_result(result, &v);
        proof {
            lemma_partitions_contiguous(done, exp);
            lemma_sorted_values(unsorted, v@);
            lemma_streamed_push(source, done, exp);
            lemma_encode_concat(out, v@);
            lemma_multiset_commutative(out, v@);
            if all_sorted(source) {
                assert forall|a: int, b: int| 0 <= a < out.len() && 0 <= b < v@.len() implies out[a]
                    <= v@[b] by {
                    lemma_same_values_member(v@, unsorted, b);
                }
                lemma_sorted_concat(out, v@);
                assert forall|k: int| 0 <= k < (out + v@).len() implies #[trigger] (out + v@)[k]
                    < lower_bound(done + 1, exp) by {
                    if k >= out.len() {
                        lemma_same_values_member(v@, unsorted, k - out.len());
                    }
                }
            }
            out = out + v@;
            done = done + 1;
        }
        if i == last {
            break ;
        }
        i = i + 1;
    }
    proof {
        lemma_count_width(exp);
        let taken = all_taken(source, chunk_readers@, chunk_nexts@);
        assert forall|j: int| 0 <= j < source.len() implies well_formed(#[trigger] source[j])
            && taken[j] == chunk_values(source[j]) by {
            // No value reaches the lower bound of a partition behind the last.
            assert(cursor_at_partition(source[j], chunk_readers[j]@, chunk_nexts[j], done, exp));
            lemma_cursor_done(source[j], chunk_readers[j]@);
        }
        assert(taken =~= source.map_values(|c: Seq<u8>| chunk_values(c)));
        lemma_encode_well_formed(out);
    }
    Ok(())
}

} // verus!
