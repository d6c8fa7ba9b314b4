//! The bucketed strategy: every value goes to the staging bucket of its partition
//! first; then the buckets are resolved one by one, in partition order.

use crate::decimal::token_value;
use crate::error::MergeError;
use crate::merger::model::{
    all_values,
    all_well_formed,
    chunk_values,
    contents,
    lemma_encode_well_formed,
    lemma_flatten_empties,
    lemma_flatten_extend,
    merge_outcome,
    outcome,
    refused,
    well_formed,
    Strategy,
};
use crate::partition::{
    lemma_count_width,
    lemma_partitions_cover,
    part_count,
    part_of,
    part_width,
    MAX_PART_EXP,
};
use crate::reader::{read_chunk, read_next, token_values, tokens, ChunkReader};
use crate::sorter::{
    lemma_same_values_member,
    lemma_sorted_concat,
    lemma_sorted_values,
    sort,
    sorted,
    sorted_values,
};
use crate::writer::{encode, lemma_encode_concat, lemma_encode_push, write_result, write_to_part};
use vstd::bits::{lemma_usize_pow2_no_overflow, lemma_usize_shl_is_mul};
use vstd::prelude::*;
use vstd::seq_lib::lemma_multiset_commutative;

verus! {

/// Whether a value belongs to partition `b`.
pub open spec fn in_part(b: nat, part_exp: nat) -> spec_fn(u64) -> bool {
    |x: u64| part_of(x as nat, part_exp) == b
}

/// The values among `vals` that belong to partition `b`, in the order in which
/// `vals` holds them.
pub open spec fn bucket_values(vals: Seq<u64>, b: nat, part_exp: nat) -> Seq<u64> {
    vals.filter(in_part(b, part_exp))
}

/// No value of a bucket exceeds a value of a later bucket.
pub open spec fn buckets_ordered(buckets: Seq<Seq<u8>>) -> bool {
    forall|a: int, b: int, i: int, j: int|
        0 <= a < b < buckets.len() && 0 <= i < chunk_values(buckets[a]).len() && 0 <= j
            < chunk_values(buckets[b]).len() ==> #[trigger] chunk_values(buckets[a])[i]
            <= #[trigger] chunk_values(buckets[b])[j]
}

/// The values that the second pass writes: those of the first bucket in
/// non-decreasing order, then those of the second, and so on.
pub open spec fn resolved(buckets: Seq<Seq<u8>>) -> Seq<u64> {
    buckets.map_values(|b: Seq<u8>| sorted_values(chunk_values(b))).flatten()
}

/// The values of the chunks, bucket by bucket.
pub open spec fn fanned_out(vals: Seq<u64>, part_exp: nat) -> Seq<Seq<u64>> {
    Seq::new(part_count(part_exp), |b: int| bucket_values(vals, b as nat, part_exp))
}

/// One more value goes to the bucket of its partition and leaves the others as
/// they are.
pub proof fn lemma_bucket_values_push(vals: Seq<u64>, x: u64, b: nat, part_exp: nat)
    ensures
        bucket_values(vals.push(x), b, part_exp) == if part_of(x as nat, part_exp) == b {
            bucket_values(vals, b, part_exp).push(x)
        } else {
            bucket_values(vals, b, part_exp)
        },
{
    vals.lemma_filter_push(x, in_part(b, part_exp));
}

/// The buckets hold the values that were fanned out, each as often.
pub proof fn lemma_fanned_out_holds_all(vals: Seq<u64>, part_exp: nat)
    requires
        part_exp <= MAX_PART_EXP,
    ensures
        fanned_out(vals, part_exp).flatten().to_multiset() == vals.to_multiset(),
    decreases vals.len(),
{
    broadcast use vstd::seq_lib::group_to_multiset_ensures;

    let all = fanned_out(vals, part_exp);
    if vals.len() == 0 {
        lemma_flatten_empties(all);
    } else {
        let init = vals.drop_last();
        let x = vals.last();
        let p = part_of(x as nat, part_exp);
        assert(vals =~= init.push(x));
        lemma_fanned_out_holds_all(init, part_exp);
        lemma_partitions_cover(x, p, part_exp);
        let before = fanned_out(init, part_exp);
        assert(all =~= before.update(p as int, before[p as int] + seq![x])) by {
            assert forall|b: int| 0 <= b < all.len() implies all[b] == before.update(
                p as int,
                before[p as int] + seq![x],
            )[b] by {
                lemma_bucket_values_push(init, x, b as nat, part_exp);
            }
        }
        lemma_flatten_extend(before, p as int, seq![x]);
    }
}

/// Values of an earlier partition are below those of a later one.
pub proof fn lemma_parts_ordered(x: u64, y: u64, part_exp: nat)
    requires
        part_exp <= MAX_PART_EXP,
        part_of(x as nat, part_exp) < part_of(y as nat, part_exp),
    ensures
        x < y,
{
    let a = part_of(x as nat, part_exp);
    let b = part_of(y as nat, part_exp);
    lemma_partitions_cover(x, a, part_exp);
    lemma_partitions_cover(y, b, part_exp);
    lemma_count_width(part_exp);
    let w = part_width(part_exp) as int;
    assert((a + 1) * w >= 1) by (nonlinear_arith)
        requires
            a >= 0,
            w >= 1,
    ;
    assert((a + 1) * w <= b * w) by (nonlinear_arith)
        requires
            a + 1 <= b,
            w >= 1,
    ;
}

/// One empty staging bucket for each of the `2^part_exp` partitions, in partition
/// order; `InvalidArgument` when that many buckets cannot be had.
pub fn new_buckets(part_exp: usize) -> (r: Result<Vec<Vec<u8>>, MergeError>)
    ensures
        refused(Strategy::Bucketed, part_exp as nat) ==> r == Err::<Vec<Vec<u8>>, MergeError>(
            MergeError::InvalidArgument,
        ),
        !refused(Strategy::Bucketed, part_exp as nat) ==> {
            &&& r is Ok
            &&& r.unwrap().len() == part_count(part_exp as nat)
            &&& forall|b: int|
                0 <= b < r.unwrap().len() ==> (#[trigger] r.unwrap()[b])@ == Seq::<u8>::empty()
        },
{
    if part_exp > MAX_PART_EXP || part_exp >= usize::BITS as usize {
        return Err(MergeError::InvalidArgument);
    }
    proof {
        lemma_usize_pow2_no_overflow(part_exp as nat);
        lemma_usize_shl_is_mul(1usize, part_exp);
    }
    let count: usize = 1usize << part_exp;
    let mut buckets: Vec<Vec<u8>> = Vec::new();
    let mut b: usize = 0;
    while b < count
        invariant
            b <= count,
            buckets.len() == b,
            forall|i: int| 0 <= i < b ==> (#[trigger] buckets[i])@ == Seq::<u8>::empty(),
        decreases count - b,
    {
        buckets.push(Vec::new());
        b = b + 1;
    }
    Ok(buckets)
}

/// The first pass for one chunk: moves every value of the chunk to the staging
/// bucket of its partition, as text, in the order in which the chunk holds them.
/// `buckets` holds one bucket for each of the `2^part_exp` partitions.
///
/// Returns `Parse` when the chunk holds a token that is not the text of a value;
/// the buckets then hold the values in front of that token and are of no use.
pub fn fan_out_chunk(buckets: &mut Vec<Vec<u8>>, chunk: &[u8], part_exp: usize) -> (r: Result<
    (),
    MergeError,
>)
    requires
        part_exp <= MAX_PART_EXP,
        old(buckets).len() == part_count(part_exp as nat),
    ensures
        final(buckets).len() == old(buckets).len(),
        !well_formed(chunk@) ==> r == Err::<(), MergeError>(MergeError::Parse),
        well_formed(chunk@) ==> {
            &&& r is Ok
            &&& forall|b: int|
                0 <= b < old(buckets).len() ==> (#[trigger] final(buckets)[b])@ == old(
                    buckets,
                )[b]@ + encode(bucket_values(chunk_values(chunk@), b as nat, part_exp as nat))
        },
{
    let mut reader = ChunkReader::new(chunk);
    let ghost exp = part_exp as nat;
    let ghost toks = tokens(chunk@);
    let ghost mut seen: Seq<u64> = Seq::empty();
    let ghost mut k: int = 0;
    loop
        invariant
            exp == part_exp,
            exp <= MAX_PART_EXP,
            toks == tokens(chunk@),
            buckets.len() == old(buckets).len(),
            buckets.len() == part_count(exp),
            0 <= k <= toks.len(),
            reader@ == toks.skip(k),
            forall|i: int| 0 <= i < k ==> token_value(#[trigger] toks[i]) is Some,
            seen == token_values(toks.take(k)),
            forall|b: int|
                0 <= b < buckets.len() ==> (#[trigger] buckets[b])@ == old(buckets)[b]@ + encode(
                    bucket_values(seen, b as nat, exp),
                ),
        ensures
            k == toks.len(),
        decreases toks.len() - k,
    {
        match read_next(&mut reader) {
            Ok(Some(x)) => {
                write_to_part(buckets, x, part_exp);
                proof {
                    let grown = seen.push(x);
                    assert forall|b: int| 0 <= b < buckets.len() implies (#[trigger] buckets[b])@
                        == old(buckets)[b]@ + encode(bucket_values(grown, b as nat, exp)) by {
                        let held = bucket_values(seen, b as nat, exp);
                        lemma_bucket_values_push(seen, x, b as nat, exp);
                        lemma_encode_push(held, x);
                    }
                    seen = grown;
                    k = k + 1;
                }
            },
            Ok(None) => {
                break ;
            },
            Err(e) => {
                return Err(e);
            },
        }
    }
    Ok(())
}

/// The first pass: moves every value of every chunk to the staging bucket of its
/// partition, as text, in the order in which the chunks hold them.
///
/// Returns one bucket for each of the `2^part_exp` partitions, in partition
/// order; `InvalidArgument` when that many buckets cannot be had; and `Parse`
/// when a chunk holds a token that is not the text of a value.
pub fn fan_out(chunks: &Vec<Vec<u8>>, part_exp: usize) -> (r: Result<Vec<Vec<u8>>, MergeError>)
    ensures
        refused(Strategy::Bucketed, part_exp as nat) ==> r == Err::<Vec<Vec<u8>>, MergeError>(
            MergeError::InvalidArgument,
        ),
        !refused(Strategy::Bucketed, part_exp as nat) && !all_well_formed(contents(chunks@)) ==> r
            == Err::<Vec<Vec<u8>>, MergeError>(MergeError::Parse),
        !refused(Strategy::Bucketed, part_exp as nat) && all_well_formed(contents(chunks@)) ==> {
            &&& r is Ok
            &&& r.unwrap().len() == part_count(part_exp as nat)
            &&& forall|b: int|
                0 <= b < r.unwrap().len() ==> (#[trigger] r.unwrap()[b])@ == encode(
                    bucket_values(all_values(contents(chunks@)), b as nat, part_exp as nat),
                )
        },
{
    let mut buckets = match new_buckets(part_exp) {
        Ok(buckets) => buckets,
        Err(e) => {
            return Err(e);
        },
    };
    let ghost exp = part_exp as nat;
    let ghost source = contents(chunks@);
    let mut j: usize = 0;
    while j < chunks.len()
        invariant
            j <= chunks.len(),
            exp == part_exp,
            !refused(Strategy::Bucketed, exp),
            source == contents(chunks@),
            buckets.len() == part_count(exp),
            forall|i: int| 0 <= i < j ==> well_formed(#[trigger] source[i]),
            forall|b: int|
                0 <= b < buckets.len() ==> (#[trigger] buckets[b])@ == encode(
                    bucket_values(all_values(source.take(j as int)), b as nat, exp),
                ),
        decreases chunks.len() - j,
    {
        match fan_out_chunk(&mut buckets, chunks[j].as_slice(), part_exp) {
            Ok(()) => {},
            Err(e) => {
                assert(!well_formed(source[j as int]));
                return Err(e);
            },
        }
        proof {
            let seen = all_values(source.take(j as int));
            let vals = chunk_values(source[j as int]);
            let f = |c: Seq<u8>| chunk_values(c);
            assert(source.take(j + 1).map_values(f) =~= source.take(j as int).map_values(f).push(
                vals,
            ));
            source.take(j as int).map_values(f).lemma_flatten_push(vals);
            assert forall|b: int| 0 <= b < buckets.len() implies (#[trigger] buckets[b])@ == encode(
                bucket_values(seen + vals, b as nat, exp),
            ) by {
                Seq::filter_distributes_over_add(seen, vals, in_part(b as nat, exp));
                lemma_encode_concat(
                    bucket_values(seen, b as nat, exp),
                    bucket_values(vals, b as nat, exp),
                );
            }
        }
        j = j + 1;
    }
    proof {
        assert(source.take(chunks.len() as int) =~= source);
    }
    Ok(buckets)
}

/// The second pass for one bucket: reads the bucket and sorts its values.
///
/// Returns the text of the values of the bucket in non-decreasing order, and
/// `Parse` when the bucket holds a token that is not the text of a value.
pub fn resolve_bucket(bucket: &[u8]) -> (r: Result<Vec<u8>, MergeError>)
    ensures
        !well_formed(bucket@) ==> r == Err::<Vec<u8>, MergeError>(MergeError::Parse),
        well_formed(bucket@) ==> r is Ok && r.unwrap()@ == encode(
            sorted_values(chunk_values(bucket@)),
        ),
{
    let mut reader = ChunkReader::new(bucket);
    let mut v: Vec<u64> = Vec::new();
    // Every value is within the bound, so the whole bucket is read.
    match read_chunk(&mut v, &mut reader, u64::MAX) {
        Ok(_) => {},
        Err(e) => {
            return Err(e);
        },
    }
    proof {
        assert(v@ =~= chunk_values(bucket@));
    }
    let ghost unsorted = v@;
    sort(&mut v);
    let mut text: Vec<u8> = Vec::new();
    write_result(&mut text, &v);
    proof {
        lemma_sorted_values(unsorted, v@);
    }
    Ok(text)
}

/// The second pass: resolves every bucket and appends what it gives to the
/// result, bucket after bucket.
///
/// Returns `Parse` when a bucket holds a token that is not the text of a value.
/// Else the result is the text of `resolved`: of the values of the buckets, each
/// as often as the buckets hold it, in non-decreasing order if the buckets are
/// ordered.
pub fn resolve_buckets(buckets: &Vec<Vec<u8>>) -> (r: Result<Vec<u8>, MergeError>)
    ensures
        !all_well_formed(contents(buckets@)) ==> r == Err::<Vec<u8>, MergeError>(MergeError::Parse),
        all_well_formed(contents(buckets@)) ==> {
            &&& r is Ok
            &&& well_formed(r.unwrap()@)
            &&& r.unwrap()@ == encode(chunk_values(r.unwrap()@))
            &&& chunk_values(r.unwrap()@) == resolved(contents(buckets@))
            &&& chunk_values(r.unwrap()@).to_multiset() == all_values(
                contents(buckets@),
            ).to_multiset()
            &&& buckets_ordered(contents(buckets@)) ==> sorted(chunk_values(r.unwrap()@))
        },
{
    let ghost source = contents(buckets@);
    let ghost mut out: Seq<u64> = Seq::empty();
    let mut result: Vec<u8> = Vec::new();
    let mut i: usize = 0;
    while i < buckets.len()
        invariant
            i <= buckets.len(),
            source == contents(buckets@),
            result@ == encode(out),
            out == resolved(source.take(i as int)),
            forall|b: int| 0 <= b < i ==> well_formed(#[trigger] source[b]),
            out.to_multiset() == all_values(source.take(i as int)).to_multiset(),
            buckets_ordered(source) ==> sorted(out),
            buckets_ordered(source) ==> forall|k: int, b: int, m: int|
                0 <= k < out.len() && i <= b < source.len() && 0 <= m < chunk_values(
                    source[b],
                ).len() ==> #[trigger] out[k] <= #[trigger] chunk_values(source[b])[m],
        decreases buckets.len() - i,
    {
        let ghost vals = chunk_values(source[i as int]);
        let ghost v = sorted_values(vals);
        let mut text = match resolve_bucket(buckets[i].as_slice()) {
            Ok(text) => text,
            Err(e) => {
                return Err(e);
            },
        };
        result.append(&mut text);
        proof {
            let grown = out + v;
            let g = |b: Seq<u8>| sorted_values(chunk_values(b));
            lemma_sorted_values(vals, v);
            assert(source.take(i + 1).map_values(g) =~= source.take(i as int).map_values(g).push(
                v,
            ));
            source.take(i as int).map_values(g).lemma_flatten_push(v);
            lemma_encode_concat(out, v);
            let f = |c: Seq<u8>| chunk_values(c);
            assert(source.take(i + 1).map_values(f) =~= source.take(i as int).map_values(f).push(
                vals,
            ));
            source.take(i as int).map_values(f).lemma_flatten_push(vals);
            lemma_multiset_commutative(out, v);
            lemma_multiset_commutative(all_values(source.take(i as int)), vals);
            if buckets_ordered(source) {
                assert forall|a: int, c: int| 0 <= a < out.len() && 0 <= c < v.len() implies out[a]
                    <= v[c] by {
                    lemma_same_values_member(v, vals, c);
                }
                lemma_sorted_concat(out, v);
                assert forall|k: int, b: int, m: int|
                    0 <= k < grown.len() && i + 1 <= b < source.len() && 0 <= m < chunk_values(
                        source[b],
                    ).len() implies #[trigger] grown[k] <= #[trigger] chunk_values(
                    source[b],
                )[m] by {
                    if k >= out.len() {
                        lemma_same_values_member(v, vals, k - out.len());
                    }
                }
            }
            out = grown;
        }
        i = i + 1;
    }
    proof {
        assert(source.take(buckets.len() as int) =~= source);
        lemma_encode_well_formed(out);
    }
    Ok(result)
}

/// Merges the chunks by the bucketed strategy, with `2^part_exp` partitions, and
/// leaves the text of the merged values in `result`.
///
/// `chunks[i]` holds the bytes of chunk `i`. The staging buckets are made anew,
/// and what `result` holds at the start is cleared. See `merge_outcome` for what
/// the result owes the chunks and for the errors. A refused exponent leaves
/// `result` as it was; after any other error it is not to be trusted.
pub fn merge_chunks_large(chunks: &Vec<Vec<u8>>, part_exp: usize, result: &mut Vec<u8>) -> (r:
    Result<(), MergeError>)
    ensures
        merge_outcome(
            contents(chunks@),
            part_exp as nat,
            Strategy::Bucketed,
            outcome(r, final(result)@),
        ),
        refused(Strategy::Bucketed, part_exp as nat) ==> final(result)@ == old(result)@,
{
    let buckets = match fan_out(chunks, part_exp) {
        Ok(buckets) => buckets,
        Err(e) => {
            return Err(e);
        },
    };
    proof {
        let exp = part_exp as nat;
        let all = all_values(contents(chunks@));
        let staged = contents(buckets@);
        let f = |c: Seq<u8>| chunk_values(c);
        assert forall|b: int| 0 <= b < staged.len() implies well_formed(#[trigger] staged[b])
            && chunk_values(staged[b]) == bucket_values(all, b as nat, exp) by {
            lemma_encode_well_formed(bucket_values(all, b as nat, exp));
        }
        assert(staged.map_values(f) =~= fanned_out(all, exp));
        lemma_fanned_out_holds_all(all, exp);
        assert forall|a: int, b: int, i: int, j: int|
            0 <= a < b < staged.len() && 0 <= i < chunk_values(staged[a]).len() && 0 <= j
                < chunk_values(staged[b]).len() implies #[trigger] chunk_values(staged[a])[i]
            <= #[trigger] chunk_values(staged[b])[j] by {
            let x = chunk_values(staged[a])[i];
            let y = chunk_values(staged[b])[j];
            lemma_parts_ordered(x, y, exp);
        }
    }
    result.clear();
    let mut text = match resolve_buckets(&buckets) {
        Ok(text) => text,
        Err(e) => {
            return Err(e);
        },
    };
    result.append(&mut text);
    Ok(())
}

} // verus!
