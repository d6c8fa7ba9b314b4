//! Writing values as text: each value in its canonical decimal form, followed by
//! one delimiter.

use crate::decimal::{
    decimal,
    is_delimiter,
    lemma_decimal_digits,
    lemma_decimal_round_trip,
    push_decimal,
    token_value,
    DELIMITER,
};
use crate::partition::{index_for, part_count, part_of, MAX_PART_EXP};
use crate::reader::{lemma_tokens_first, token_values, tokens};
use vstd::prelude::*;

verus! {

/// The text of a sequence of values.
pub open spec fn encode(vals: Seq<u64>) -> Seq<u8>
    decreases vals.len(),
{
    if vals.len() == 0 {
        Seq::empty()
    } else {
        encode(vals.drop_last()) + decimal(vals.last() as nat) + seq![DELIMITER]
    }
}

/// The text of two sequences of values, one after the other, is the text of the
/// first followed by the text of the second.
pub proof fn lemma_encode_concat(a: Seq<u64>, b: Seq<u64>)
    ensures
        encode(a + b) == encode(a) + encode(b),
    decreases b.len(),
{
    if b.len() == 0 {
    } else {
        lemma_encode_concat(a, b.drop_last());
        assert((a + b).drop_last() =~= a + b.drop_last());
    }
}

/// The text of one more value at the end.
pub proof fn lemma_encode_push(vals: Seq<u64>, x: u64)
    ensures
        encode(vals.push(x)) == encode(vals) + decimal(x as nat) + seq![DELIMITER],
{
    assert(vals.push(x).drop_last() =~= vals);
}

/// Reading the text of a sequence of values gives the values back: its tokens are
/// the canonical forms of the values, in order.
pub proof fn lemma_encode_round_trip(vals: Seq<u64>)
    ensures
        tokens(encode(vals)).len() == vals.len(),
        forall|k: int|
            0 <= k < vals.len() ==> token_value(#[trigger] tokens(encode(vals))[k]) == Some(
                vals[k],
            ),
        token_values(tokens(encode(vals))) == vals,
    decreases vals.len(),
{
    if vals.len() > 0 {
        let first = vals[0];
        let rest = vals.skip(1);
        let text = decimal(first as nat);
        // The text of the values is the text of the first, a delimiter, and the
        // text of the rest.
        assert(vals =~= seq![first] + rest);
        lemma_encode_concat(seq![first], rest);
        lemma_encode_push(Seq::<u64>::empty(), first);
        // The text of the first holds digits only and reads back as the first.
        lemma_decimal_digits(first as nat);
        lemma_decimal_round_trip(first);
        assert(forall|i: int| 0 <= i < text.len() ==> !is_delimiter(text[i]));
        lemma_tokens_first(text, encode(rest));
        lemma_encode_round_trip(rest);
    }
}

/// Appends the text of the values of `v`, in order, to the result.
pub fn write_result(writer: &mut Vec<u8>, v: &Vec<u64>)
    ensures
        final(writer)@ == old(writer)@ + encode(v@),
{
    let mut i: usize = 0;
    while i < v.len()
        invariant
            i <= v.len(),
            writer@ == old(writer)@ + encode(v@.take(i as int)),
        decreases v.len() - i,
    {
        proof {
            assert(v@.take(i + 1) =~= v@.take(i as int).push(v@[i as int]));
            lemma_encode_push(v@.take(i as int), v@[i as int]);
        }
        push_decimal(writer, v[i]);
        writer.push(DELIMITER);
        i = i + 1;
    }
    assert(v@.take(v.len() as int) =~= v@);
}

/// Appends the text of `x` to the staging bucket of the partition that holds `x`.
/// `writers` holds one bucket for each of the `2^part_exp` partitions.
pub fn write_to_part(writers: &mut Vec<Vec<u8>>, x: u64, part_exp: usize)
    requires
        part_exp <= MAX_PART_EXP,
        old(writers).len() == part_count(part_exp as nat),
    ensures
        final(writers).len() == old(writers).len(),
        forall|b: int|
            0 <= b < old(writers).len() ==> #[trigger] final(writers)[b]@ == if b == part_of(
                x as nat,
                part_exp as nat,
            ) {
                old(writers)[b]@ + decimal(x as nat) + seq![DELIMITER]
            } else {
                old(writers)[b]@
            },
{
    let part_id: usize = index_for(x, part_exp) as usize;
    let bucket: &mut Vec<u8> = &mut writers[part_id];
    push_decimal(bucket, x);
    bucket.push(DELIMITER);
}

} // verus!
