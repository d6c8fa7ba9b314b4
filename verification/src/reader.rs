//! Reading a chunk: a byte source as a sequence of tokens, one value at a time.

use crate::decimal::{delimits, is_delimiter, parse_token, token_value, DELIMITER};
use crate::error::MergeError;
use vstd::prelude::*;

verus! {

/// The length of the run of bytes in front of `s` that holds no delimiter.
pub open spec fn token_len(s: Seq<u8>) -> nat
    decreases s.len(),
{
    if s.len() == 0 || is_delimiter(s[0]) {
        0
    } else {
        1 + token_len(s.skip(1))
    }
}

/// The tokens of a byte source, in order: its maximal non-empty runs of bytes that
/// hold no delimiter, that is, no ASCII whitespace. Delimiters at either end and
/// between tokens, however many and of whichever kind, yield no token.
pub open spec fn tokens(s: Seq<u8>) -> Seq<Seq<u8>>
    decreases s.len(),
    via tokens_decreases
{
    if s.len() == 0 {
        Seq::empty()
    } else if is_delimiter(s[0]) {
        tokens(s.skip(1))
    } else {
        let n = token_len(s) as int;
        seq![s.take(n)] + tokens(s.skip(n))
    }
}

#[via_fn]
proof fn tokens_decreases(s: Seq<u8>) {
    lemma_token_len_bounds(s);
}

/// The first token does not reach beyond its source, and it is not empty where the
/// source starts with a byte other than a delimiter.
pub proof fn lemma_token_len_bounds(s: Seq<u8>)
    ensures
        token_len(s) <= s.len(),
        s.len() > 0 && !is_delimiter(s[0]) ==> token_len(s) > 0,
    decreases s.len(),
{
    if s.len() > 0 && !is_delimiter(s[0]) {
        lemma_token_len_bounds(s.skip(1));
    }
}

/// A run of `n` bytes without delimiter that ends at a delimiter or at the end of
/// the source is the first token's extent.
pub proof fn lemma_token_len_is(s: Seq<u8>, n: int)
    requires
        0 <= n <= s.len(),
        forall|i: int| 0 <= i < n ==> !is_delimiter(s[i]),
        n == s.len() || is_delimiter(s[n]),
    ensures
        token_len(s) == n,
    decreases n,
{
    if n > 0 {
        lemma_token_len_is(s.skip(1), n - 1);
    }
}

/// A source that starts with a token, then a space, holds that token first.
pub proof fn lemma_tokens_first(t: Seq<u8>, rest: Seq<u8>)
    requires
        t.len() > 0,
        forall|i: int| 0 <= i < t.len() ==> !is_delimiter(t[i]),
    ensures
        tokens(t + seq![DELIMITER] + rest) == seq![t] + tokens(rest),
{
    let s = t + seq![DELIMITER] + rest;
    let n = t.len() as int;
    lemma_token_len_is(s, n);
    assert(s.take(n) =~= t);
    let tail = s.skip(n);
    assert(tail.skip(1) =~= rest);
    assert(tokens(tail) == tokens(rest));
}

/// The values of a sequence of tokens, each of which is the text of a value.
pub open spec fn token_values(toks: Seq<Seq<u8>>) -> Seq<u64> {
    toks.map_values(|t: Seq<u8>| token_value(t).unwrap())
}

/// A read cursor over the bytes of one chunk.
#[derive(Debug)]
pub struct ChunkReader<'a> {
    data: &'a [u8],
    pos: usize,
}

impl<'a> ChunkReader<'a> {
    #[verifier::type_invariant]
    spec fn in_bounds(self) -> bool {
        self.pos <= self.data@.len()
    }

    /// The bytes that have not been read yet.
    pub closed spec fn remaining(self) -> Seq<u8> {
        self.data@.skip(self.pos as int)
    }

    /// A cursor at the start of `data`.
    pub fn new(data: &'a [u8]) -> (r: Self)
        ensures
            r.remaining() == data@,
    {
        ChunkReader { data, pos: 0 }
    }
}

impl<'a> View for ChunkReader<'a> {
    type V = Seq<Seq<u8>>;

    /// The tokens that have not been read yet.
    open spec fn view(&self) -> Seq<Seq<u8>> {
        tokens(self.remaining())
    }
}

/// What reading from a reader that holds the tokens `toks` returns: nothing when
/// no token is left, else the value of the first token, or `MergeError::Parse`
/// when that token is not the text of a value.
pub open spec fn first_value(toks: Seq<Seq<u8>>) -> Result<Option<u64>, MergeError> {
    if toks.len() == 0 {
        Ok(None)
    } else {
        match token_value(toks[0]) {
            Some(x) => Ok(Some(x)),
            None => Err(MergeError::Parse),
        }
    }
}

/// The tokens that are left after one has been read.
pub open spec fn after_first(toks: Seq<Seq<u8>>) -> Seq<Seq<u8>> {
    if toks.len() == 0 {
        toks
    } else {
        toks.skip(1)
    }
}

/// Reads the next token and gives its value.
///
/// Returns `Ok(None)` when no token is left, and `MergeError::Parse` when the
/// next token is not the text of a value; the token is consumed either way.
pub fn read_next(reader: &mut ChunkReader) -> (r: Result<Option<u64>, MergeError>)
    ensures
        r == first_value(old(reader)@),
        final(reader)@ == after_first(old(reader)@),
{
    proof {
        use_type_invariant(&*reader);
    }
    let data: &[u8] = reader.data;
    let len: usize = data.len();
    let mut start: usize = reader.pos;
    while start < len && delimits(data[start])
        invariant
            start <= len,
            len == data@.len(),
            tokens(data@.skip(start as int)) == old(reader)@,
        decreases len - start,
    {
        assert(data@.skip(start as int).skip(1) =~= data@.skip(start + 1));
        start = start + 1;
    }
    if start == len {
        reader.pos = len;
        assert(reader@ =~= old(reader)@);
        return Ok(None);
    }
    let mut end: usize = start + 1;
    while end < len && !delimits(data[end])
        invariant
            start < end <= len,
            len == data@.len(),
            forall|i: int| start <= i < end ==> !is_delimiter(data@[i]),
        decreases len - end,
    {
        end = end + 1;
    }
    let ghost source = data@.skip(start as int);
    proof {
        lemma_token_len_is(source, end - start);
        assert(source.take(end - start) =~= data@.subrange(start as int, end as int));
        assert(source.skip(end - start) =~= data@.skip(end as int));
        if end < len {
            assert(data@.skip(end as int).skip(1) =~= data@.skip(end + 1));
        }
        assert(old(reader)@.skip(1) =~= tokens(data@.skip(end as int)));
    }
    let token: &[u8] = vstd::slice::slice_subrange(data, start, end);
    reader.pos = if end < len { end + 1 } else { end };
    match parse_token(token) {
        Some(x) => Ok(Some(x)),
        None => Err(MergeError::Parse),
    }
}

/// Moves the values in front of the reader that do not exceed `ub` to the end of
/// `v`, and returns the first value that exceeds it, or `None` when the reader
/// is exhausted first. That value is consumed and no longer in the reader.
///
/// Stops with `MergeError::Parse` at the first token that is not the text of a
/// value; the values in front of it have been moved.
pub fn read_chunk(v: &mut Vec<u64>, reader: &mut ChunkReader, ub: u64) -> (r: Result<
    Option<u64>,
    MergeError,
>)
    ensures
        ({
            let toks = old(reader)@;
            let n = final(v)@.len() - old(v)@.len();
            &&& 0 <= n <= toks.len()
            &&& forall|i: int|
                0 <= i < n ==> token_value(#[trigger] toks[i]) is Some && token_value(
                    toks[i],
                ).unwrap() <= ub
            &&& final(v)@ == old(v)@ + token_values(toks.take(n))
            &&& match r {
                Ok(None) => n == toks.len() && final(reader)@.len() == 0,
                Ok(Some(x)) => n < toks.len() && token_value(toks[n]) == Some(x) && x > ub
                    && final(reader)@ == toks.skip(n + 1),
                Err(e) => e == MergeError::Parse && n < toks.len() && token_value(toks[n]) is None
                    && final(reader)@ == toks.skip(n + 1),
            }
        }),
{
    let ghost toks = reader@;
    let ghost before = v@;
    let ghost mut n: int = 0;
    loop
        invariant
            toks == old(reader)@,
            before == old(v)@,
            0 <= n <= toks.len(),
            reader@ == toks.skip(n),
            v@ == before + token_values(toks.take(n)),
            forall|i: int|
                0 <= i < n ==> token_value(#[trigger] toks[i]) is Some && token_value(
                    toks[i],
                ).unwrap() <= ub,
        decreases toks.len() - n,
    {
        match read_next(reader) {
            Ok(Some(x)) => {
                if x <= ub {
                    v.push(x);
                    proof {
                        n = n + 1;
                    }
                } else {
                    return Ok(Some(x));
                }
            },
            Ok(None) => {
                return Ok(None);
            },
            Err(e) => {
                return Err(e);
            },
        }
    }
}

} // verus!
