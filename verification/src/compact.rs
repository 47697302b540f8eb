//! The compact positional binary format: a byte-array value is its raw
//! bytes in stored order, a word-array value is its words in order, each
//! as a fixed-width little-endian 64-bit integer. No length prefix is
//! written; the length is static and known to both sides. Decoding that
//! runs out of bytes fails with `TruncatedInput`.

use vstd::prelude::*;
use vstd::slice::{slice_subrange, slice_to_vec};
use crate::errors::DecodeError;
use crate::fixed_bytes::FixedBytes;
use crate::fixed_words::FixedWords;

verus! {

/// Byte `i` (least significant first) of the little-endian layout of `w`.
pub open spec fn le_byte(w: u64, i: int) -> u8 {
    ((w >> ((8 * i) as u64)) & 0xff) as u8
}

/// The eight-byte little-endian layout of one 64-bit word.
pub open spec fn word_le_bytes(w: u64) -> Seq<u8> {
    Seq::new(8, |i: int| le_byte(w, i))
}

/// The word read back from an eight-byte little-endian layout.
pub open spec fn word_of_le(b: Seq<u8>) -> u64
    recommends
        b.len() == 8,
{
    (b[0] as u64) | ((b[1] as u64) << 8) | ((b[2] as u64) << 16) | ((b[3] as u64) << 24)
        | ((b[4] as u64) << 32) | ((b[5] as u64) << 40) | ((b[6] as u64) << 48) | ((b[7]
        as u64) << 56)
}

/// The little-endian byte layout of a word sequence: each word's eight
/// bytes in order, words least significant first.
pub open spec fn words_le_bytes(ws: Seq<u64>) -> Seq<u8>
    decreases ws.len(),
{
    if ws.len() == 0 {
        Seq::empty()
    } else {
        word_le_bytes(ws[0]) + words_le_bytes(ws.drop_first())
    }
}

/// The `k` words read back from a little-endian byte layout of `8 * k` bytes.
pub open spec fn words_of_le(b: Seq<u8>, k: nat) -> Seq<u64>
    recommends
        b.len() == 8 * k,
{
    Seq::new(k, |i: int| word_of_le(b.subrange(8 * i, 8 * i + 8)))
}

/// A word survives the little-endian byte layout unchanged.
pub proof fn lemma_word_le_round_trip(w: u64)
    ensures
        word_of_le(word_le_bytes(w)) == w,
{
    let s = word_le_bytes(w);
    assert(s[0] == ((w >> 0u64) & 0xff) as u8);
    assert(s[1] == ((w >> 8u64) & 0xff) as u8);
    assert(s[2] == ((w >> 16u64) & 0xff) as u8);
    assert(s[3] == ((w >> 24u64) & 0xff) as u8);
    assert(s[4] == ((w >> 32u64) & 0xff) as u8);
    assert(s[5] == ((w >> 40u64) & 0xff) as u8);
    assert(s[6] == ((w >> 48u64) & 0xff) as u8);
    assert(s[7] == ((w >> 56u64) & 0xff) as u8);
    assert(((((w >> 0u64) & 0xff) as u8) as u64) | (((((w >> 8u64) & 0xff) as u8) as u64) << 8) | (
    ((((w >> 16u64) & 0xff) as u8) as u64) << 16) | (((((w >> 24u64) & 0xff) as u8) as u64) << 24)
        | (((((w >> 32u64) & 0xff) as u8) as u64) << 32) | (((((w >> 40u64) & 0xff) as u8) as u64)
        << 40) | (((((w >> 48u64) & 0xff) as u8) as u64) << 48) | (((((w >> 56u64) & 0xff) as u8)
        as u64) << 56) == w) by (bit_vector);
}

/// The byte layout of a word sequence is eight bytes per word.
pub proof fn lemma_words_le_bytes_len(ws: Seq<u64>)
    ensures
        words_le_bytes(ws).len() == 8 * ws.len(),
    decreases ws.len(),
{
    if ws.len() > 0 {
        lemma_words_le_bytes_len(ws.drop_first());
    }
}

/// Word `i`'s eight bytes sit at offset `8 * i` of the joint layout.
pub proof fn lemma_words_le_bytes_index(ws: Seq<u64>, i: int)
    requires
        0 <= i < ws.len(),
    ensures
        words_le_bytes(ws).subrange(8 * i, 8 * i + 8) == word_le_bytes(ws[i]),
    decreases ws.len(),
{
    lemma_words_le_bytes_len(ws);
    lemma_words_le_bytes_len(ws.drop_first());
    if i == 0 {
        assert(words_le_bytes(ws).subrange(0, 8) =~= word_le_bytes(ws[0]));
    } else {
        lemma_words_le_bytes_index(ws.drop_first(), i - 1);
        assert(words_le_bytes(ws).subrange(8 * i, 8 * i + 8) =~= words_le_bytes(
            ws.drop_first(),
        ).subrange(8 * (i - 1), 8 * (i - 1) + 8));
    }
}

/// Appending one word's layout extends the joint layout by that word.
pub proof fn lemma_words_le_bytes_push(ws: Seq<u64>, w: u64)
    ensures
        words_le_bytes(ws.push(w)) == words_le_bytes(ws) + word_le_bytes(w),
    decreases ws.len(),
{
    if ws.len() == 0 {
        assert(ws.push(w)[0] == w);
        assert(ws.push(w).drop_first() =~= Seq::<u64>::empty());
        assert(words_le_bytes(ws.push(w).drop_first()) =~= Seq::<u8>::empty());
        assert(words_le_bytes(ws) =~= Seq::<u8>::empty());
        assert(words_le_bytes(ws.push(w)) =~= words_le_bytes(ws) + word_le_bytes(w));
    } else {
        lemma_words_le_bytes_push(ws.drop_first(), w);
        assert(ws.push(w).drop_first() =~= ws.drop_first().push(w));
        assert(ws.push(w)[0] == ws[0]);
        assert(words_le_bytes(ws.push(w)) =~= words_le_bytes(ws) + word_le_bytes(w));
    }
}

/// Compact round trip for the word-array family: the word sequence read
/// back from a value's little-endian byte layout is the value itself.
pub proof fn lemma_compact_words_round_trip(ws: Seq<u64>)
    ensures
        words_of_le(words_le_bytes(ws), ws.len()) == ws,
{
    lemma_words_le_bytes_len(ws);
    let r = words_of_le(words_le_bytes(ws), ws.len());
    assert forall|i: int| 0 <= i < ws.len() implies r[i] == ws[i] by {
        lemma_words_le_bytes_index(ws, i);
        lemma_word_le_round_trip(ws[i]);
    }
    assert(r =~= ws);
}

/// Compact round trip for the byte-array family: a value's bytes,
/// appended to a stream, read back unchanged from the position where
/// they were written.
pub proof fn lemma_compact_bytes_round_trip(prefix: Seq<u8>, b: Seq<u8>)
    ensures
        (prefix + b).subrange(prefix.len() as int, prefix.len() + b.len() as int) == b,
{
    assert((prefix + b).subrange(prefix.len() as int, prefix.len() + b.len() as int) =~= b);
}

/// Appends the eight-byte little-endian layout of one word.
pub fn encode_word(w: u64, out: &mut Vec<u8>)
    ensures
        final(out)@ == old(out)@ + word_le_bytes(w),
{
    out.push(((w >> 0u64) & 0xff) as u8);
    out.push(((w >> 8u64) & 0xff) as u8);
    out.push(((w >> 16u64) & 0xff) as u8);
    out.push(((w >> 24u64) & 0xff) as u8);
    out.push(((w >> 32u64) & 0xff) as u8);
    out.push(((w >> 40u64) & 0xff) as u8);
    out.push(((w >> 48u64) & 0xff) as u8);
    out.push(((w >> 56u64) & 0xff) as u8);
    proof {
        assert(out@ =~= old(out)@ + word_le_bytes(w));
    }
}

/// Reads one eight-byte little-endian word starting at `pos`.
pub fn decode_word(input: &[u8], pos: usize) -> (r: Result<(u64, usize), DecodeError>)
    ensures
        match r {
            Ok(p) => pos + 8 <= input@.len() && p.0 == word_of_le(
                input@.subrange(pos as int, pos + 8),
            ) && p.1 == pos + 8,
            Err(e) => pos + 8 > input@.len() && e == DecodeError::TruncatedInput,
        },
{
    if pos <= input.len() && input.len() - pos >= 8 {
        let w = (input[pos] as u64) | ((input[pos + 1] as u64) << 8u64) | ((input[pos + 2] as u64)
            << 16u64) | ((input[pos + 3] as u64) << 24u64) | ((input[pos + 4] as u64) << 32u64) | (
        (input[pos + 5] as u64) << 40u64) | ((input[pos + 6] as u64) << 48u64) | ((input[pos + 7]
            as u64) << 56u64);
        proof {
            let s = input@.subrange(pos as int, pos + 8);
            assert(s[0] == input@[pos as int]);
            assert(s[1] == input@[pos + 1]);
            assert(s[2] == input@[pos + 2]);
            assert(s[3] == input@[pos + 3]);
            assert(s[4] == input@[pos + 4]);
            assert(s[5] == input@[pos + 5]);
            assert(s[6] == input@[pos + 6]);
            assert(s[7] == input@[pos + 7]);
        }
        Ok((w, pos + 8))
    } else {
        Err(DecodeError::TruncatedInput)
    }
}

impl<const N: usize> FixedBytes<N> {
    /// Compact binary encode: append the raw bytes verbatim, in stored
    /// order, with no length prefix.
    pub fn encode_compact(&self, out: &mut Vec<u8>)
        requires
            self.wf(),
        ensures
            final(out)@ == old(out)@ + self@,
    {
        let b = self.bytes();
        let mut i: usize = 0;
        while i < b.len()
            invariant
                b@ == self@,
                i <= b@.len(),
                out@ == old(out)@ + self@.take(i as int),
            decreases b@.len() - i,
        {
            out.push(b[i]);
            proof {
                assert(self@.take(i + 1) =~= self@.take(i as int).push(self@[i as int]));
            }
            i = i + 1;
        }
        proof {
            assert(self@.take(self@.len() as int) =~= self@);
        }
    }

    /// Compact binary decode: read exactly `N` bytes starting at `pos`;
    /// fails with `TruncatedInput` if fewer remain.
    pub fn decode_compact(input: &[u8], pos: usize) -> (r: Result<(Self, usize), DecodeError>)
        ensures
            match r {
                Ok(p) => pos + N <= input@.len() && p.0.wf() && p.0@ == input@.subrange(
                    pos as int,
                    pos + N,
                ) && p.1 == pos + N,
                Err(e) => pos + N > input@.len() && e == DecodeError::TruncatedInput,
            },
    {
        if pos <= input.len() && input.len() - pos >= N {
            let s = slice_subrange(input, pos, pos + N);
            let v = slice_to_vec(s);
            Ok((Self::from_vec(v), pos + N))
        } else {
            Err(DecodeError::TruncatedInput)
        }
    }
}

impl<const K: usize> FixedWords<K> {
    /// Compact binary encode: append each of the `K` words in order,
    /// each as a fixed-width little-endian 64-bit integer.
    pub fn encode_compact(&self, out: &mut Vec<u8>)
        requires
            self.wf(),
        ensures
            final(out)@ == old(out)@ + words_le_bytes(self@),
    {
        let ws = self.words();
        let mut i: usize = 0;
        while i < ws.len()
            invariant
                ws@ == self@,
                i <= ws@.len(),
                out@ == old(out)@ + words_le_bytes(self@.take(i as int)),
            decreases ws@.len() - i,
        {
            encode_word(ws[i], out);
            proof {
                lemma_words_le_bytes_push(self@.take(i as int), self@[i as int]);
                assert(self@.take(i + 1) =~= self@.take(i as int).push(self@[i as int]));
            }
            i = i + 1;
        }
        proof {
            assert(self@.take(self@.len() as int) =~= self@);
        }
    }

    /// Compact binary decode: read `K` little-endian 64-bit words in
    /// order starting at `pos`; fails with `TruncatedInput` if any word
    /// cannot be fully read.
    pub fn decode_compact(input: &[u8], pos: usize) -> (r: Result<(Self, usize), DecodeError>)
        ensures
            match r {
                Ok(p) => pos + 8 * K <= input@.len() && p.0.wf() && p.0@ == words_of_le(
                    input@.subrange(pos as int, pos + 8 * K),
                    K as nat,
                ) && p.1 == pos + 8 * K,
                Err(e) => pos + 8 * K > input@.len() && e == DecodeError::TruncatedInput,
            },
    {
        if pos > input.len() {
            return Err(DecodeError::TruncatedInput);
        }
        let mut v: Vec<u64> = Vec::new();
        let mut cur: usize = pos;
        let mut i: usize = 0;
        while i < K
            invariant
                i <= K,
                cur == pos + 8 * i,
                cur <= input@.len(),
                v@.len() == i,
                forall|j: int|
                    0 <= j < i ==> v@[j] == word_of_le(
                        input@.subrange(pos + 8 * j, pos + 8 * j + 8),
                    ),
            decreases K - i,
        {
            match decode_word(input, cur) {
                Ok(p) => {
                    v.push(p.0);
                    cur = p.1;
                },
                Err(e) => {
                    return Err(DecodeError::TruncatedInput);
                },
            }
            i = i + 1;
        }
        proof {
            let big = input@.subrange(pos as int, pos + 8 * K);
            assert forall|j: int| 0 <= j < K implies v@[j] == words_of_le(big, K as nat)[j] by {
                assert(big.subrange(8 * j, 8 * j + 8) =~= input@.subrange(
                    pos + 8 * j,
                    pos + 8 * j + 8,
                ));
            }
            assert(v@ =~= words_of_le(big, K as nat));
        }
        Ok((Self::from_vec(v), cur))
    }
}

} // verus!
