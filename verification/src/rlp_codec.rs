//! The recursive-length-prefix (RLP) format, restricted to the leaf
//! items this core needs. A byte-array value is a byte-string item
//! wrapping its raw bytes; a word-array value is the byte-string item
//! wrapping the minimal big-endian layout of its numeric value (the
//! empty string for zero). Decoding accepts only the canonical form and
//! distinguishes a wrong item kind (`RlpNotAByteString`) from a payload
//! that does not fit the target width (`RlpWrongLength`).

use vstd::prelude::*;
use vstd::slice::{slice_subrange, slice_to_vec};
use crate::errors::DecodeError;
use crate::fixed_bytes::FixedBytes;
use crate::fixed_words::FixedWords;
use crate::compact::{words_le_bytes, words_of_le, lemma_words_le_bytes_len,
    lemma_compact_words_round_trip};

verus! {

/// The value of a big-endian byte sequence.
pub open spec fn be_value(s: Seq<u8>) -> nat
    decreases s.len(),
{
    if s.len() == 0 {
        0
    } else {
        be_value(s.drop_last()) * 256 + s.last() as nat
    }
}

/// The minimal big-endian layout of a number: empty for zero, no
/// leading zero byte otherwise.
pub open spec fn be_min_bytes(n: nat) -> Seq<u8>
    decreases n,
{
    if n == 0 {
        Seq::empty()
    } else {
        be_min_bytes(n / 256) + seq![(n % 256) as u8]
    }
}

/// 256 to the power `k`.
pub open spec fn pow256(k: nat) -> nat
    decreases k,
{
    if k == 0 {
        1
    } else {
        256 * pow256((k - 1) as nat)
    }
}

/// The minimal layout reads back as the number it was made from.
pub proof fn lemma_be_min_bytes_value(n: nat)
    ensures
        be_value(be_min_bytes(n)) == n,
    decreases n,
{
    if n > 0 {
        lemma_be_min_bytes_value(n / 256);
        let s = be_min_bytes(n / 256) + seq![(n % 256) as u8];
        assert(s.drop_last() =~= be_min_bytes(n / 256));
        assert(s.last() == (n % 256) as u8);
    }
}

/// The minimal layout of a positive number starts with a nonzero byte.
pub proof fn lemma_be_min_bytes_first_nonzero(n: nat)
    ensures
        n > 0 ==> be_min_bytes(n).len() > 0 && be_min_bytes(n)[0] != 0,
    decreases n,
{
    if n > 0 {
        lemma_be_min_bytes_first_nonzero(n / 256);
        if n / 256 == 0 {
            assert(be_min_bytes(n / 256) =~= Seq::<u8>::empty());
            assert(be_min_bytes(n)[0] == (n % 256) as u8);
            assert(n % 256 == n);
        } else {
            assert(be_min_bytes(n)[0] == be_min_bytes(n / 256)[0]);
        }
    }
}

/// A number below `256^k` lays out in at most `k` bytes.
pub proof fn lemma_be_min_bytes_len(n: nat, k: nat)
    requires
        n < pow256(k),
    ensures
        be_min_bytes(n).len() <= k,
    decreases n,
{
    if n > 0 {
        if k == 0 {
        } else {
            vstd::arithmetic::div_mod::lemma_fundamental_div_mod(n as int, 256);
            assert(n / 256 < pow256((k - 1) as nat));
            lemma_be_min_bytes_len(n / 256, (k - 1) as nat);
        }
    }
}

/// `256^8` written out.
pub proof fn lemma_pow256_8()
    ensures
        pow256(8) == 0x10000000000000000,
{
    assert(pow256(0) == 1);
    assert(pow256(1) == 256);
    assert(pow256(2) == 0x10000);
    assert(pow256(3) == 0x1000000);
    assert(pow256(4) == 0x100000000);
    assert(pow256(5) == 0x10000000000);
    assert(pow256(6) == 0x1000000000000);
    assert(pow256(7) == 0x100000000000000);
}

/// Powers of 256 do not decrease.
pub proof fn lemma_pow256_mono(a: nat, b: nat)
    requires
        a <= b,
    ensures
        pow256(a) <= pow256(b),
    decreases b,
{
    if a < b {
        lemma_pow256_mono(a, (b - 1) as nat);
        assert(pow256(b) == 256 * pow256((b - 1) as nat));
    }
}

/// The canonical RLP byte-string item that carries payload `p`.
pub open spec fn rlp_encode_bytes(p: Seq<u8>) -> Seq<u8> {
    if p.len() == 1 && p[0] < 0x80 {
        p
    } else if p.len() <= 55 {
        seq![(0x80 + p.len()) as u8] + p
    } else {
        seq![(0xb7 + be_min_bytes(p.len()).len()) as u8] + be_min_bytes(p.len()) + p
    }
}

/// The payload of a byte-string item, when the whole input is exactly
/// one canonically encoded byte-string item; `None` otherwise (absent,
/// truncated, a list, trailing bytes, or a non-canonical form).
pub open spec fn rlp_bytes_payload(s: Seq<u8>) -> Option<Seq<u8>> {
    if s.len() == 0 {
        None
    } else {
        let b0 = s[0] as int;
        if b0 < 0x80 {
            if s.len() == 1 {
                Some(s)
            } else {
                None
            }
        } else if b0 <= 0xb7 {
            let l = b0 - 0x80;
            if s.len() == 1 + l {
                let p = s.skip(1);
                if l == 1 && p[0] < 0x80 {
                    None
                } else {
                    Some(p)
                }
            } else {
                None
            }
        } else if b0 <= 0xbf {
            let lol = b0 - 0xb7;
            if s.len() >= 1 + lol {
                let lb = s.subrange(1, 1 + lol);
                let l = be_value(lb);
                if lb[0] != 0 && l > 55 && s.len() == 1 + lol + l {
                    Some(s.skip(1 + lol))
                } else {
                    None
                }
            } else {
                None
            }
        } else {
            None
        }
    }
}

/// RLP round trip for byte-string items: the canonical encoding of any
/// payload parses back to exactly that payload.
pub proof fn lemma_rlp_bytes_round_trip(p: Seq<u8>)
    requires
        p.len() < 0x10000000000000000,
    ensures
        rlp_bytes_payload(rlp_encode_bytes(p)) == Some(p),
{
    if p.len() == 1 && p[0] < 0x80 {
    } else if p.len() <= 55 {
        let s = seq![(0x80 + p.len()) as u8] + p;
        assert(s[0] == (0x80 + p.len()) as u8);
        assert(s.skip(1) =~= p);
    } else {
        let lb = be_min_bytes(p.len() as nat);
        lemma_be_min_bytes_value(p.len() as nat);
        lemma_be_min_bytes_first_nonzero(p.len() as nat);
        lemma_pow256_8();
        lemma_be_min_bytes_len(p.len() as nat, 8);
        let s = seq![(0xb7 + lb.len()) as u8] + lb + p;
        assert(s[0] == (0xb7 + lb.len()) as u8);
        assert(s.subrange(1, 1 + lb.len() as int) =~= lb);
        assert(s.skip(1 + lb.len() as int) =~= p);
    }
}

/// Appends every byte of `src`.
pub fn push_all(src: &[u8], out: &mut Vec<u8>)
    ensures
        final(out)@ == old(out)@ + src@,
{
    let mut i: usize = 0;
    while i < src.len()
        invariant
            i <= src@.len(),
            out@ == old(out)@ + src@.take(i as int),
        decreases src@.len() - i,
    {
        out.push(src[i]);
        proof {
            assert(src@.take(i + 1) =~= src@.take(i as int).push(src@[i as int]));
        }
        i = i + 1;
    }
    proof {
        assert(src@.take(src@.len() as int) =~= src@);
    }
}

/// Appends the bytes of `src` in reverse order.
pub fn push_reversed(src: &[u8], out: &mut Vec<u8>)
    ensures
        final(out)@ == old(out)@ + src@.reverse(),
{
    let mut i: usize = 0;
    while i < src.len()
        invariant
            i <= src@.len(),
            out@.len() == old(out)@.len() + i,
            out@ == old(out)@ + src@.reverse().take(i as int),
        decreases src@.len() - i,
    {
        out.push(src[src.len() - 1 - i]);
        proof {
            assert(src@.reverse()[i as int] == src@[src@.len() - 1 - i]);
            assert(src@.reverse().take(i + 1) =~= src@.reverse().take(i as int).push(
                src@.reverse()[i as int],
            ));
        }
        i = i + 1;
    }
    proof {
        assert(src@.reverse().take(src@.len() as int) =~= src@.reverse());
    }
}

/// Appends the canonical RLP byte-string item that carries `payload`.
pub fn rlp_append_bytes(payload: &[u8], out: &mut Vec<u8>)
    ensures
        final(out)@ == old(out)@ + rlp_encode_bytes(payload@),
{
    let n = payload.len();
    if n == 1 && payload[0] < 0x80 {
        out.push(payload[0]);
        proof {
            assert(out@ =~= old(out)@ + rlp_encode_bytes(payload@));
        }
    } else if n <= 55 {
        out.push(0x80 + n as u8);
        push_all(payload, out);
        proof {
            assert(out@ =~= old(out)@ + rlp_encode_bytes(payload@));
        }
    } else {
        // The length's minimal big-endian bytes, built least significant
        // first and appended in reverse.
        let mut lb_rev: Vec<u8> = Vec::new();
        let mut m: u64 = n as u64;
        while m > 0
            invariant
                be_min_bytes(n as nat) == be_min_bytes(m as nat) + lb_rev@.reverse(),
            decreases m,
        {
            let ghost pre = lb_rev@;
            lb_rev.push((m % 256) as u8);
            proof {
                assert(lb_rev@.reverse() =~= seq![(m as nat % 256) as u8] + pre.reverse());
                assert(be_min_bytes(m as nat) == be_min_bytes((m as nat) / 256) + seq![
                    ((m as nat) % 256) as u8,
                ]);
                assert(be_min_bytes(m as nat) + pre.reverse() =~= be_min_bytes((m as nat) / 256)
                    + lb_rev@.reverse());
            }
            m = m / 256;
        }
        proof {
            assert(be_min_bytes(0) =~= Seq::<u8>::empty());
            assert(Seq::<u8>::empty() + lb_rev@.reverse() =~= lb_rev@.reverse());
            assert(be_min_bytes(n as nat) == lb_rev@.reverse());
            assert(lb_rev@.reverse().len() == lb_rev@.len());
            lemma_pow256_8();
            lemma_be_min_bytes_len(n as nat, 8);
        }
        out.push(0xb7 + lb_rev.len() as u8);
        push_reversed(lb_rev.as_slice(), out);
        push_all(payload, out);
        proof {
            assert(out@ =~= old(out)@ + rlp_encode_bytes(payload@));
        }
    }
}

/// Parses the whole input as one canonical RLP byte-string item and
/// returns its payload; fails with `RlpNotAByteString` otherwise.
pub fn rlp_parse_bytes(input: &[u8]) -> (r: Result<Vec<u8>, DecodeError>)
    ensures
        match r {
            Ok(p) => rlp_bytes_payload(input@) == Some(p@),
            Err(e) => rlp_bytes_payload(input@) is None && e == DecodeError::RlpNotAByteString,
        },
{
    if input.len() == 0 {
        return Err(DecodeError::RlpNotAByteString);
    }
    let b0 = input[0];
    if b0 < 0x80 {
        if input.len() == 1 {
            let p = slice_to_vec(input);
            Ok(p)
        } else {
            Err(DecodeError::RlpNotAByteString)
        }
    } else if b0 <= 0xb7 {
        let l = (b0 - 0x80) as usize;
        if input.len() == 1 + l {
            let s = slice_subrange(input, 1, input.len());
            let p = slice_to_vec(s);
            if l == 1 && p[0] < 0x80 {
                Err(DecodeError::RlpNotAByteString)
            } else {
                proof {
                    assert(p@ =~= input@.skip(1));
                }
                Ok(p)
            }
        } else {
            Err(DecodeError::RlpNotAByteString)
        }
    } else if b0 <= 0xbf {
        let lol = (b0 - 0xb7) as usize;
        if input.len() < 1 + lol {
            return Err(DecodeError::RlpNotAByteString);
        }
        let ghost lb = input@.subrange(1, 1 + lol as int);
        let mut l: u64 = 0;
        let mut i: usize = 0;
        while i < lol
            invariant
                i <= lol,
                lol <= 8,
                1 + lol <= input@.len(),
                lb == input@.subrange(1, 1 + lol as int),
                l as nat == be_value(lb.subrange(0, i as int)),
                (l as nat) < pow256(i as nat),
            decreases lol - i,
        {
            proof {
                lemma_pow256_8();
                lemma_pow256_mono(i as nat, 7);
                assert(pow256((i + 1) as nat) == 256 * pow256(i as nat));
                assert(lb.subrange(0, i + 1).drop_last() =~= lb.subrange(0, i as int));
                assert(lb.subrange(0, i + 1).last() == input@[1 + i]);
            }
            l = l * 256 + input[1 + i] as u64;
            i = i + 1;
        }
        proof {
            assert(lb.subrange(0, lol as int) =~= lb);
        }
        let rest = input.len() - 1 - lol;
        if input[1] != 0 && l > 55 && l == rest as u64 {
            let s = slice_subrange(input, 1 + lol, input.len());
            let p = slice_to_vec(s);
            proof {
                assert(p@ =~= input@.skip(1 + lol as int));
            }
            Ok(p)
        } else {
            Err(DecodeError::RlpNotAByteString)
        }
    } else {
        Err(DecodeError::RlpNotAByteString)
    }
}

impl<const N: usize> FixedBytes<N> {
    /// RLP encode: append the byte-string item wrapping the raw `N` bytes.
    pub fn encode_rlp(&self, out: &mut Vec<u8>)
        requires
            self.wf(),
        ensures
            final(out)@ == old(out)@ + rlp_encode_bytes(self@),
    {
        let b = self.bytes();
        rlp_append_bytes(b.as_slice(), out);
    }

    /// RLP decode: parse one byte-string item that must hold exactly `N`
    /// bytes; a malformed item fails with `RlpNotAByteString`, one of
    /// another length with `RlpWrongLength`.
    pub fn decode_rlp(input: &[u8]) -> (r: Result<Self, DecodeError>)
        ensures
            match r {
                Ok(v) => v.wf() && rlp_bytes_payload(input@) == Some(v@),
                Err(e) => match rlp_bytes_payload(input@) {
                    Some(p) => p.len() != N && e == DecodeError::RlpWrongLength,
                    None => e == DecodeError::RlpNotAByteString,
                },
            },
    {
        match rlp_parse_bytes(input) {
            Ok(p) => {
                if p.len() == N {
                    Ok(Self::from_vec(p))
                } else {
                    Err(DecodeError::RlpWrongLength)
                }
            },
            Err(e) => Err(e),
        }
    }
}

/// The leading zero bytes dropped.
pub open spec fn strip_zeros(s: Seq<u8>) -> Seq<u8>
    decreases s.len(),
{
    if s.len() > 0 && s[0] == 0 {
        strip_zeros(s.drop_first())
    } else {
        s
    }
}

/// The minimal big-endian layout of a word-array value: its bytes most
/// significant first, leading zeros dropped; empty for zero.
pub open spec fn rlp_int_payload(ws: Seq<u64>) -> Seq<u8> {
    strip_zeros(words_le_bytes(ws).reverse())
}

/// The words read back from a minimal big-endian payload `p`, padded on
/// the left with zero bytes to the full `8 * k` width.
pub open spec fn words_of_be_payload(p: Seq<u8>, k: nat) -> Seq<u64>
    recommends
        p.len() <= 8 * k,
{
    words_of_le((Seq::new((8 * k - p.len()) as nat, |i: int| 0u8) + p).reverse(), k)
}

/// Stripping never lengthens, and what is left starts with a nonzero
/// byte (or is empty).
pub proof fn lemma_strip_zeros_shape(s: Seq<u8>)
    ensures
        strip_zeros(s).len() <= s.len(),
        strip_zeros(s).len() > 0 ==> strip_zeros(s)[0] != 0,
    decreases s.len(),
{
    if s.len() > 0 && s[0] == 0 {
        lemma_strip_zeros_shape(s.drop_first());
    }
}

/// Putting the dropped zero bytes back restores the original sequence.
pub proof fn lemma_strip_zeros_pad(s: Seq<u8>)
    ensures
        Seq::new((s.len() - strip_zeros(s).len()) as nat, |i: int| 0u8) + strip_zeros(s) == s,
    decreases s.len(),
{
    if s.len() > 0 && s[0] == 0 {
        let s1 = s.drop_first();
        lemma_strip_zeros_pad(s1);
        lemma_strip_zeros_shape(s1);
        assert(strip_zeros(s) == strip_zeros(s1));
        let pad = (s.len() - strip_zeros(s).len()) as nat;
        let lhs = Seq::new(pad, |i: int| 0u8) + strip_zeros(s);
        let prev = Seq::new((s1.len() - strip_zeros(s1).len()) as nat, |i: int| 0u8) + strip_zeros(
            s1,
        );
        assert forall|j: int| 0 <= j < s.len() implies lhs[j] == s[j] by {
            if j == 0 {
                assert(lhs[0] == 0u8);
            } else {
                assert(lhs[j] == prev[j - 1]);
                assert(prev[j - 1] == s1[j - 1]);
            }
        }
        assert(lhs =~= s);
    } else {
        assert(Seq::new(0, |i: int| 0u8) + strip_zeros(s) =~= s);
    }
}

/// A sequence of all zero bytes strips to the empty sequence.
pub proof fn lemma_strip_zeros_all_zero(s: Seq<u8>)
    requires
        forall|i: int| 0 <= i < s.len() ==> s[i] == 0,
    ensures
        strip_zeros(s).len() == 0,
    decreases s.len(),
{
    if s.len() > 0 {
        lemma_strip_zeros_all_zero(s.drop_first());
    }
}

/// Stripping an all-zero prefix in one step.
pub proof fn lemma_strip_zeros_skip(s: Seq<u8>, i: int)
    requires
        0 <= i <= s.len(),
        forall|j: int| 0 <= j < i ==> s[j] == 0,
    ensures
        strip_zeros(s) == strip_zeros(s.skip(i)),
    decreases i,
{
    if i > 0 {
        assert(s.drop_first() =~= s.skip(1));
        lemma_strip_zeros_skip(s.skip(1), i - 1);
        assert(s.skip(1).skip(i - 1) =~= s.skip(i));
    } else {
        assert(s.skip(0) =~= s);
    }
}

/// Reversing twice gives the sequence back.
pub proof fn lemma_reverse_involution(s: Seq<u8>)
    ensures
        s.reverse().reverse() == s,
{
    assert(s.reverse().reverse() =~= s);
}

impl<const K: usize> FixedWords<K> {
    /// RLP encode: append the byte-string item wrapping the minimal
    /// big-endian layout of the value (the empty string for zero).
    pub fn encode_rlp(&self, out: &mut Vec<u8>)
        requires
            self.wf(),
        ensures
            final(out)@ == old(out)@ + rlp_encode_bytes(rlp_int_payload(self@)),
    {
        let mut le: Vec<u8> = Vec::new();
        self.encode_compact(&mut le);
        let mut be: Vec<u8> = Vec::new();
        push_reversed(le.as_slice(), &mut be);
        let mut i: usize = 0;
        while i < be.len() && be[i] == 0
            invariant
                i <= be@.len(),
                forall|j: int| 0 <= j < i ==> be@[j] == 0,
            decreases be@.len() - i,
        {
            i = i + 1;
        }
        proof {
            lemma_strip_zeros_skip(be@, i as int);
        }
        let trimmed = slice_subrange(be.as_slice(), i, be.len());
        proof {
            assert(trimmed@ =~= be@.skip(i as int));
            if i < be@.len() {
                assert(strip_zeros(be@.skip(i as int)) =~= be@.skip(i as int));
            } else {
                assert(be@.skip(i as int) =~= Seq::<u8>::empty());
                assert(strip_zeros(be@.skip(i as int)) =~= Seq::<u8>::empty());
            }
        }
        rlp_append_bytes(trimmed, out);
    }

    /// RLP decode: parse one byte-string item that must hold the minimal
    /// big-endian layout of a value fitting in `K` words; an oversized or
    /// zero-padded payload fails with `RlpWrongLength`, a malformed item
    /// with `RlpNotAByteString`.
    pub fn decode_rlp(input: &[u8]) -> (r: Result<Self, DecodeError>)
        requires
            8 * K <= usize::MAX,
        ensures
            match r {
                Ok(v) => v.wf() && (rlp_bytes_payload(input@) matches Some(p) && p.len() <= 8 * K
                    && (p.len() == 0 || p[0] != 0) && v@ == words_of_be_payload(p, K as nat)),
                Err(e) => match rlp_bytes_payload(input@) {
                    Some(p) => e == DecodeError::RlpWrongLength && (p.len() > 8 * K || (p.len() > 0
                        && p[0] == 0)),
                    None => e == DecodeError::RlpNotAByteString,
                },
            },
    {
        match rlp_parse_bytes(input) {
            Err(e) => Err(e),
            Ok(p) => {
                if p.len() > 8 * K {
                    return Err(DecodeError::RlpWrongLength);
                }
                if p.len() > 0 && p[0] == 0 {
                    return Err(DecodeError::RlpWrongLength);
                }
                let pad: usize = 8 * K - p.len();
                let mut full: Vec<u8> = Vec::new();
                let mut i: usize = 0;
                while i < pad
                    invariant
                        i <= pad,
                        full@.len() == i,
                        forall|j: int| 0 <= j < i ==> full@[j] == 0,
                    decreases pad - i,
                {
                    full.push(0u8);
                    i = i + 1;
                }
                push_all(p.as_slice(), &mut full);
                let ghost padded = Seq::new(pad as nat, |j: int| 0u8) + p@;
                proof {
                    assert(full@ =~= padded);
                }
                let mut le: Vec<u8> = Vec::new();
                push_reversed(full.as_slice(), &mut le);
                match Self::decode_compact(le.as_slice(), 0) {
                    Ok(q) => {
                        proof {
                            assert(le@.subrange(0, 8 * K) =~= le@);
                        }
                        Ok(q.0)
                    },
                    Err(_) => {
                        proof {
                            assert(false);
                        }
                        Err(DecodeError::TruncatedInput)
                    },
                }
            },
        }
    }
}

/// RLP round trip for the word-array family: a value's RLP encoding
/// parses back to its minimal payload, that payload fits the width with
/// no leading zero, and padding it back to the full width restores the
/// original words.
pub proof fn lemma_rlp_words_round_trip(ws: Seq<u64>)
    requires
        8 * ws.len() < 0x10000000000000000,
    ensures
        rlp_bytes_payload(rlp_encode_bytes(rlp_int_payload(ws))) == Some(rlp_int_payload(ws)),
        rlp_int_payload(ws).len() <= 8 * ws.len(),
        rlp_int_payload(ws).len() > 0 ==> rlp_int_payload(ws)[0] != 0,
        words_of_be_payload(rlp_int_payload(ws), ws.len()) == ws,
{
    let be = words_le_bytes(ws).reverse();
    let p = rlp_int_payload(ws);
    lemma_words_le_bytes_len(ws);
    lemma_strip_zeros_shape(be);
    lemma_rlp_bytes_round_trip(p);
    lemma_strip_zeros_pad(be);
    assert(Seq::new((8 * ws.len() - p.len()) as nat, |i: int| 0u8) + p == be);
    lemma_reverse_involution(words_le_bytes(ws));
    lemma_compact_words_round_trip(ws);
}

/// RLP integer minimality: the encoded payload never carries a leading
/// zero byte, and the zero value's payload is the empty byte string.
pub proof fn lemma_rlp_int_minimal(ws: Seq<u64>)
    ensures
        rlp_int_payload(ws).len() > 0 ==> rlp_int_payload(ws)[0] != 0,
        (forall|i: int| 0 <= i < ws.len() ==> ws[i] == 0u64) ==> rlp_int_payload(ws).len() == 0
            && rlp_encode_bytes(rlp_int_payload(ws)) == seq![0x80u8],
{
    let be = words_le_bytes(ws).reverse();
    lemma_strip_zeros_shape(be);
    if forall|i: int| 0 <= i < ws.len() ==> ws[i] == 0u64 {
        lemma_words_le_bytes_zero(ws);
        assert(forall|j: int| 0 <= j < be.len() ==> be[j] == 0);
        lemma_strip_zeros_all_zero(be);
        assert(rlp_encode_bytes(rlp_int_payload(ws)) =~= seq![0x80u8]);
    }
}

/// The byte layout of all-zero words is all zero bytes.
pub proof fn lemma_words_le_bytes_zero(ws: Seq<u64>)
    requires
        forall|i: int| 0 <= i < ws.len() ==> ws[i] == 0u64,
    ensures
        forall|j: int| 0 <= j < words_le_bytes(ws).len() ==> words_le_bytes(ws)[j] == 0,
    decreases ws.len(),
{
    if ws.len() > 0 {
        lemma_words_le_bytes_zero(ws.drop_first());
        lemma_words_le_bytes_len(ws);
        lemma_words_le_bytes_len(ws.drop_first());
        assert forall|i: int| 0 <= i < 8 implies crate::compact::word_le_bytes(0u64)[i] == 0 by {
            let sh = (8 * i) as u64;
            assert(((0u64 >> sh) & 0xff) as u8 == 0) by (bit_vector);
        }
        assert forall|j: int| 0 <= j < words_le_bytes(ws).len() implies words_le_bytes(ws)[j]
            == 0 by {
            if j < 8 {
                assert(words_le_bytes(ws)[j] == crate::compact::word_le_bytes(ws[0])[j]);
            } else {
                assert(words_le_bytes(ws)[j] == words_le_bytes(ws.drop_first())[j - 8]);
            }
        }
    }
}

} // verus!
