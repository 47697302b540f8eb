//! The hexadecimal text format for the byte-array family: an ASCII
//! string of case-insensitive hex digits, optionally prefixed with
//! `0x`, logically left-padded with `0` to two digits per byte before
//! decoding. Oversized text and non-hex characters fail with
//! `InvalidHex`; no text-hex encode direction is part of this core.

use vstd::prelude::*;
use crate::errors::DecodeError;
use crate::fixed_bytes::FixedBytes;

verus! {

/// Whether `c` is an ASCII hexadecimal digit, either case.
pub open spec fn is_hex_digit(c: char) -> bool {
    (48 <= (c as u32) && (c as u32) <= 57) || (97 <= (c as u32) && (c as u32) <= 102) || (65 <= (
    c as u32) && (c as u32) <= 70)
}

/// The numeric value of a hex digit.
pub open spec fn hex_val(c: char) -> u8
    recommends
        is_hex_digit(c),
{
    if 48 <= (c as u32) && (c as u32) <= 57 {
        ((c as u32) - 48) as u8
    } else if 97 <= (c as u32) && (c as u32) <= 102 {
        ((c as u32) - 87) as u8
    } else {
        ((c as u32) - 55) as u8
    }
}

/// Whether every character is a hex digit.
pub open spec fn all_hex(s: Seq<char>) -> bool {
    forall|i: int| 0 <= i < s.len() ==> is_hex_digit(s[i])
}

/// The text with a single leading `0x` removed, if present.
pub open spec fn strip_hex_prefix(s: Seq<char>) -> Seq<char> {
    if s.len() >= 2 && s[0] == '0' && s[1] == 'x' {
        s.skip(2)
    } else {
        s
    }
}

/// The byte written as the two hex digits `hi`, `lo`.
pub open spec fn hex_pair(hi: char, lo: char) -> u8
    recommends
        is_hex_digit(hi),
        is_hex_digit(lo),
{
    (hex_val(hi) * 16 + hex_val(lo)) as u8
}

/// The bytes of an even-length hex-digit text, two digits per byte.
pub open spec fn hex_bytes(s: Seq<char>) -> Seq<u8>
    recommends
        all_hex(s),
{
    Seq::new(s.len() / 2, |i: int| hex_pair(s[2 * i], s[2 * i + 1]))
}

/// The text left-padded with `0` digits to `width` characters.
pub open spec fn pad_hex(s: Seq<char>, width: nat) -> Seq<char>
    recommends
        s.len() <= width,
{
    Seq::new((width - s.len()) as nat, |i: int| '0') + s
}

/// The decode of hex text `s` into `n` bytes: strip an optional `0x`,
/// left-pad with `0` to `2 * n` digits, read two digits per byte;
/// nothing when a character is not a hex digit or the text is longer
/// than `2 * n` digits.
pub open spec fn hex_decode(s: Seq<char>, n: nat) -> Option<Seq<u8>> {
    let t = strip_hex_prefix(s);
    if t.len() <= 2 * n && all_hex(t) {
        Some(hex_bytes(pad_hex(t, 2 * n)))
    } else {
        None
    }
}

/// Whether `c` is a hex digit, decided.
pub fn hex_digit(c: char) -> (r: bool)
    ensures
        r == is_hex_digit(c),
{
    let v = c as u32;
    (48 <= v && v <= 57) || (97 <= v && v <= 102) || (65 <= v && v <= 70)
}

/// The numeric value of a hex digit, computed.
pub fn hex_val_exec(c: char) -> (r: u8)
    requires
        is_hex_digit(c),
    ensures
        r == hex_val(c),
        r <= 15,
{
    let v = c as u32;
    if 48 <= v && v <= 57 {
        (v - 48) as u8
    } else if 97 <= v && v <= 102 {
        (v - 87) as u8
    } else {
        (v - 55) as u8
    }
}

/// The byte of two hex digits, computed.
pub fn hex_pair_exec(hi: char, lo: char) -> (r: u8)
    requires
        is_hex_digit(hi),
        is_hex_digit(lo),
    ensures
        r == hex_pair(hi, lo),
{
    hex_val_exec(hi) * 16 + hex_val_exec(lo)
}

impl<const N: usize> FixedBytes<N> {
    /// Text-hex decode: strip an optional `0x` prefix, left-pad with `0`
    /// to `2 * N` digits and parse two digits per byte; a longer text or
    /// a non-hex character fails with `InvalidHex`.
    pub fn from_hex_str(s: &str) -> (r: Result<Self, DecodeError>)
        requires
            N <= usize::MAX / 2,
        ensures
            match r {
                Ok(v) => v.wf() && hex_decode(s@, N as nat) == Some(v@),
                Err(e) => e == DecodeError::InvalidHex && hex_decode(s@, N as nat) is None,
            },
    {
        let len = s.unicode_len();
        let prefixed = len >= 2 && s.get_char(0) == '0' && s.get_char(1) == 'x';
        let start: usize = if prefixed {
            2
        } else {
            0
        };
        let ghost t = strip_hex_prefix(s@);
        proof {
            assert(t =~= s@.skip(start as int));
        }
        let tlen = len - start;
        if tlen > 2 * N {
            return Err(DecodeError::InvalidHex);
        }
        let mut i: usize = start;
        while i < len
            invariant
                start <= i <= len,
                len == s@.len(),
                start as int + t.len() == len,
                t == s@.skip(start as int),
                t == strip_hex_prefix(s@),
                forall|j: int| start <= j < i ==> is_hex_digit(s@[j]),
            decreases len - i,
        {
            if !hex_digit(s.get_char(i)) {
                proof {
                    assert(t[i - start] == s@[i as int]);
                }
                return Err(DecodeError::InvalidHex);
            }
            i = i + 1;
        }
        proof {
            assert forall|j: int| 0 <= j < t.len() implies is_hex_digit(t[j]) by {
                assert(t[j] == s@[start + j]);
            }
        }
        let zeros = 2 * N - tlen;
        let ghost padded = pad_hex(t, (2 * N) as nat);
        let mut out: Vec<u8> = Vec::new();
        let mut k: usize = 0;
        while k < N
            invariant
                k <= N,
                N <= usize::MAX / 2,
                len == s@.len(),
                t == s@.skip(start as int),
                t == strip_hex_prefix(s@),
                start as int + t.len() == len,
                tlen == t.len(),
                zeros == 2 * N - tlen,
                tlen <= 2 * N,
                all_hex(t),
                padded == pad_hex(t, (2 * N) as nat),
                out@.len() == k,
                forall|j: int| 0 <= j < k ==> out@[j] == hex_bytes(padded)[j],
            decreases N - k,
        {
            let hi: char = if 2 * k < zeros {
                '0'
            } else {
                s.get_char(start + (2 * k - zeros))
            };
            let lo: char = if 2 * k + 1 < zeros {
                '0'
            } else {
                s.get_char(start + (2 * k + 1 - zeros))
            };
            proof {
                assert(padded.len() == 2 * N);
                if 2 * k < zeros {
                    assert(padded[2 * k as int] == '0');
                } else {
                    assert(padded[2 * k as int] == t[2 * k - zeros]);
                    assert(t[2 * k - zeros] == s@[start as int + 2 * k - zeros]);
                }
                if 2 * k + 1 < zeros {
                    assert(padded[2 * k as int + 1] == '0');
                } else {
                    assert(padded[2 * k as int + 1] == t[2 * k + 1 - zeros]);
                    assert(t[2 * k + 1 - zeros] == s@[start as int + 2 * k + 1 - zeros]);
                }
                assert(hi == padded[2 * k as int]);
                assert(lo == padded[2 * k as int + 1]);
                assert(is_hex_digit(hi));
                assert(is_hex_digit(lo));
            }
            out.push(hex_pair_exec(hi, lo));
            proof {
                assert(out@[k as int] == hex_bytes(padded)[k as int]);
            }
            k = k + 1;
        }
        proof {
            assert(out@ =~= hex_bytes(padded));
        }
        Ok(Self::from_vec(out))
    }
}

/// Hex idempotence: for hex-digit text, decoding with the `0x` prefix
/// and without it yields the same value.
pub proof fn lemma_hex_prefix_idempotent(s: Seq<char>, n: nat)
    requires
        all_hex(s),
    ensures
        hex_decode(seq!['0', 'x'] + s, n) == hex_decode(s, n),
{
    let pre = seq!['0', 'x'] + s;
    assert(pre[0] == '0' && pre[1] == 'x');
    assert(strip_hex_prefix(pre) =~= s);
    if s.len() >= 2 && s[0] == '0' && s[1] == 'x' {
        assert(is_hex_digit(s[1]));
        assert(('x' as u32) == 120);
        assert(false);
    }
    assert(strip_hex_prefix(s) == s);
}

/// Hex padding: a hex-digit text shorter than the full width decodes
/// successfully, a prepended zero digit does not change the value, and
/// every byte that lies wholly in the padding is zero.
pub proof fn lemma_hex_padding(s: Seq<char>, n: nat)
    requires
        all_hex(s),
        s.len() < 2 * n,
    ensures
        hex_decode(seq!['0'] + s, n) == hex_decode(s, n),
        hex_decode(s, n) is Some,
        forall|j: int|
            0 <= j && 2 * j + 2 <= 2 * n - s.len() ==> hex_decode(s, n)->0[j] == 0,
{
    let z = seq!['0'] + s;
    assert(('0' as u32) == 48);
    assert(('x' as u32) == 120);
    assert(is_hex_digit('0'));
    if s.len() >= 2 && s[0] == '0' && s[1] == 'x' {
        assert(is_hex_digit(s[1]));
        assert(false);
    }
    assert(strip_hex_prefix(s) == s);
    if z.len() >= 2 && z[0] == '0' && z[1] == 'x' {
        assert(z[1] == s[0]);
        assert(is_hex_digit(s[0]));
        assert(false);
    }
    assert(strip_hex_prefix(z) == z);
    assert forall|i: int| 0 <= i < z.len() implies is_hex_digit(z[i]) by {
        if i > 0 {
            assert(z[i] == s[i - 1]);
        }
    }
    assert(pad_hex(z, 2 * n) =~= pad_hex(s, 2 * n));
    let p = pad_hex(s, 2 * n);
    assert forall|j: int| 0 <= j && 2 * j + 2 <= 2 * n - s.len() implies hex_decode(s, n)->0[j]
        == 0 by {
        assert(p[2 * j] == '0');
        assert(p[2 * j + 1] == '0');
        assert(hex_val('0') == 0);
        assert(hex_bytes(p)[j] == hex_pair('0', '0'));
    }
}

/// Hex rejection: text longer than the full width after prefix
/// stripping, or with a non-hex character, decodes to nothing.
pub proof fn lemma_hex_rejects(s: Seq<char>, n: nat)
    requires
        strip_hex_prefix(s).len() > 2 * n || !all_hex(strip_hex_prefix(s)),
    ensures
        hex_decode(s, n) is None,
{
}

} // verus!
