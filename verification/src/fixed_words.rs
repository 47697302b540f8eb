//! The word-array family: fixed-width unsigned integers stored as
//! little-endian sequences of 64-bit words, used for amounts, block
//! numbers and difficulties. A value always occupies exactly its
//! declared word count.

use vstd::prelude::*;

verus! {

/// An unsigned integer of exactly `K` little-endian 64-bit words.
#[derive(Clone, Debug, PartialEq, Eq)]
pub struct FixedWords<const K: usize> {
    words: Vec<u64>,
}

/// 64-bit unsigned integer.
pub type U64 = FixedWords<1>;

/// 128-bit unsigned integer.
pub type U128 = FixedWords<2>;

/// 256-bit unsigned integer.
pub type U256 = FixedWords<4>;

impl<const K: usize> View for FixedWords<K> {
    type V = Seq<u64>;

    closed spec fn view(&self) -> Seq<u64> {
        self.words@
    }
}

impl<const K: usize> FixedWords<K> {
    /// A value is well-formed when it holds exactly its declared word count.
    pub open spec fn wf(&self) -> bool {
        self@.len() == K
    }

    /// The all-zero word sequence of the declared count.
    pub open spec fn zero_seq() -> Seq<u64> {
        Seq::new(K as nat, |i: int| 0u64)
    }

    /// Numeric zero: the default of every word-array type.
    pub fn zero() -> (r: Self)
        ensures
            r.wf(),
            r@ == Self::zero_seq(),
    {
        let mut v: Vec<u64> = Vec::new();
        let mut i: usize = 0;
        while i < K
            invariant
                i <= K,
                v@.len() == i,
                forall|j: int| 0 <= j < i ==> v@[j] == 0u64,
            decreases K - i,
        {
            v.push(0u64);
            i = i + 1;
        }
        proof {
            assert(v@ =~= Self::zero_seq());
        }
        FixedWords { words: v }
    }

    /// Wraps a vector that already has the declared word count.
    pub fn from_vec(v: Vec<u64>) -> (r: Self)
        requires
            v@.len() == K,
        ensures
            r.wf(),
            r@ == v@,
    {
        FixedWords { words: v }
    }

    /// The value whose least-significant word is `w` and whose other
    /// words are zero.
    pub fn from_u64(w: u64) -> (r: Self)
        requires
            K >= 1,
        ensures
            r.wf(),
            r@ == Self::zero_seq().update(0, w),
    {
        let mut v = Self::zero();
        let mut ws = v.words;
        ws.set(0, w);
        proof {
            assert(ws@ =~= Self::zero_seq().update(0, w));
        }
        FixedWords { words: ws }
    }

    /// Wraps a vector exactly when it has the declared word count.
    pub fn try_from_vec(v: Vec<u64>) -> (r: Option<Self>)
        ensures
            match r {
                Some(b) => v@.len() == K && b.wf() && b@ == v@,
                None => v@.len() != K,
            },
    {
        if v.len() == K {
            Some(FixedWords { words: v })
        } else {
            None
        }
    }

    /// The stored words, least significant first.
    pub fn words(&self) -> (r: &Vec<u64>)
        ensures
            r@ == self@,
    {
        &self.words
    }
}

impl<const K: usize> Default for FixedWords<K> {
    fn default() -> (r: Self)
        ensures
            r.wf(),
            r@ == Self::zero_seq(),
    {
        Self::zero()
    }
}

} // verus!
