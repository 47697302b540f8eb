//! The byte-array family: fixed-length opaque byte sequences used for
//! hash digests, addresses, public keys, signatures and log filters.
//! A value always occupies exactly its declared length; construction
//! never truncates or extends.

use vstd::prelude::*;

verus! {

/// An opaque sequence of exactly `N` bytes.
#[derive(Clone, Debug, PartialEq, Eq)]
pub struct FixedBytes<const N: usize> {
    bytes: Vec<u8>,
}

/// 64-bit hash value.
pub type H64 = FixedBytes<8>;

/// 128-bit hash value.
pub type H128 = FixedBytes<16>;

/// 160-bit hash value.
pub type H160 = FixedBytes<20>;

/// 256-bit hash value.
pub type H256 = FixedBytes<32>;

/// 512-bit hash value.
pub type H512 = FixedBytes<64>;

/// 520-bit value: a 65-byte recoverable signature.
pub type H520 = FixedBytes<65>;

/// 2048-bit log bloom filter.
pub type Bloom = FixedBytes<256>;

/// An account address.
pub type Address = H160;

/// A secret key.
pub type Secret = H256;

/// A public key.
pub type Public = H512;

/// A recoverable signature.
pub type Signature = H520;

impl<const N: usize> View for FixedBytes<N> {
    type V = Seq<u8>;

    closed spec fn view(&self) -> Seq<u8> {
        self.bytes@
    }
}

impl<const N: usize> FixedBytes<N> {
    /// A value is well-formed when it holds exactly its declared length.
    pub open spec fn wf(&self) -> bool {
        self@.len() == N
    }

    /// The all-zero byte sequence of the declared length.
    pub open spec fn zero_seq() -> Seq<u8> {
        Seq::new(N as nat, |i: int| 0u8)
    }

    /// The all-zero value: the default of every byte-array type.
    pub fn zero() -> (r: Self)
        ensures
            r.wf(),
            r@ == Self::zero_seq(),
    {
        let mut v: Vec<u8> = Vec::new();
        let mut i: usize = 0;
        while i < N
            invariant
                i <= N,
                v@.len() == i,
                forall|j: int| 0 <= j < i ==> v@[j] == 0u8,
            decreases N - i,
        {
            v.push(0u8);
            i = i + 1;
        }
        proof {
            assert(v@ =~= Self::zero_seq());
        }
        FixedBytes { bytes: v }
    }

    /// Wraps a vector that already has the declared length.
    pub fn from_vec(v: Vec<u8>) -> (r: Self)
        requires
            v@.len() == N,
        ensures
            r.wf(),
            r@ == v@,
    {
        FixedBytes { bytes: v }
    }

    /// Wraps a vector exactly when it has the declared length.
    pub fn try_from_vec(v: Vec<u8>) -> (r: Option<Self>)
        ensures
            match r {
                Some(b) => v@.len() == N && b.wf() && b@ == v@,
                None => v@.len() != N,
            },
    {
        if v.len() == N {
            Some(FixedBytes { bytes: v })
        } else {
            None
        }
    }

    /// The stored bytes.
    pub fn bytes(&self) -> (r: &Vec<u8>)
        ensures
            r@ == self@,
    {
        &self.bytes
    }
}

impl<const N: usize> Default for FixedBytes<N> {
    fn default() -> (r: Self)
        ensures
            r.wf(),
            r@ == Self::zero_seq(),
    {
        Self::zero()
    }
}

} // verus!
