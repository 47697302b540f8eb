//! Fixed-width value types shared between contract state and an external
//! chain's wire formats: opaque byte arrays and word-based big integers,
//! each encoded under a compact positional binary format, the
//! recursive-length-prefix (RLP) format, and (for byte arrays) a hexadecimal
//! text format, together with one-shot hashing into the 256-bit type.

pub mod compact;
pub mod errors;
pub mod fixed_bytes;
pub mod fixed_words;
pub mod hashing;
pub mod hex_text;
pub mod rlp_codec;

pub use crate::errors::DecodeError;
pub use crate::fixed_bytes::{Address, Bloom, FixedBytes, H128, H160, H256, H512, H520, H64,
    Public, Secret, Signature};
pub use crate::fixed_words::{FixedWords, U128, U256, U64};
pub use crate::hashing::{keccak256, sha256};
