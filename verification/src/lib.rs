//! Iguana: an LZ compressor with an rANS entropy stage.
//!
//! A buffer is parsed into literal runs and matches ([`parse`], [`matcher`]),
//! which are written into six streams; each stream is entropy-coded where that
//! helps ([`ans1`], [`ans32`], [`nibble`]) and all are framed as a block
//! ([`encoder`], [`structural`], [`block`]). Blocks make up streams with random
//! access ([`stream`]).
pub mod ans1;
pub mod ans32;
pub mod block;
pub mod bytes;
pub mod encoder;
pub mod error;
pub mod matcher;
pub mod minlz;
pub mod model;
pub mod nibble;
pub mod parse;
pub mod pool;
pub mod rans;
pub mod stream;
pub mod structural;
pub mod sum;
pub mod table;
pub mod varint;

pub use crate::ans1::{ans1_decode, ans1_encode, compress, decompress};
pub use crate::ans32::{ans32_decode, ans32_decode_simd, ans32_encode, ans32_encode_simd};
pub use crate::encoder::{iguana_compress, EntropyMode};
pub use crate::error::Error;
pub use crate::nibble::{ans_nibble_decode, ans_nibble_encode};
pub use crate::structural::{
    decode_tokens_ref, decode_tokens_simd, iguana_decompress, iguana_decompress_simd,
};
pub use crate::sum::byte_sum;
