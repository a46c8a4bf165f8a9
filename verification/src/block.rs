//! Single blocks: encoding with a bound on the size, and decoding.
use crate::encoder;
use crate::encoder::{encode_raw_block, iguana_compress, EntropyMode};
use crate::error::Error;
use crate::structural;
use crate::structural::{block_decoded_len, iguana_decompress};
use crate::varint;
use crate::varint::control_varuint_len;
use vstd::prelude::*;

verus! {

/// Largest block size that callers should use (8 MiB); the codec takes larger ones.
pub const MAX_BLOCK_SIZE: usize = 8388608;

/// The largest size of an encoded block of `n` bytes: that of the stored form.
pub open spec fn encoded_bound(n: int) -> int {
    n + 2 * varint::group_count(n) + 1
}

/// The encoded form of a block: the compressed one unless it is larger than the
/// stored one.
pub open spec fn encoded(mode: EntropyMode, s: Seq<u8>) -> Seq<u8> {
    let c = encoder::compressed(mode, s);
    if c.len() <= encoded_bound(s.len() as int) {
        c
    } else {
        encoder::raw_block(s)
    }
}

/// Upper bound on the encoded size of a block of `src_len` bytes.
pub fn max_encoded_len(src_len: usize) -> (n: usize)
    requires
        encoded_bound(src_len as int) <= usize::MAX,
    ensures
        n == encoded_bound(src_len as int),
{
    src_len + 2 * control_varuint_len(src_len as u64) + 1
}

/// The content length of an encoded block, without decoding it.
pub fn decoded_len(src: &[u8]) -> (r: Result<usize, Error>)
    ensures
        match r {
            Ok(n) => structural::decoded_len(src@) == Ok::<int, Error>(n as int),
            Err(e) => structural::decoded_len(src@) == Err::<int, Error>(e),
        },
{
    block_decoded_len(src)
}

/// Encodes one block in at most [`max_encoded_len`] bytes.
pub fn encode(src: &[u8], entropy: EntropyMode) -> (out: Vec<u8>)
    requires
        src@.len() <= i32::MAX,
    ensures
        out@ == encoded(entropy, src@),
{
    let packed: Vec<u8> = iguana_compress(src, entropy);
    proof {
        varint::lemma_group_count_bound(src@.len() as int);
    }
    if packed.len() <= max_encoded_len(src.len()) {
        packed
    } else {
        encode_raw_block(src)
    }
}

/// Encodes one block if that saves at least `min_saved` bytes.
pub fn try_encode(src: &[u8], entropy: EntropyMode, min_saved: usize) -> (r: Option<Vec<u8>>)
    requires
        src@.len() <= i32::MAX,
    ensures
        match r {
            Some(out) => out@ == encoded(entropy, src@) && (min_saved == 0 || encoded(
                entropy,
                src@,
            ).len() + min_saved <= src@.len()),
            None => 0 < min_saved && encoded(entropy, src@).len() + min_saved > src@.len(),
        },
{
    let packed: Vec<u8> = encode(src, entropy);
    let saved: usize = if packed.len() < src.len() {
        src.len() - packed.len()
    } else {
        0
    };
    if saved >= min_saved {
        Some(packed)
    } else {
        None
    }
}

/// Decodes one block.
pub fn decode(src: &[u8]) -> (r: Result<Vec<u8>, Error>)
    ensures
        match r {
            Ok(out) => structural::decoded(src@) == Ok::<Seq<u8>, Error>(out@),
            Err(e) => structural::decoded(src@) == Err::<Seq<u8>, Error>(e),
        },
{
    iguana_decompress(src)
}

/// Encoding never exceeds its bound.
pub proof fn lemma_encoded_bound(mode: EntropyMode, s: Seq<u8>)
    ensures
        encoded(mode, s).len() <= encoded_bound(s.len() as int),
{
    varint::lemma_control_len(s.len() as int);
}

/// The encoded block is the compressed form wherever that is within the bound, and the
/// stored form elsewhere, so it is never longer than either; the bound is the size of the
/// stored form.
pub proof fn lemma_encoded_shorter(mode: EntropyMode, s: Seq<u8>)
    ensures
        ({
            let c = encoder::compressed(mode, s);
            let r = encoder::raw_block(s);
            &&& encoded_bound(s.len() as int) == r.len()
            &&& c.len() <= r.len() ==> encoded(mode, s) == c
            &&& c.len() > r.len() ==> encoded(mode, s) == r
            &&& encoded(mode, s).len() <= c.len()
            &&& encoded(mode, s).len() <= r.len()
        }),
{
    encoder::lemma_raw_parts(s);
    varint::lemma_control_len(s.len() as int);
}

/// Decoding an encoded block gives back its content, and its length without
/// decoding is right.
pub proof fn lemma_roundtrip(mode: EntropyMode, s: Seq<u8>)
    requires
        s.len() <= i32::MAX,
    ensures
        structural::decoded(encoded(mode, s)) == Ok::<Seq<u8>, Error>(s),
        structural::decoded_len(encoded(mode, s)) == Ok::<int, Error>(s.len() as int),
{
    encoder::lemma_roundtrip(mode, s);
    encoder::lemma_raw_roundtrip(s);
}

} // verus!
