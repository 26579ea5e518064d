//! zstd, with every attacker-controlled knob bounded before it reaches the decoder.
//!
//! What a frame decompresses to is a function of the frame, the capacity and the dictionary
//! alone, so it is named rather than restated; the one fact used about it is the capacity bound
//! that the decoder documents.

use vstd::prelude::*;

use crate::hashing::{blake3_digest, blake3_hash};

verus! {

/// Compression level. 19 is the last level before zstd's "ultra" range, which costs a great
/// deal of time for very little ratio on inputs this size.
pub const LEVEL: i32 = 19;

/// A zstd operation failed. The cause is never actionable at the call site: a malformed frame
/// and a mismatched dictionary are both just "these bytes are not what was declared".
#[derive(Debug, Clone, Copy, PartialEq, Eq)]
pub struct CodecError;

/// A shared dictionary, referenced by files through its BLAKE3 digest.
#[derive(Debug, Clone)]
pub struct Dictionary {
    raw: Vec<u8>,
}

pub uninterp spec fn zstd_compressed(src: Seq<u8>, level: i32) -> Option<Seq<u8>>;

pub uninterp spec fn zstd_compressed_with(src: Seq<u8>, level: i32, dict: Seq<u8>) -> Option<
    Seq<u8>,
>;

pub uninterp spec fn zstd_decompressed(src: Seq<u8>, capacity: usize) -> Option<Seq<u8>>;

pub uninterp spec fn zstd_decompressed_with(src: Seq<u8>, capacity: usize, dict: Seq<u8>) -> Option<
    Seq<u8>,
>;

pub uninterp spec fn zstd_trained(samples: Seq<Seq<u8>>, max_size: usize) -> Option<Seq<u8>>;

/// `zstd::bulk::compress`: one zstd frame for `src` at `level`, named by its arguments.
#[verifier::external_body]
fn zstd_compress(src: &[u8], level: i32) -> (r: Option<Vec<u8>>)
    ensures
        r is Some <==> zstd_compressed(src@, level) is Some,
        r matches Some(v) ==> v@ == zstd_compressed(src@, level)->0,
{
    zstd::bulk::compress(src, level).ok()
}

/// `zstd::bulk::Compressor::with_dictionary` followed by its `compress`: one frame for `src`
/// against the raw dictionary bytes, named by its arguments.
#[verifier::external_body]
fn zstd_compress_with(src: &[u8], level: i32, dict: &[u8]) -> (r: Option<Vec<u8>>)
    ensures
        r is Some <==> zstd_compressed_with(src@, level, dict@) is Some,
        r matches Some(v) ==> v@ == zstd_compressed_with(src@, level, dict@)->0,
{
    zstd::bulk::Compressor::with_dictionary(level, dict).and_then(|mut c| c.compress(src)).ok()
}

/// `zstd::bulk::decompress`: the frame's content, refused when it would exceed `capacity`,
/// as the function documents.
#[verifier::external_body]
fn zstd_decompress(src: &[u8], capacity: usize) -> (r: Option<Vec<u8>>)
    ensures
        r is Some <==> zstd_decompressed(src@, capacity) is Some,
        r matches Some(v) ==> v@ == zstd_decompressed(src@, capacity)->0 && v@.len() <= capacity,
{
    zstd::bulk::decompress(src, capacity).ok()
}

/// `zstd::bulk::Decompressor::with_dictionary` followed by its `decompress`: as
/// [`zstd_decompress`], against the raw dictionary bytes.
#[verifier::external_body]
fn zstd_decompress_with(src: &[u8], capacity: usize, dict: &[u8]) -> (r: Option<Vec<u8>>)
    ensures
        r is Some <==> zstd_decompressed_with(src@, capacity, dict@) is Some,
        r matches Some(v) ==> v@ == zstd_decompressed_with(src@, capacity, dict@)->0 && v@.len()
            <= capacity,
{
    zstd::bulk::Decompressor::with_dictionary(dict).and_then(|mut d| d.decompress(src, capacity)).ok()
}

/// `zstd::dict::from_samples`: a dictionary trained on `samples`, named by its arguments.
#[verifier::external_body]
fn zstd_train(samples: &[Vec<u8>], max_size: usize) -> (r: Option<Vec<u8>>)
    ensures
        r is Some <==> zstd_trained(samples@.map_values(|s: Vec<u8>| s@), max_size) is Some,
        r matches Some(v) ==> v@ == zstd_trained(samples@.map_values(|s: Vec<u8>| s@), max_size)->0,
{
    zstd::dict::from_samples(samples, max_size).ok()
}

impl Dictionary {
    pub closed spec fn spec_raw(&self) -> Seq<u8> {
        self.raw@
    }

    pub fn new(bytes: &[u8]) -> (d: Dictionary)
        ensures
            d.spec_raw() == bytes@,
    {
        Dictionary { raw: crate::text::to_vec(bytes) }
    }

    pub fn raw(&self) -> (r: &[u8])
        ensures
            r@ == self.spec_raw(),
    {
        self.raw.as_slice()
    }

    /// The digest a file names to say which dictionary it needs.
    pub fn digest(&self) -> (r: [u8; 32])
        ensures
            r@ == blake3_digest(self.spec_raw()),
    {
        blake3_hash(self.raw.as_slice())
    }
}

/// What `src` compresses to, with or without a dictionary.
pub open spec fn compressed_spec(src: Seq<u8>, dict: Option<Seq<u8>>) -> Option<Seq<u8>> {
    match dict {
        None => zstd_compressed(src, LEVEL),
        Some(d) => zstd_compressed_with(src, LEVEL, d),
    }
}

/// What `src` decompresses to under `capacity`, with or without a dictionary.
pub open spec fn decompressed_spec(src: Seq<u8>, capacity: usize, dict: Option<Seq<u8>>) -> Option<
    Seq<u8>,
> {
    match dict {
        None => zstd_decompressed(src, capacity),
        Some(d) => zstd_decompressed_with(src, capacity, d),
    }
}

pub open spec fn dict_view(dict: Option<&Dictionary>) -> Option<Seq<u8>> {
    match dict {
        None => None,
        Some(d) => Some(d.spec_raw()),
    }
}

/// Trains a shared dictionary from samples, which should be the payload regions that will
/// actually be compressed rather than the Markdown they came from.
pub fn train(samples: &[Vec<u8>], max_bytes: usize) -> (r: Result<Vec<u8>, CodecError>)
    ensures
        r is Ok <==> zstd_trained(samples@.map_values(|s: Vec<u8>| s@), max_bytes) is Some,
        r matches Ok(v) ==> v@ == zstd_trained(samples@.map_values(|s: Vec<u8>| s@), max_bytes)->0,
{
    match zstd_train(samples, max_bytes) {
        Some(v) => Ok(v),
        None => Err(CodecError),
    }
}

/// One zstd frame at [`LEVEL`], against the dictionary when one is given.
pub fn compress(src: &[u8], dict: Option<&Dictionary>) -> (r: Result<Vec<u8>, CodecError>)
    ensures
        r is Ok <==> compressed_spec(src@, dict_view(dict)) is Some,
        r matches Ok(v) ==> v@ == compressed_spec(src@, dict_view(dict))->0,
{
    let out = match dict {
        None => zstd_compress(src, LEVEL),
        Some(d) => zstd_compress_with(src, LEVEL, d.raw()),
    };
    match out {
        Some(v) => Ok(v),
        None => Err(CodecError),
    }
}

/// Decompresses into a buffer capped at `capacity`, which the caller has already bounded, so a
/// declared length cannot become an allocation.
pub fn decompress(src: &[u8], capacity: usize, dict: Option<&Dictionary>) -> (r: Result<
    Vec<u8>,
    CodecError,
>)
    ensures
        r is Ok <==> decompressed_spec(src@, capacity, dict_view(dict)) is Some,
        r matches Ok(v) ==> v@ == decompressed_spec(src@, capacity, dict_view(dict))->0 && v@.len()
            <= capacity,
{
    let out = match dict {
        None => zstd_decompress(src, capacity),
        Some(d) => zstd_decompress_with(src, capacity, d.raw()),
    };
    match out {
        Some(v) => Ok(v),
        None => Err(CodecError),
    }
}

} // verus!
