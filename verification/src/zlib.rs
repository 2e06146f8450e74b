//! The compression primitive behind the chunk transform: zlib-wrapped
//! DEFLATE, supplied by outside crates and taken on trust through the two
//! wrappers below.

use vstd::prelude::*;

verus! {

/// The bytes that the compressor produces for `data`: the result of
/// `miniz_oxide::deflate::compress_to_vec_zlib` at compression level 1,
/// which depends on the input bytes alone.
pub uninterp spec fn deflate_of(data: Seq<u8>) -> Seq<u8>;

/// What the decompressor makes of `data`: `Some(payload)` where
/// `inflate::inflate_bytes_zlib` decodes `data` to `payload`, `None` where it
/// rejects `data`. The outcome depends on the input bytes alone.
pub uninterp spec fn inflate_of(data: Seq<u8>) -> Option<Seq<u8>>;

/// Relies on `miniz_oxide::deflate::compress_to_vec_zlib`: it compresses
/// `data` into a zlib stream, deterministically in its arguments. A zlib
/// stream is never empty (it carries at least a header and a checksum), and
/// `inflate::inflate_bytes_zlib` decodes it back to exactly the bytes that
/// were compressed.
#[verifier::external_body]
pub(crate) fn deflate_chunk(data: &[u8]) -> (r: Vec<u8>)
    ensures
        r@ == deflate_of(data@),
        r@.len() >= 1,
        inflate_of(r@) == Some(data@),
{
    miniz_oxide::deflate::compress_to_vec_zlib(data, 1)
}

/// Relies on `inflate::inflate_bytes_zlib`: it decompresses a zlib stream to
/// the bytes that were compressed, returning an error message on input it
/// cannot decode; the outcome depends on the input bytes alone.
#[verifier::external_body]
pub(crate) fn inflate_section(data: &[u8]) -> (r: Result<Vec<u8>, String>)
    ensures
        match r {
            Ok(v) => inflate_of(data@) == Some(v@),
            Err(_) => inflate_of(data@) is None,
        },
{
    inflate::inflate_bytes_zlib(data)
}

} // verus!
