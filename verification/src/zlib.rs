//! An interface to the compression library.

use vstd::prelude::*;
use flate2::read::{ZlibDecoder, ZlibEncoder};
use flate2::Compression;
use std::io::Read;

verus! {

/// The zlib stream that the compression library makes of `data` at its
/// default level, where it makes one.
pub uninterp spec fn zlib_encoded(data: Seq<u8>) -> Option<Seq<u8>>;

/// The bytes that the compression library reads out of a zlib stream, where
/// it accepts the stream.
pub uninterp spec fn zlib_decoded(stream: Seq<u8>) -> Option<Seq<u8>>;

/// `flate2::read::ZlibEncoder`, read to its end: the zlib stream of `data`
/// at the default level.  What the encoder wrote, the decoder of the same
/// library reads back as `data`: that is what makes the two a codec, and it is
/// taken on trust here.
#[verifier::external_body]
pub(crate) fn zlib_encode(data: &[u8]) -> (r: Option<Vec<u8>>)
    ensures
        r is Some <==> zlib_encoded(data@) is Some,
        r matches Some(z) ==> zlib_encoded(data@) == Some(z@) && zlib_decoded(z@) == Some(data@),
{
    let mut out = Vec::new();
    match ZlibEncoder::new(data, Compression::default()).read_to_end(&mut out) {
        Ok(_) => Some(out),
        Err(_) => None,
    }
}

/// `flate2::read::ZlibDecoder`, read to its end: the bytes that the stream
/// holds, or nothing where the library refuses the stream.
#[verifier::external_body]
pub(crate) fn zlib_decode(stream: &[u8]) -> (r: Option<Vec<u8>>)
    ensures
        r is Some <==> zlib_decoded(stream@) is Some,
        r matches Some(d) ==> zlib_decoded(stream@) == Some(d@),
{
    let mut out = Vec::new();
    match ZlibDecoder::new(stream).read_to_end(&mut out) {
        Ok(_) => Some(out),
        Err(_) => None,
    }
}

/// What `deflate` gives: the compressed form, if it is shorter than the data
/// and unpacks to the data again.
pub open spec fn deflated(data: Seq<u8>) -> Option<Seq<u8>> {
    match zlib_encoded(data) {
        Some(z) if z.len() < data.len() && zlib_decoded(z) == Some(data) => Some(z),
        _ => None,
    }
}

/// What `inflate` gives: the decompressed bytes, if they have the length
/// that was expected.
pub open spec fn inflated(stream: Seq<u8>, len: nat) -> Option<Seq<u8>> {
    match zlib_decoded(stream) {
        Some(d) if d.len() == len => Some(d),
        _ => None,
    }
}

/// Attempt to compress a single block of data.  Returns the data if it is
/// compressible, otherwise, returns None.
pub fn deflate(buf: &[u8]) -> (r: Option<Vec<u8>>)
    ensures
        r is Some <==> deflated(buf@) is Some,
        r matches Some(z) ==> deflated(buf@) == Some(z@) && z@.len() < buf@.len() && inflated(
            z@,
            buf@.len(),
        ) == Some(buf@),
{
    match zlib_encode(buf) {
        Some(res) => {
            if res.len() < buf.len() {
                Some(res)
            } else {
                None
            }
        },
        None => None,
    }
}

/// Decompress the given buffer.  Returns None if the library refuses it, or
/// if what comes out has not the length `size_hint`.
pub fn inflate(buf: &[u8], size_hint: usize) -> (r: Option<Vec<u8>>)
    ensures
        r is Some <==> inflated(buf@, size_hint as nat) is Some,
        r matches Some(d) ==> inflated(buf@, size_hint as nat) == Some(d@),
{
    match zlib_decode(buf) {
        Some(res) => {
            if res.len() == size_hint {
                Some(res)
            } else {
                None
            }
        },
        None => None,
    }
}

} // verus!
