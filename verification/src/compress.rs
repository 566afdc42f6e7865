//! Transfer of a file's contents through zstd compression.

use vstd::prelude::*;

verus! {

#[verifier::external_type_specification]
#[verifier::external_body]
pub struct ExIoError(std::io::Error);

/// The zstd frame that `zstd::stream::encode_all` makes of `data` at `level`.
pub uninterp spec fn zstd_encoded(data: Seq<u8>, level: i32) -> Seq<u8>;

/// The data that `zstd::stream::decode_all` reads from `frame`.
pub uninterp spec fn zstd_decoded(frame: Seq<u8>) -> Seq<u8>;

/// Calls `zstd::stream::encode_all`, which compresses `data` into one zstd
/// frame the way a `zstd::stream::Encoder` does. When it succeeds the frame
/// is the one `zstd_encoded` names; failure is left open.
#[verifier::external_body]
fn zstd_encode_all(data: &[u8], level: i32) -> (frame: Result<Vec<u8>, std::io::Error>)
    ensures
        frame matches Ok(f) ==> f@ == zstd_encoded(data@, level),
{
    zstd::stream::encode_all(data, level)
}

/// Calls `zstd::stream::decode_all`, which decompresses `frame` the way a
/// `zstd::stream::Decoder` does. When it succeeds the data is the one
/// `zstd_decoded` names, and, zstd being lossless, a frame that
/// `zstd_encoded` made of some data gives that data back; failure is left open.
#[verifier::external_body]
fn zstd_decode_all(frame: &[u8]) -> (data: Result<Vec<u8>, std::io::Error>)
    ensures
        data matches Ok(d) ==> d@ == zstd_decoded(frame@) && (forall|x: Seq<u8>, level: i32|
            #[trigger] zstd_encoded(x, level) == frame@ ==> d@ == x),
{
    zstd::stream::decode_all(frame)
}

/// Why a compressed transfer failed.
#[derive(Debug)]
pub enum CompressionError {
    /// Compressing the source failed.
    Compress(std::io::Error),
    /// Decompressing the compressed data failed.
    Decompress(std::io::Error),
}

/// The outcome of a compressed transfer: what is written at the
/// destination, and how many compressed bytes were carried.
#[derive(Debug)]
pub struct CompressedCopy {
    pub contents: Vec<u8>,
    pub wire_bytes: u64,
}

/// Carries `source` through zstd at `compression_level` and unpacks it again.
/// On success the destination receives exactly the source bytes, and the
/// bytes on the wire are the size of the compressed frame.
pub fn transfer_with_compression(source: &[u8], compression_level: i32) -> (copy: Result<
    CompressedCopy,
    CompressionError,
>)
    ensures
        copy matches Ok(c) ==> c.contents@ == source@ && c.wire_bytes == zstd_encoded(
            source@,
            compression_level,
        ).len(),
{
    let compressed = match zstd_encode_all(source, compression_level) {
        Ok(frame) => frame,
        Err(e) => return Err(CompressionError::Compress(e)),
    };
    let wire_bytes = compressed.len() as u64;
    let contents = match zstd_decode_all(compressed.as_slice()) {
        Ok(data) => data,
        Err(e) => return Err(CompressionError::Decompress(e)),
    };
    proof {
        assert(zstd_encoded(source@, compression_level) == compressed@);
    }
    Ok(CompressedCopy { contents, wire_bytes })
}

} // verus!
