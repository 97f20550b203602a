//! Compression at the fetch and transfer edges.
//!
//! Shards and transfer bodies may arrive zstd- or gzip-framed; the format
//! is detected from magic bytes and reversed before the merger sees the
//! bytes.  The codecs themselves are outside code; their results are named
//! and the round trip is part of the encoder's contract.

use std::io::Read;
use vstd::prelude::*;

verus! {

/// What `zstd::stream::encode_all` produces for the given bytes and level.
pub uninterp spec fn zstd_frame_of(data: Seq<u8>, level: i32) -> Seq<u8>;

/// What `zstd::stream::decode_all` yields: `None` where it fails.
pub uninterp spec fn zstd_unframed(data: Seq<u8>) -> Option<Seq<u8>>;

/// What gzip decoding yields: `None` where it fails.
pub uninterp spec fn gzip_unframed(data: Seq<u8>) -> Option<Seq<u8>>;

/// Relies on `zstd::stream::encode_all`: the output is a zstd frame, it
/// begins with the zstd magic bytes, and decoding it gives the input back
/// (zstd is lossless).
#[verifier::external_body]
pub fn zstd_compress(data: &[u8], level: i32) -> (r: Result<Vec<u8>, String>)
    ensures
        r matches Ok(out) ==> {
            &&& out@ == zstd_frame_of(data@, level)
            &&& zstd_unframed(out@) == Some(data@)
            &&& out@.len() >= 4
            &&& out@[0] == 0x28u8 && out@[1] == 0xb5u8 && out@[2] == 0x2fu8 && out@[3] == 0xfdu8
        },
{
    match zstd::stream::encode_all(data, level) {
        Ok(v) => Ok(v),
        Err(e) => Err(e.to_string()),
    }
}

/// Relies on `zstd::stream::decode_all`: decoding succeeds exactly where
/// the bytes are a well-formed frame, and yields the framed payload.
#[verifier::external_body]
pub fn zstd_decompress(data: &[u8]) -> (r: Result<Vec<u8>, String>)
    ensures
        r matches Ok(out) ==> zstd_unframed(data@) == Some(out@),
        r is Err ==> zstd_unframed(data@) is None,
{
    match zstd::stream::decode_all(data) {
        Ok(v) => Ok(v),
        Err(e) => Err(e.to_string()),
    }
}

/// Relies on `flate2::read::GzDecoder`: decoding succeeds exactly where
/// the bytes are a well-formed gzip stream, and yields its payload.
#[verifier::external_body]
pub fn gzip_decompress(data: &[u8]) -> (r: Result<Vec<u8>, String>)
    ensures
        r matches Ok(out) ==> gzip_unframed(data@) == Some(out@),
        r is Err ==> gzip_unframed(data@) is None,
{
    let mut decoder = flate2::read::GzDecoder::new(data);
    let mut out = Vec::new();
    match decoder.read_to_end(&mut out) {
        Ok(_) => Ok(out),
        Err(e) => Err(e.to_string()),
    }
}

/// The bytes start with the zstd frame magic `28 B5 2F FD`.
pub open spec fn spec_is_zstd(data: Seq<u8>) -> bool {
    data.len() >= 4 && data[0] == 0x28u8 && data[1] == 0xb5u8 && data[2] == 0x2fu8 && data[3]
        == 0xfdu8
}

/// The bytes start with the gzip magic `1F 8B`.
pub open spec fn spec_is_gzip(data: Seq<u8>) -> bool {
    data.len() >= 2 && data[0] == 0x1fu8 && data[1] == 0x8bu8
}

/// What a downloaded shard decompresses to: zstd or gzip by magic bytes,
/// anything else passes through unchanged.
pub open spec fn spec_decompressed(data: Seq<u8>) -> Option<Seq<u8>> {
    if spec_is_zstd(data) {
        zstd_unframed(data)
    } else if spec_is_gzip(data) {
        gzip_unframed(data)
    } else {
        Some(data)
    }
}

/// Detect and reverse shard compression: zstd and gzip by their magic
/// bytes, other bytes unchanged.  Fails exactly where a detected frame is
/// corrupt.
pub fn decompress_if_needed(data: Vec<u8>) -> (r: Result<Vec<u8>, String>)
    ensures
        r matches Ok(out) ==> spec_decompressed(data@) == Some(out@),
        r is Err ==> spec_decompressed(data@) is None,
{
    if data.len() >= 4 && data[0] == 0x28 && data[1] == 0xb5 && data[2] == 0x2f && data[3] == 0xfd {
        zstd_decompress(data.as_slice())
    } else if data.len() >= 2 && data[0] == 0x1f && data[1] == 0x8b {
        gzip_decompress(data.as_slice())
    } else {
        Ok(data)
    }
}

} // verus!
