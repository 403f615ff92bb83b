//! The byte codecs of the baseline encodings: zstd frames for the
//! descriptor and bucket payloads, gzip streams for the flat ones.

use std::io::{Read, Write};

use vstd::prelude::*;

use crate::Error;

verus! {

#[verifier::external_type_specification]
#[verifier::external_body]
pub struct ExIoError(std::io::Error);

/// What `zstd::stream::encode_all` gives for `data` at compression level
/// `level`: the frame it makes, or `None` where it fails.
pub uninterp spec fn zstd_frame(data: Seq<u8>, level: i32) -> Option<Seq<u8>>;

/// What `zstd::stream::decode_all` gives for `frame`: the bytes it
/// recovers, or `None` where it rejects the frame.
pub uninterp spec fn zstd_content(frame: Seq<u8>) -> Option<Seq<u8>>;

/// What a `flate2` `GzEncoder` at the default level gives for `data`: the
/// stream it makes, or `None` where it fails.
pub uninterp spec fn gzip_stream(data: Seq<u8>) -> Option<Seq<u8>>;

/// What a `flate2` `GzDecoder` gives for `stream`: the bytes it recovers,
/// or `None` where it rejects the stream.
pub uninterp spec fn gzip_content(stream: Seq<u8>) -> Option<Seq<u8>>;

/// `zstd::stream::encode_all` over a byte slice: it succeeds exactly where
/// `zstd_frame` of the input and level is a frame, and gives that frame.
#[verifier::external_body]
fn zstd_encode_all(data: &[u8], level: i32) -> (r: Result<Vec<u8>, std::io::Error>)
    ensures
        r is Ok <==> zstd_frame(data@, level) is Some,
        r matches Ok(b) ==> zstd_frame(data@, level) == Some(b@),
{
    zstd::stream::encode_all(data, level)
}

/// `zstd::stream::decode_all` over a byte slice: it succeeds exactly where
/// `zstd_content` of the input is some bytes, and gives those bytes.
#[verifier::external_body]
fn zstd_decode_all(data: &[u8]) -> (r: Result<Vec<u8>, std::io::Error>)
    ensures
        r is Ok <==> zstd_content(data@) is Some,
        r matches Ok(b) ==> zstd_content(data@) == Some(b@),
{
    zstd::stream::decode_all(data)
}

/// A `flate2` `GzEncoder` at `Compression::default()` that is given all of
/// `data` and finished: it succeeds exactly where `gzip_stream` of the input
/// is a stream, and gives that stream.
#[verifier::external_body]
fn gzip_encode_all(data: &[u8]) -> (r: Result<Vec<u8>, std::io::Error>)
    ensures
        r is Ok <==> gzip_stream(data@) is Some,
        r matches Ok(b) ==> gzip_stream(data@) == Some(b@),
{
    let mut encoder = flate2::write::GzEncoder::new(Vec::new(), flate2::Compression::default());
    encoder.write_all(data)?;
    encoder.finish()
}

/// A `flate2` `GzDecoder` over `data`, read to the end: it succeeds exactly
/// where `gzip_content` of the input is some bytes, and gives those bytes.
#[verifier::external_body]
fn gzip_decode_all(data: &[u8]) -> (r: Result<Vec<u8>, std::io::Error>)
    ensures
        r is Ok <==> gzip_content(data@) is Some,
        r matches Ok(b) ==> gzip_content(data@) == Some(b@),
{
    let mut decoder = flate2::read::GzDecoder::new(data);
    let mut out = Vec::new();
    decoder.read_to_end(&mut out)?;
    Ok(out)
}

/// The message of an I/O error (its `Display` text); nothing is promised
/// of it.
#[verifier::external_body]
fn io_error_text(e: &std::io::Error) -> String {
    format!("{e}")
}

/// The zstd compression level of the descriptor and bucket payloads.
pub const PAYLOAD_ZSTD_LEVEL: i32 = 3;

/// Compresses an encoded payload into a zstd frame at
/// [`PAYLOAD_ZSTD_LEVEL`]; a codec failure is an `Io` error.
pub fn zstd_pack(raw: &[u8]) -> (r: Result<Vec<u8>, Error>)
    ensures
        r is Ok <==> zstd_frame(raw@, PAYLOAD_ZSTD_LEVEL) is Some,
        r matches Ok(b) ==> zstd_frame(raw@, PAYLOAD_ZSTD_LEVEL) == Some(b@),
        r matches Err(e) ==> e is Io,
{
    match zstd_encode_all(raw, PAYLOAD_ZSTD_LEVEL) {
        Ok(b) => Ok(b),
        Err(e) => Err(Error::Io(io_error_text(&e))),
    }
}

/// Recovers an encoded payload from a zstd frame; a frame the codec
/// rejects is an `Io` error.
pub fn zstd_unpack(bytes: &[u8]) -> (r: Result<Vec<u8>, Error>)
    ensures
        r is Ok <==> zstd_content(bytes@) is Some,
        r matches Ok(b) ==> zstd_content(bytes@) == Some(b@),
        r matches Err(e) ==> e is Io,
{
    match zstd_decode_all(bytes) {
        Ok(b) => Ok(b),
        Err(e) => Err(Error::Io(io_error_text(&e))),
    }
}

/// Gzips a serialised trace; a codec failure is an `Io` error.
pub fn gzip_pack(raw: &[u8]) -> (r: Result<Vec<u8>, Error>)
    ensures
        r is Ok <==> gzip_stream(raw@) is Some,
        r matches Ok(b) ==> gzip_stream(raw@) == Some(b@),
        r matches Err(e) ==> e is Io,
{
    match gzip_encode_all(raw) {
        Ok(b) => Ok(b),
        Err(e) => Err(Error::Io(io_error_text(&e))),
    }
}

/// Recovers a serialised trace from a gzip stream; a stream the codec
/// rejects is an `Io` error.
pub fn gzip_unpack(bytes: &[u8]) -> (r: Result<Vec<u8>, Error>)
    ensures
        r is Ok <==> gzip_content(bytes@) is Some,
        r matches Ok(b) ==> gzip_content(bytes@) == Some(b@),
        r matches Err(e) ==> e is Io,
{
    match gzip_decode_all(bytes) {
        Ok(b) => Ok(b),
        Err(e) => Err(Error::Io(io_error_text(&e))),
    }
}

} // verus!
