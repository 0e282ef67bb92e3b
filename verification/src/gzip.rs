//! Packing and unpacking gzip data, as the dump holds its metadata.

use flate2::read::GzDecoder;
use flate2::write::GzEncoder;
use flate2::Compression;
use std::io::{Read, Write};
use vstd::prelude::*;

verus! {

/// The error type of `std::io`, carried from flate2 to the caller's match.
#[verifier::external_type_specification]
#[verifier::external_body]
pub struct ExIoError(std::io::Error);

/// The gzip member that flate2 writes for `content` at its default
/// compression level, or `None` where its encoder gives up on `content`.
pub uninterp spec fn gzip_of(content: Seq<u8>) -> Option<Seq<u8>>;

/// What flate2 reads out of the gzip member at the front of `packed`, or
/// `None` where it finds no sound member there.
pub uninterp spec fn gunzip_of(packed: Seq<u8>) -> Option<Seq<u8>>;

/// Why gzip data could not be produced or read.
#[derive(Clone, Copy, Debug, PartialEq, Eq, Structural)]
pub enum GzipError {
    /// The bytes do not start with a sound gzip member.
    Corrupt,
    /// The encoder gave up on the content.
    Encoder,
}

/// `flate2::write::GzEncoder` over a `Vec<u8>`: `new` with
/// `Compression::default()`, `write_all`, `finish`.
///
/// Trusted: whether the encoder fails, and the bytes that come out when it
/// does not, are a function of the bytes that go in. The header that flate2
/// writes holds no time, no name and no mark of the machine, and a `Vec`
/// takes every write.
#[verifier::external_body]
fn deflate_member(content: &[u8]) -> (packed: Result<Vec<u8>, std::io::Error>)
    ensures
        packed matches Ok(bytes) ==> gzip_of(content@) == Some(bytes@),
        packed is Err ==> gzip_of(content@) is None,
{
    let mut encoder = GzEncoder::new(Vec::new(), Compression::default());
    encoder.write_all(content)?;
    encoder.finish()
}

/// `flate2::read::GzDecoder` over a byte slice, read to its end.
///
/// Trusted: whether the decoder fails, and the bytes it yields when it does
/// not, are a function of the bytes that go in.
#[verifier::external_body]
fn inflate_member(packed: &[u8]) -> (content: Result<Vec<u8>, std::io::Error>)
    ensures
        content matches Ok(bytes) ==> gunzip_of(packed@) == Some(bytes@),
        content is Err ==> gunzip_of(packed@) is None,
{
    let mut decoder = GzDecoder::new(packed);
    let mut content = Vec::new();
    decoder.read_to_end(&mut content)?;
    Ok(content)
}

/// Packs `content` into one gzip member. It fails only where flate2's
/// encoder gives up on `content`.
pub fn gzip(content: &[u8]) -> (packed: Result<Vec<u8>, GzipError>)
    ensures
        packed matches Ok(bytes) ==> gzip_of(content@) == Some(bytes@),
        packed matches Err(e) ==> e == GzipError::Encoder && gzip_of(content@) is None,
{
    match deflate_member(content) {
        Ok(bytes) => Ok(bytes),
        Err(_) => Err(GzipError::Encoder),
    }
}

/// Unpacks the gzip member at the front of `packed`.
pub fn gunzip(packed: &[u8]) -> (content: Result<Vec<u8>, GzipError>)
    ensures
        content matches Ok(bytes) ==> gunzip_of(packed@) == Some(bytes@),
        content matches Err(e) ==> e == GzipError::Corrupt && gunzip_of(packed@) is None,
{
    match inflate_member(packed) {
        Ok(bytes) => Ok(bytes),
        Err(_) => Err(GzipError::Corrupt),
    }
}

} // verus!
