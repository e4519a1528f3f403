//! Gzip framing of the byte streams, through the flate2 crate: the output
//! is written as one gzip stream, and input that opens with the gzip magic
//! bytes `0x1f 0x8b` is decompressed before it is read as lines.

use vstd::prelude::*;
use std::io::Read;
use std::io::Write;
use crate::record::lines_of;
use crate::record::byte_lines;
use crate::record::split_lines;
use crate::record::FormatError;

verus! {

/// What flate2's gzip decoder yields for a byte stream: the decoded bytes,
/// or nothing when the stream does not decode as gzip.
pub uninterp spec fn gunzip_of(compressed: Seq<u8>) -> Option<Seq<u8>>;

/// Relies on flate2's `write::GzEncoder` over an in-memory buffer — writing
/// to a `Vec<u8>` cannot fail, so neither call errors — and on gzip round
/// tripping: what `GzEncoder` writes, `read::GzDecoder` decodes back to the
/// bytes that were written.
#[verifier::external_body]
pub(crate) fn gzip_compress(data: &[u8]) -> (r: Vec<u8>)
    ensures
        gunzip_of(r@) == Some(data@),
{
    let mut enc = flate2::write::GzEncoder::new(Vec::new(), flate2::Compression::default());
    enc.write_all(data).expect("writing to a byte buffer cannot fail");
    enc.finish().expect("writing to a byte buffer cannot fail")
}

/// Relies on flate2's `read::GzDecoder` and `Read::read_to_end`: what they
/// decode is a function of the compressed bytes alone, and a malformed
/// stream ends in an error instead.
#[verifier::external_body]
pub(crate) fn gzip_decompress(data: &[u8]) -> (r: Option<Vec<u8>>)
    ensures
        match r {
            Some(v) => gunzip_of(data@) == Some(v@),
            None => gunzip_of(data@) is None,
        },
{
    let mut out = Vec::new();
    let mut dec = flate2::read::GzDecoder::new(data);
    match dec.read_to_end(&mut out) {
        Ok(_) => Some(out),
        Err(_) => None,
    }
}

/// Whether a byte stream opens with the gzip magic bytes.
pub open spec fn is_gzip(b: Seq<u8>) -> bool {
    b.len() >= 2 && b[0] == 0x1fu8 && b[1] == 0x8bu8
}

/// The byte stream as the record reader sees it: decompressed when it opens
/// with the gzip magic bytes, verbatim otherwise; nothing when a compressed
/// stream does not decode.
pub open spec fn spec_decoded(b: Seq<u8>) -> Option<Seq<u8>> {
    if is_gzip(b) {
        gunzip_of(b)
    } else {
        Some(b)
    }
}

/// Decode the raw input and split it into lines.  A stream that opens with
/// the gzip magic bytes is decompressed first; one that then does not
/// decode is fatal.
pub fn decode_input(data: &[u8]) -> (r: Result<Vec<Vec<u8>>, FormatError>)
    ensures
        match r {
            Ok(ls) => spec_decoded(data@) matches Some(d) && byte_lines(ls@) == lines_of(d),
            Err(e) => spec_decoded(data@) is None && e == FormatError::UnreadableInput,
        },
{
    if data.len() >= 2 && data[0] == 0x1fu8 && data[1] == 0x8bu8 {
        match gzip_decompress(data) {
            Some(decoded) => Ok(split_lines(decoded.as_slice())),
            None => Err(FormatError::UnreadableInput),
        }
    } else {
        Ok(split_lines(data))
    }
}

} // verus!
