//! zlib compression of a section.
//!
//! The filtered section is stored as a zlib stream.

use crate::compression::filter::bytes_of;
use crate::compression::filter::filter_bytes;
use crate::compression::filter::filtered;
use crate::compression::filter::unfilter_bytes;
use crate::compression::filter::unfiltered;
use vstd::prelude::*;

verus! {

/// The effort that is spent on compression, from 0 to 10.
pub const ZLIB_LEVEL: u8 = 4;

/// The zlib stream that the compressor writes for `data` at the given level.
pub uninterp spec fn zlib_deflated(data: Seq<u8>, level: u8) -> Seq<u8>;

/// The bytes that the decompressor reads from a zlib stream when it may give
/// at most `limit` bytes, or `None` where it refuses the stream.
pub uninterp spec fn zlib_inflated(compressed: Seq<u8>, limit: int) -> Option<Seq<u8>>;

/// Writes `data` as a zlib stream.
///
/// Trusted: the body calls `miniz_oxide::deflate::compress_to_vec_zlib`. The
/// contract claims only that the stream depends on nothing but the data and
/// the level, and gives it a name.
#[verifier::external_body]
fn zlib_deflate(data: &[u8], level: u8) -> (out: Vec<u8>)
    ensures
        out@ == zlib_deflated(data@, level),
{
    miniz_oxide::deflate::compress_to_vec_zlib(data, level)
}

/// Reads a zlib stream of at most `limit` bytes of contents.
///
/// Trusted: the body calls
/// `miniz_oxide::inflate::decompress_to_vec_zlib_with_limit`. The contract
/// claims only that the outcome depends on nothing but the stream and the
/// limit, and gives it a name; a stream that is refused gives `None`.
#[verifier::external_body]
fn zlib_inflate(compressed: &[u8], limit: usize) -> (out: Option<Vec<u8>>)
    ensures
        bytes_of(out) == zlib_inflated(compressed@, limit as int),
{
    match miniz_oxide::inflate::decompress_to_vec_zlib_with_limit(compressed, limit) {
        Ok(data) => Some(data),
        Err(_) => None,
    }
}

/// The compressed form of a section.
pub open spec fn compressed(data: Seq<u8>) -> Seq<u8> {
    zlib_deflated(filtered(data), ZLIB_LEVEL)
}

/// The section of `expected` bytes that the contents of a zlib stream stand
/// for, or `None` where the stream was refused or holds another number of
/// bytes.
pub open spec fn inflated_section(inflated: Option<Seq<u8>>, expected: int) -> Option<Seq<u8>> {
    match inflated {
        Some(bytes) => if bytes.len() == expected {
            Some(unfiltered(bytes))
        } else {
            None
        },
        None => None,
    }
}

/// The section of `expected` bytes that a zlib stream stands for, or `None`
/// where the stream is refused or holds another number of bytes.
pub open spec fn decompressed(c: Seq<u8>, expected: int) -> Option<Seq<u8>> {
    inflated_section(zlib_inflated(c, expected), expected)
}

/// Whether the decompressor gives `data` back from the stream that the
/// compressor writes for it. This is what a zlib implementation is for, but
/// nothing here proves it of the one in use.
pub open spec fn restores(data: Seq<u8>) -> bool {
    decompressed(compressed(data), data.len() as int) == Some(data)
}

/// Compresses a section.
pub fn compress_bytes(data: &[u8]) -> (out: Vec<u8>)
    ensures
        out@ == compressed(data@),
{
    let filtered = filter_bytes(data);
    zlib_deflate(filtered.as_slice(), ZLIB_LEVEL)
}

/// Turns the contents of a zlib stream into the section of `expected` bytes
/// that they stand for.
pub fn section_of_inflated(inflated: Option<Vec<u8>>, expected: usize) -> (out: Option<Vec<u8>>)
    ensures
        bytes_of(out) == inflated_section(bytes_of(inflated), expected as int),
{
    match inflated {
        Some(bytes) => if bytes.len() == expected {
            Some(unfilter_bytes(bytes.as_slice()))
        } else {
            None
        },
        None => None,
    }
}

/// Decompresses a section of `expected` bytes.
pub fn decompress_bytes(compressed: &[u8], expected: usize) -> (out: Option<Vec<u8>>)
    ensures
        bytes_of(out) == decompressed(compressed@, expected as int),
{
    section_of_inflated(zlib_inflate(compressed, expected), expected)
}

/// Whether two runs of bytes are the same.
fn same_bytes(a: &[u8], b: &[u8]) -> (same: bool)
    ensures
        same == (a@ == b@),
{
    if a.len() != b.len() {
        return false;
    }
    let mut i: usize = 0;
    while i < a.len()
        invariant
            i <= a.len(),
            a@.len() == b@.len(),
            forall|j: int| 0 <= j < i ==> a@[j] == b@[j],
        decreases a.len() - i,
    {
        if a[i] != b[i] {
            return false;
        }
        i = i + 1;
    }
    assert(a@ =~= b@);
    true
}

/// Tries whether the decompressor gives `data` back from the stream that the
/// compressor writes for it: compresses, decompresses and compares.
pub fn zlib_restores(data: &[u8]) -> (ok: bool)
    ensures
        ok == restores(data@),
{
    let stream = compress_bytes(data);
    match decompress_bytes(stream.as_slice(), data.len()) {
        Some(read) => same_bytes(read.as_slice(), data),
        None => false,
    }
}

} // verus!
