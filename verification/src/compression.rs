//! The compression methods of the file format, and the three that deep data
//! can be stored with: no compression, run-length encoding, and zlib on
//! single scan lines.
//!
//! A section that compression would not make shorter is stored as it is, so
//! a section as long as its contents always stands for itself.

pub mod deep;
pub mod filter;
pub mod rle;
pub mod zip;

use crate::error::Error;
use vstd::prelude::*;

verus! {

/// How the sections of a block are compressed.
#[derive(Clone, Copy, Debug, PartialEq, Eq, Structural)]
pub enum Compression {
    Uncompressed,
    RLE,
    ZIPS,
    ZIP,
    PIZ,
    PXR24,
    B44,
    B44A,
    DWAA,
    DWAB,
}

impl Compression {
    /// Whether deep data can be stored with this method.
    pub open spec fn is_deep(self) -> bool {
        self == Compression::Uncompressed || self == Compression::RLE || self
            == Compression::ZIPS
    }

    /// Tries whether this method gives `data` back: nothing to try for the
    /// methods of which it is proved, a round trip for zlib.
    pub fn restores(&self, data: &[u8]) -> (ok: bool)
        ensures
            ok == method_restores(*self, data@),
    {
        match self {
            Compression::ZIPS => zip::zlib_restores(data),
            _ => true,
        }
    }

    /// Whether deep data can be stored with this method.
    pub fn supports_deep_data(&self) -> (supported: bool)
        ensures
            supported == self.is_deep(),
    {
        match self {
            Compression::Uncompressed => true,
            Compression::RLE => true,
            Compression::ZIPS => true,
            _ => false,
        }
    }
}

/// The `expected` bytes that a compressed section stands for, or `None` where
/// it stands for no such bytes.
pub open spec fn section_decompressed(
    compression: Compression,
    compressed: Seq<u8>,
    expected: int,
    pedantic: bool,
) -> Option<Seq<u8>> {
    if compressed.len() == expected {
        Some(compressed)
    } else if compression == Compression::RLE {
        rle::decompressed(compressed, expected, pedantic)
    } else if compression == Compression::ZIPS {
        zip::decompressed(compressed, expected)
    } else {
        None
    }
}

/// What is stored for a section: its compressed form where that is shorter,
/// else the section itself.
pub open spec fn stored(compressed: Seq<u8>, data: Seq<u8>) -> Seq<u8> {
    if compressed.len() < data.len() {
        compressed
    } else {
        data
    }
}

/// What a method writes for a section.
pub open spec fn section_compressed(compression: Compression, data: Seq<u8>) -> Seq<u8> {
    if compression == Compression::RLE {
        stored(rle::compressed(data), data)
    } else if compression == Compression::ZIPS {
        stored(zip::compressed(data), data)
    } else {
        data
    }
}

/// Whether the method can be relied on to give `data` back. Of run-length
/// encoding and of no compression this is proved. Of zlib it is as true as
/// it is of the zlib implementation in use; [`Compression::restores`] tries
/// it for given data.
pub open spec fn method_restores(compression: Compression, data: Seq<u8>) -> bool {
    compression == Compression::ZIPS ==> zip::restores(data)
}

/// What a method writes for a section is no longer than the section, and
/// decompressing it gives the section back, in either mode, as far as the
/// method can be relied on.
pub proof fn lemma_section_restores(compression: Compression, data: Seq<u8>, pedantic: bool)
    requires
        method_restores(compression, data),
    ensures
        section_compressed(compression, data).len() <= data.len(),
        section_decompressed(
            compression,
            section_compressed(compression, data),
            data.len() as int,
            pedantic,
        ) == Some(data),
{
    rle::lemma_decompressed_compressed(data, pedantic);
}

/// Picks what is stored for a section: its compressed form where that is
/// shorter, else the section itself.
pub fn store_section(compressed: Vec<u8>, data: &[u8]) -> (out: Vec<u8>)
    ensures
        out@ == stored(compressed@, data@),
{
    if compressed.len() < data.len() {
        compressed
    } else {
        vstd::slice::slice_to_vec(data)
    }
}

/// Compresses a section. A method that cannot hold deep data is refused as
/// unsupported.
pub fn compress_section(compression: Compression, data: &[u8]) -> (result: Result<Vec<u8>, Error>)
    ensures
        result is Ok <==> compression.is_deep(),
        result is Err ==> result->Err_0 == Error::Unsupported,
        result is Ok ==> result->Ok_0@ == section_compressed(compression, data@),
{
    match compression {
        Compression::Uncompressed => Ok(vstd::slice::slice_to_vec(data)),
        Compression::RLE => Ok(store_section(rle::compress_bytes(data), data)),
        Compression::ZIPS => Ok(store_section(zip::compress_bytes(data), data)),
        _ => Err(Error::Unsupported),
    }
}

/// Decompresses a section of `expected` bytes.
///
/// A method that cannot hold deep data is refused as unsupported, and a
/// section that does not stand for `expected` bytes as malformed.
pub fn decompress_section(
    compression: Compression,
    compressed: &[u8],
    expected: usize,
    pedantic: bool,
) -> (result: Result<Vec<u8>, Error>)
    ensures
        !compression.is_deep() ==> result == Err::<Vec<u8>, Error>(Error::Unsupported),
        compression.is_deep() ==> match section_decompressed(
            compression,
            compressed@,
            expected as int,
            pedantic,
        ) {
            Some(data) => result is Ok && result->Ok_0@ == data,
            None => result == Err::<Vec<u8>, Error>(Error::Malformed),
        },
{
    if !compression.supports_deep_data() {
        return Err(Error::Unsupported);
    }
    if compressed.len() == expected {
        return Ok(vstd::slice::slice_to_vec(compressed));
    }
    match compression {
        Compression::RLE => match rle::decompress_bytes(compressed, expected, pedantic) {
            Some(data) => Ok(data),
            None => Err(Error::Malformed),
        },
        Compression::ZIPS => match zip::decompress_bytes(compressed, expected) {
            Some(data) => Ok(data),
            None => Err(Error::Malformed),
        },
        _ => Err(Error::Malformed),
    }
}

} // verus!
