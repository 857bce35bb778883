//! Codec for the deep pixel blocks of OpenEXR images.
//!
//! A deep pixel holds any number of samples, and each sample holds one value
//! per channel. In a file a block is a pair of compressed sections: a table
//! of sample counts, which starts again at every scan line, and a stream of
//! little-endian sample values. In memory it is a
//! [`image::deep::DeepSamples`]: one table of offsets that runs through the
//! whole block, and one typed array per channel.
//!
//! - [`block::table`] converts between the two tables.
//! - [`block::stream`] defines the layout of the sample stream.
//! - [`block::deep`] packs and unpacks the stream, and compresses and
//!   decompresses whole blocks.
//! - [`compression`] holds the compression methods.
//!
//! Every function states what it returns and when it fails. That a block
//! that was compressed decompresses to the same block, bit for bit, is proved
//! for blocks that are stored as they are or run-length encoded. For blocks
//! that are stored with zlib it is proved from one assumption: that the zlib
//! decompressor restores what the zlib compressor wrote.

pub mod block;
pub mod compression;
pub mod error;
pub mod image;
pub mod le;
pub mod meta;
