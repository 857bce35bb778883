//! Deep blocks as they stand in a file: two compressed sections and the
//! place of the block in the image.

use vstd::prelude::*;

verus! {

/// A block of deep scan lines as it stands in a file.
#[derive(Clone, Debug, PartialEq, Eq)]
pub struct CompressedDeepScanLineBlock {
    /// The first scan line of the block.
    pub y_coordinate: i32,
    /// The number of bytes of the sample stream once it is decompressed.
    pub decompressed_sample_data_size: usize,
    /// The compressed table of sample counts.
    pub compressed_pixel_offset_table: Vec<u8>,
    /// The compressed sample stream.
    pub compressed_sample_data_le: Vec<u8>,
}

/// The place of a tile in an image: its column and row among the tiles, and
/// the resolution level that it belongs to.
#[derive(Clone, Copy, Debug, PartialEq, Eq, Structural)]
pub struct TileCoordinates {
    pub tile_x: usize,
    pub tile_y: usize,
    pub level_x: usize,
    pub level_y: usize,
}

/// A deep tile as it stands in a file.
#[derive(Clone, Debug, PartialEq, Eq)]
pub struct CompressedDeepTileBlock {
    /// The place of the tile in the image.
    pub coordinates: TileCoordinates,
    /// The number of bytes of the sample stream once it is decompressed.
    pub decompressed_sample_data_size: usize,
    /// The compressed table of sample counts.
    pub compressed_pixel_offset_table: Vec<u8>,
    /// The compressed sample stream.
    pub compressed_sample_data_le: Vec<u8>,
}

} // verus!
