//! What an image header says about the channels of a block.

pub mod attribute;
