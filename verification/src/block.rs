//! Deep blocks: their offset tables, their compressed records, and the codec
//! that turns one into the other.

pub mod chunk;
pub mod deep;
pub mod stream;
pub mod table;
