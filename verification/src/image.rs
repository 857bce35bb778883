//! Images as they are held in memory.

pub mod deep;
