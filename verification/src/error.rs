//! The ways in which the codec can refuse its input.

use vstd::prelude::*;

verus! {

/// Why an operation of the codec failed.
#[derive(Clone, Copy, Debug, PartialEq, Eq, Structural)]
pub enum Error {
    /// The offset table or the sample stream breaks a structural rule:
    /// wrong length, negative or decreasing counts.
    Malformed,
    /// A computed quantity does not fit the integer type that must hold it.
    Overflow,
    /// The decompressed sample bytes do not have the size the block calls for.
    SizeMismatch,
    /// The compression method cannot be applied to deep data.
    Unsupported,
    /// A value built by the caller breaks an invariant of its type.
    InternalConsistency,
}

} // verus!
