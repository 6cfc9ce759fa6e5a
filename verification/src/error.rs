//! The ways in which an operation on the buffer is refused.

use vstd::prelude::*;

verus! {

#[derive(Clone, Copy, Debug, PartialEq, Eq, Structural)]
pub enum RopeError {
    /// An offset lies beyond the end of the buffer, or a range ends before
    /// it starts.
    OutOfBounds,
    /// The replacement text is longer than what is left of the buffer from
    /// the offset on.
    WidthMismatch,
    /// The bytes are not UTF-8.
    InvalidUtf8,
}

} // verus!
