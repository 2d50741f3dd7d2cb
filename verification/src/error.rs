use vstd::prelude::*;

verus! {

/// Errors that `encode` and `decode` report.
#[derive(Debug, Clone, Copy, PartialEq, Eq, Structural)]
pub enum Error {
    /// A byte outside the standard base64 alphabet, with its position in the input.
    InvalidByte(usize, u8),
    /// The input length is not a multiple of 4.
    InvalidLength,
    /// `=` misplaced, or more than two of them at the end, or nonzero bits left
    /// over in the last character of a padded group.
    InvalidPadding,
    /// The output buffer is too small for the result.
    BufferTooSmall,
}

} // verus!
