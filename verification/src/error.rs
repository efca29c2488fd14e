//! The ways decimal text can fail to denote a `BigFixed`.
use vstd::prelude::*;

verus! {

/// Why a text is not a decimal number of the expected scale.
#[derive(Clone, Debug, PartialEq, Eq, Structural)]
pub enum ParseBigFixedError {
    /// Nothing but white space.
    Empty,
    /// A sign with no digits, no digits around the point, or more than one point.
    InvalidFormat,
    /// The first character, in the digits around the point, that is not an ASCII digit.
    InvalidCharacter(char),
    /// More fractional digits than the scale has; `found` counts the bytes after the point.
    FractionalDigitsExceedScale { found: usize, scale: u32 },
}

} // verus!
