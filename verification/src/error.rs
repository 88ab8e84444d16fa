//! The error kinds shared by the decoder and the encoder.

use vstd::prelude::*;

verus! {

/// Why a decode or encode call failed.
///
/// `UnexpectedEOF` reports that the byte source ran out in the middle of a
/// value.  `InvalidSize` reports a declared count or length that disagrees
/// with the actual framing: a string length that exceeds the remaining
/// bytes, an `ECMAArray` whose declared entry count does not match the
/// entries found before the terminator, or a terminator byte other than the
/// object-end marker after an empty entry key.  `SyntaxError` reports a
/// marker byte with no decodable layout, or bytes that are not valid UTF-8
/// where a string is required.
#[derive(Clone, Copy, Debug, PartialEq, Eq, Structural)]
pub enum Error {
    UnexpectedEOF,
    SyntaxError,
    InvalidSize,
}

impl Error {
    /// A short human-readable name for the error kind.
    pub fn describe(&self) -> (r: &'static str)
        ensures
            self is UnexpectedEOF ==> r@ == "unexpected end of input"@,
            self is SyntaxError ==> r@ == "syntax error"@,
            self is InvalidSize ==> r@ == "invalid size"@,
    {
        match self {
            Error::UnexpectedEOF => "unexpected end of input",
            Error::SyntaxError => "syntax error",
            Error::InvalidSize => "invalid size",
        }
    }
}

} // verus!
