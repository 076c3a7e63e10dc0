use vstd::prelude::*;

verus! {

/// The one family of scanning failures: every condition aborts the current
/// parse, and the caller decides what to surface.
#[derive(Debug, Clone, Copy, PartialEq, Eq, Structural)]
pub enum ParseError {
    /// A close bracket with no frame left open beyond the implicit one.
    UnmatchedClose,
    /// `]` closing a map frame or `}` closing an array frame.
    MismatchedClose,
    /// The stream ended inside a quoted string.
    UnterminatedString,
    /// A hex escape cut short by the end of the stream, or not two hex digits.
    BadHexEscape,
    /// A map frame holding an odd number of elements.
    MapOddLength,
    /// A map pair whose key position is not a string.
    MapKeyNotString,
    /// The final value was requested while brackets were still open, or was
    /// already taken.
    UnclosedFrame,
}

impl ParseError {
    /// A short description of the failure.
    pub fn describe(&self) -> (r: &'static str)
        ensures
            r@.len() > 0,
    {
        let s = match self {
            ParseError::UnmatchedClose => "close bracket without open",
            ParseError::MismatchedClose => "close bracket of the wrong kind",
            ParseError::UnterminatedString => "unterminated quoted string",
            ParseError::BadHexEscape => "invalid hex escape",
            ParseError::MapOddLength => "map with an odd number of elements",
            ParseError::MapKeyNotString => "map key is not a string",
            ParseError::UnclosedFrame => "input is not a single balanced value",
        };
        proof {
            reveal_strlit("close bracket without open");
            reveal_strlit("close bracket of the wrong kind");
            reveal_strlit("unterminated quoted string");
            reveal_strlit("invalid hex escape");
            reveal_strlit("map with an odd number of elements");
            reveal_strlit("map key is not a string");
            reveal_strlit("input is not a single balanced value");
        }
        s
    }
}

} // verus!
