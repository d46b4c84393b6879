//! States of the incremental request-detection machine.

use vstd::prelude::*;

verus! {

/// Result of the request-parsing machine.
#[derive(Debug, Clone, Copy, PartialEq, Eq, Structural)]
pub enum GotRequest {
    /// No complete request yet — need more data.
    NoRequest,
    /// A complete request has been parsed.
    GotRequest,
    /// The request is malformed.
    BadRequest,
}

/// States of the incremental request parser (`CHST_FIRSTWORD` ... `CHST_BOGUS`).
#[derive(Debug, Clone, Copy, PartialEq, Eq, Structural)]
pub enum ParseState {
    /// Parsing the first word of the request line (method).
    FirstWord,
    /// In whitespace between first and second word.
    FirstWs,
    /// Parsing the second word (URI).
    SecondWord,
    /// In whitespace between second and third word.
    SecondWs,
    /// Parsing the third word (HTTP version).
    ThirdWord,
    /// After third word, expecting CRLF.
    ThirdWs,
    /// At a line feed character.
    Lf,
    /// At a carriage return.
    Cr,
    /// After CR, expecting LF.
    Crlf,
    /// After CRLF, expecting CR of blank line (end of headers).
    Crlfcr,
    /// Inside a header line.
    Line,
    /// Complete request received.
    GotRequest,
    /// Malformed request detected.
    Bogus,
}

impl ParseState {
    /// Initial state.
    pub fn initial() -> (s: Self)
        ensures
            s == ParseState::FirstWord,
    {
        ParseState::FirstWord
    }

    /// Is this a terminal state (request complete or malformed)?
    pub fn is_terminal(&self) -> (r: bool)
        ensures
            r == (*self == ParseState::GotRequest || *self == ParseState::Bogus),
    {
        match self {
            ParseState::GotRequest | ParseState::Bogus => true,
            _ => false,
        }
    }
}

} // verus!
