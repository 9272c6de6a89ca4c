//! The error taxonomy shared by the parser and the schema layer.  Every
//! error carries the position it was found at.

use vstd::prelude::*;

use crate::token::{Pos, ScanError};

verus! {

/// An error from scanning, parsing, or schema projection.
#[derive(Debug)]
pub enum Error {
    /// Schema projection: a key outside the recognized set that cannot be
    /// tolerated.
    UnknownKey { key: String, position: Pos },
    /// Schema projection: a referenced file group was never declared.
    UnknownFileGroup { name: String, position: Pos },
    /// Schema projection: a required field is absent.
    MissingKey { key: String, position: Pos },
    /// A path traversed a node of the wrong shape, or a value had one.
    IncorrectType { got: &'static str, expected: &'static str, position: Pos },
    /// A structural parse failure: unexpected token, missing separator, or
    /// the recursion limit.
    ParseError { reason: String, position: Pos },
    /// A lexical failure, surfaced from an error token.
    Scan { error: ScanError, position: Pos },
}

impl Error {
    /// The position the error was found at.
    pub fn position(&self) -> (r: Pos)
        ensures
            r == spec_position(*self),
    {
        match self {
            Error::UnknownKey { position, .. } => *position,
            Error::UnknownFileGroup { position, .. } => *position,
            Error::MissingKey { position, .. } => *position,
            Error::IncorrectType { position, .. } => *position,
            Error::ParseError { position, .. } => *position,
            Error::Scan { position, .. } => *position,
        }
    }

    /// Whether this is a lexical error.
    pub fn is_scan(&self) -> (r: bool)
        ensures
            r == (self is Scan),
    {
        matches!(self, Error::Scan { .. })
    }
}

/// The position carried by an error.
pub open spec fn spec_position(e: Error) -> Pos {
    match e {
        Error::UnknownKey { position, .. } => position,
        Error::UnknownFileGroup { position, .. } => position,
        Error::MissingKey { position, .. } => position,
        Error::IncorrectType { position, .. } => position,
        Error::ParseError { position, .. } => position,
        Error::Scan { position, .. } => position,
    }
}

/// The mathematical image of an error: texts as character sequences.
pub enum ErrM {
    UnknownKey { key: Seq<char>, position: Pos },
    UnknownFileGroup { name: Seq<char>, position: Pos },
    MissingKey { key: Seq<char>, position: Pos },
    IncorrectType { got: Seq<char>, expected: Seq<char>, position: Pos },
    ParseError { reason: Seq<char>, position: Pos },
    Scan { error: ScanError, position: Pos },
}

/// The image of a concrete error.
pub open spec fn err_view(e: Error) -> ErrM {
    match e {
        Error::UnknownKey { key, position } => ErrM::UnknownKey { key: key@, position },
        Error::UnknownFileGroup { name, position } => ErrM::UnknownFileGroup {
            name: name@,
            position,
        },
        Error::MissingKey { key, position } => ErrM::MissingKey { key: key@, position },
        Error::IncorrectType { got, expected, position } => ErrM::IncorrectType {
            got: got@,
            expected: expected@,
            position,
        },
        Error::ParseError { reason, position } => ErrM::ParseError { reason: reason@, position },
        Error::Scan { error, position } => ErrM::Scan { error, position },
    }
}

/// The position carried by an error image.
pub open spec fn err_m_pos(m: ErrM) -> Pos {
    match m {
        ErrM::UnknownKey { position, .. } => position,
        ErrM::UnknownFileGroup { position, .. } => position,
        ErrM::MissingKey { position, .. } => position,
        ErrM::IncorrectType { position, .. } => position,
        ErrM::ParseError { position, .. } => position,
        ErrM::Scan { position, .. } => position,
    }
}

} // verus!
