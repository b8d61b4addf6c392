//! Error types.

use vstd::prelude::*;

verus! {

/// `std::io::Error`, carried opaquely by [`ParseError::Io`]: nothing in this
/// library looks inside it.
#[verifier::external_type_specification]
#[verifier::external_body]
pub struct ExIoError(std::io::Error);

/// Errors raised by the parser.
#[derive(Debug)]
pub enum ParseError {
    /// I/O failure when reading from a file.
    Io(std::io::Error),
    /// Malformed line (missing `=`, empty key, ...).
    Syntax {
        /// 1-based line number.
        line: usize,
        /// What was wrong.
        message: String,
    },
    /// A key collides with an existing namespace or value
    /// (e.g. `log = x` followed by `log.file = y`).
    KeyConflict {
        /// 1-based line number.
        line: usize,
        /// Offending key segment.
        key: String,
    },
}

/// The model of a [`ParseError`].
pub enum ParseFault {
    Io,
    Syntax { line: nat, message: Seq<char> },
    KeyConflict { line: nat, key: Seq<char> },
}

impl ParseError {
    pub open spec fn view(&self) -> ParseFault {
        match self {
            ParseError::Io(_) => ParseFault::Io,
            ParseError::Syntax { line, message } => ParseFault::Syntax {
                line: *line as nat,
                message: message@,
            },
            ParseError::KeyConflict { line, key } => ParseFault::KeyConflict {
                line: *line as nat,
                key: key@,
            },
        }
    }
}

} // verus!
