//! Diagnostics shared by the parser, the encoders and the decoders.
use vstd::prelude::*;

verus! {

/// The closed set of failures reported by the parser, the encoders and the
/// decoders.
#[derive(Debug, Clone, PartialEq)]
pub enum Error {
    /// A textual-carrier failure, reserved for callers' adapters.
    Io(String),
    /// The input ended before a value was complete.
    Eof,
    /// A malformed token or structure, at a character position.
    Syntax { position: usize, message: String },
    /// A specific token class was expected, and another one was found.
    ExpectedFound { expected: String, found: String, position: usize },
    /// A required key is absent.
    MissingField(String),
    /// A key that a strict decoder does not accept.
    UnknownField(String),
    /// The shape or range of a value does not fit the carrier.
    TypeError(String),
    /// A caller-supplied message.
    Custom(String),
}

impl Error {
    /// A custom error with the given message.
    pub fn custom(msg: &str) -> (r: Error)
        ensures
            r matches Error::Custom(m) && m@ == msg@,
    {
        Error::Custom(msg.to_string())
    }

    /// A syntax error at `position`.
    pub fn syntax(position: usize, msg: &str) -> (r: Error)
        ensures
            r matches Error::Syntax { position: p, message: m } && p == position && m@ == msg@,
    {
        Error::Syntax { position, message: msg.to_string() }
    }

    /// An "expected this, found that" error at `position`.
    pub fn expected_found(expected: &str, found: &str, position: usize) -> (r: Error)
        ensures
            r matches Error::ExpectedFound { expected: e, found: f, position: p } && e@
                == expected@ && f@ == found@ && p == position,
    {
        Error::ExpectedFound {
            expected: expected.to_string(),
            found: found.to_string(),
            position,
        }
    }
}

} // verus!
