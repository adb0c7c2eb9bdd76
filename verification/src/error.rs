//! Error values shared by the parsing core and the stanza-level parsers.

use vstd::prelude::*;

verus! {

/// Returned by the tokenizer when the buffered bytes cannot form a valid
/// token under any continuation.  The tokenizer instance should be discarded
/// after seeing one.
#[derive(Clone, Copy, PartialEq, Eq, Structural, Debug)]
pub struct ParseError;

/// The crate-wide error type.
#[derive(Debug)]
pub enum Error {
    /// A stanza-level element did not have the expected shape.  The payload
    /// is a constant, human-readable description.
    ParseError(String),
    /// The tokenizer rejected the byte stream.
    XmlError(ParseError),
    /// An element carried a prefix that is not declared in any enclosing
    /// scope.
    MissingNamespace,
    /// An end tag did not match the name of the innermost open element.
    InvalidElementClosed,
    /// An attribute that should hold a Jabber ID did not parse as one.
    JidParseError,
}

impl Error {
    /// A short description of the error, usable where the error is shown to
    /// a person.
    pub fn message(&self) -> (r: String)
        ensures
            match self {
                Error::ParseError(s) => r@ == s@,
                _ => true,
            },
    {
        match self {
            Error::ParseError(s) => s.clone(),
            Error::XmlError(_) => "XML parse error".to_owned(),
            Error::MissingNamespace => "missing namespace".to_owned(),
            Error::JidParseError => "JID parse error".to_owned(),
            Error::InvalidElementClosed => "invalid element closed".to_owned(),
        }
    }
}

} // verus!
