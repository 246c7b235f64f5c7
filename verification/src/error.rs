//! The errors that end a parse.

use vstd::prelude::*;
use crate::reader::Bom;

verus! {

/// A failure of the byte source, as std reports it. Nothing is known of its
/// contents here; it is only carried to the caller.
#[verifier::external_type_specification]
#[verifier::external_body]
pub struct ExIoError(std::io::Error);

/// Why a document could not be parsed.
#[derive(Debug)]
pub enum ParseError {
    /// The byte source failed.
    IO(std::io::Error),
    /// The document is not of the expected structure; the text says why.
    Runtime(String),
    /// The document begins with a byte-order mark other than that of UTF-8.
    Encoding(Bom),
}

/// The mathematical value of a [`ParseError`].
pub enum Failure {
    Io,
    Runtime(Seq<char>),
    Encoding(Bom),
}

impl View for ParseError {
    type V = Failure;

    open spec fn view(&self) -> Failure {
        match *self {
            ParseError::IO(_) => Failure::Io,
            ParseError::Runtime(text) => Failure::Runtime(text@),
            ParseError::Encoding(bom) => Failure::Encoding(bom),
        }
    }
}

impl ParseError {
    /// The message of a structural failure, if this is one.
    pub open spec fn message(self) -> Option<Seq<char>> {
        match self {
            ParseError::Runtime(text) => Some(text@),
            _ => None,
        }
    }
}

impl From<std::io::Error> for ParseError {
    fn from(o: std::io::Error) -> (e: ParseError) {
        ParseError::IO(o)
    }
}

impl vstd::std_specs::convert::FromSpecImpl<std::io::Error> for ParseError {
    open spec fn obeys_from_spec() -> bool {
        true
    }

    open spec fn from_spec(o: std::io::Error) -> ParseError {
        ParseError::IO(o)
    }
}

} // verus!
