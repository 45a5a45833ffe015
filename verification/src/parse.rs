//! Errors of ontology parsing.
use vstd::prelude::*;
use crate::text::{push_str, string_from};

verus! {

/// Failure to parse an ontology document; an I/O failure carries the system's message.
#[derive(Debug, Clone, PartialEq, Eq)]
pub enum ParseError {
    Io(String),
    Rdf(String),
    UnsupportedFormat(String),
    LimitExceeded(String),
    InvalidUtf8(String),
}

/// Heading and detail of the displayed message of `e`.
pub open spec fn parse_error_parts(e: ParseError) -> (Seq<char>, Seq<char>) {
    match e {
        ParseError::Io(s) => ("IO error: "@, s@),
        ParseError::Rdf(s) => ("RDF parse error: "@, s@),
        ParseError::UnsupportedFormat(s) => ("unsupported format: "@, s@),
        ParseError::LimitExceeded(s) => ("limit exceeded: "@, s@),
        ParseError::InvalidUtf8(s) => ("invalid UTF-8: "@, s@),
    }
}

impl ParseError {
    /// The displayed message: the heading of the kind, then the detail.
    pub fn message(&self) -> (r: String)
        ensures
            r@ == parse_error_parts(*self).0 + parse_error_parts(*self).1,
    {
        let mut out: Vec<char> = Vec::new();
        match self {
            ParseError::Io(s) => {
                push_str(&mut out, "IO error: ");
                push_str(&mut out, s.as_str());
            },
            ParseError::Rdf(s) => {
                push_str(&mut out, "RDF parse error: ");
                push_str(&mut out, s.as_str());
            },
            ParseError::UnsupportedFormat(s) => {
                push_str(&mut out, "unsupported format: ");
                push_str(&mut out, s.as_str());
            },
            ParseError::LimitExceeded(s) => {
                push_str(&mut out, "limit exceeded: ");
                push_str(&mut out, s.as_str());
            },
            ParseError::InvalidUtf8(s) => {
                push_str(&mut out, "invalid UTF-8: ");
                push_str(&mut out, s.as_str());
            },
        }
        string_from(out.as_slice())
    }
}

} // verus!
