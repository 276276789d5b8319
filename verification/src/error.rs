//! The error taxonomy of the parser.

use vstd::prelude::*;

verus! {

/// Every way a parse can fail.
///
/// - `DecodingError`: bytes that should have been text were not valid UTF-8.
/// - `ConnectionAborted`: the stream ended before the parser found what the
///   request framing still owed it (a line terminator, or body bytes).
/// - `UnsupportedMethod`: the first token of the request line is not one of
///   the four supported method names.
/// - `MalformedRequestLine`: the request line holds fewer than two tokens.
/// - `MalformedHeaderLine`: a header line lacks the `": "` separator, or the
///   `Content-Length` value is not a number the machine can hold.
#[derive(Debug, Clone, Copy, PartialEq, Eq, Structural)]
pub enum HttpError {
    DecodingError,
    ConnectionAborted,
    UnsupportedMethod,
    MalformedRequestLine,
    MalformedHeaderLine,
}

impl HttpError {
    /// A short human-readable account of the error, one distinct text per
    /// variant.
    pub fn describe(&self) -> (r: &'static str)
        ensures
            r@ == match *self {
                HttpError::DecodingError => "line is not valid text"@,
                HttpError::ConnectionAborted => "client aborted early"@,
                HttpError::UnsupportedMethod => "unsupported HTTP method"@,
                HttpError::MalformedRequestLine => "malformed request line"@,
                HttpError::MalformedHeaderLine => "malformed header line"@,
            },
    {
        match *self {
            HttpError::DecodingError => "line is not valid text",
            HttpError::ConnectionAborted => "client aborted early",
            HttpError::UnsupportedMethod => "unsupported HTTP method",
            HttpError::MalformedRequestLine => "malformed request line",
            HttpError::MalformedHeaderLine => "malformed header line",
        }
    }
}

} // verus!
