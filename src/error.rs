//! The error taxonomy of request handling.
use vstd::prelude::*;

verus! {

/// Why reading from a connection failed.
#[derive(Clone, Copy, Debug, PartialEq, Eq)]
pub enum TransportFault {
    /// More consecutive reads than the retry ceiling allows brought no data
    /// ("resource temporarily unavailable").
    RetriesExhausted,
}

/// Which rule of the wire format a request broke.
#[derive(Clone, Copy, Debug, PartialEq, Eq)]
pub enum ParseFault {
    /// The request line is not three space-separated tokens.
    MalformedRequestLine,
    /// The method token is neither `GET` nor `POST`.
    UnsupportedMethod,
    /// An upload body does not begin with `--<boundary>\r\n`.
    MissingFirstSeparator,
    /// A part's header block has no `Content-Disposition` field.
    MissingContentDisposition,
    /// A part's `Content-Disposition` names no non-empty `filename`.
    MissingFilename,
}

/// A failure that ends the handling of one request.
#[derive(Debug, PartialEq, Eq)]
pub enum ServerError {
    /// The connection could not be read.
    TransportError(TransportFault),
    /// Text that had to be UTF-8 was not.
    ConvertError,
    /// A `Content-Length` value is not a decimal number that fits a `usize`.
    ParseIntError,
    /// The request is malformed; the bytes name the offending text, where
    /// there is one.
    HTTPParseError(ParseFault, Vec<u8>),
}

} // verus!
