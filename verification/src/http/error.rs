//! The ways in which reading a request can fail.

use vstd::prelude::*;

verus! {

/// Why a byte stream could not be read as a request.
#[derive(PartialEq, Eq, Structural, Debug, Clone, Copy)]
pub enum ParseError {
    /// The first line does not have its three fields, is not text, or holds
    /// a query pair without an equals sign.
    MalformedRequestLine,
    /// A header line has no colon or is not text.
    MalformedHeader,
    /// A content type was given without a content length.
    MissingContentLength,
    /// The content length is not a number that can be used.
    InvalidContentLength,
    /// The stream ends before the body is complete.
    TruncatedBody,
    /// The bytes of the body are not text in UTF-8.
    MalformedBody,
}

} // verus!
