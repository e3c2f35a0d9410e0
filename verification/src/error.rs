use vstd::prelude::*;

verus! {

/// Reasons a request fails to parse.
///
/// Every variant is terminal for the request being parsed: once the parser
/// reports one of these, it answers every further call with `Parser`.
#[derive(Clone, Copy, Debug, PartialEq, Eq, Structural)]
pub enum HTTPParsingError {
    /// The request line is malformed (wrong token count, empty target,
    /// lowercase method bytes, malformed version token).
    BadRequestLine,
    /// The version token is well-formed but names a version other than 1.1.
    UnsupportedHTTPVersion,
    /// Input ended before a complete request line arrived.
    RequestLineNotFound,
    /// A header line has no colon, a name with trailing whitespace, or a
    /// value that is not UTF-8; or input ended inside the header section.
    BadFieldLine,
    /// A header name holds a byte outside the HTTP token alphabet.
    BadToken,
    /// The body ended short of its declared `Content-Length`.
    BadBody,
    /// A status code was not three decimal digits with a nonzero lead.
    BadStatusCode,
    /// The method token is none of GET, POST, PUT, PATCH, DELETE.
    BadMethod,
    /// The parser was called again after it already reported an error.
    Parser,
    /// The byte source failed.
    IOError,
    /// The `Content-Length` value is not a decimal number that fits.
    IntError,
    /// The completed body is not valid UTF-8.
    UtfError,
}

/// Errors at the connection level: routing outcomes and transport failures.
#[derive(Clone, Copy, Debug, PartialEq, Eq, Structural)]
pub enum ServerError {
    /// An internal failure while producing a response.
    Internal,
    /// The request was understood but unacceptable.
    BadRequest,
    /// The transport failed.
    IOError,
    /// The request never parsed.
    Parsing(HTTPParsingError),
}

} // verus!
