//! HTTP/1.1 request parsing and response emission over raw byte
//! streams, and the coordination state of the server loop around them.
//!
//! The core is an incremental request parser: a strictly forward-moving
//! state machine (request line, then headers, then body) driven over a
//! byte buffer that the caller refills as input arrives. Its behavior
//! is specified against a mathematical machine over byte sequences, and
//! the machine composes over buffer boundaries: feeding a request's
//! bytes in any chunking reaches the same parse as feeding them whole.
//! The response side serializes status line, headers and body, and
//! frames chunked bodies with digest trailers.

pub mod scan;
pub mod error;
pub mod method;
pub mod version;
pub mod status;
pub mod headers;
pub mod request;
pub mod reader;
pub mod response;
pub mod chunked;
pub mod serve;

pub use error::{HTTPParsingError, ServerError};
pub use headers::Headers;
pub use request::{ParserState, Request, RequestLine};
pub use reader::PollBytes;
pub use response::{IntoResponse, Parts, Response};
pub use chunked::{Frame, Route};
pub use serve::Serve;
pub use method::Method;
pub use version::Version;
pub use status::StatusCode;
