//! Response construction and serialization: status line, header lines,
//! blank separator, then the body bytes.

use vstd::prelude::*;
use vstd::slice::slice_to_vec;

use crate::error::ServerError;
use crate::headers::{spec_replace_entries, spec_set_entries, Headers};
use crate::request::cl_key;
use crate::scan::{append_bytes, dec_of, is_token, lower, usize_to_dec};
use crate::status::StatusCode;
use crate::version::Version;

verus! {

/// The head of a response: status, version and headers.
pub struct Parts {
    pub status: StatusCode,
    pub version: Version,
    pub headers: Headers,
}

/// A response: head and body. Built once per request, write-only.
pub struct Response {
    pub head: Parts,
    pub body: Vec<u8>,
}

/// The status line emitted for each supported code; other codes have no
/// line and are an internal encoding error.
pub open spec fn spec_status_line(code: u16) -> Seq<u8> {
    if code == 200 {
        seq![72u8, 84u8, 84u8, 80u8, 47u8, 49u8, 46u8, 49u8, 32u8, 50u8, 48u8, 48u8, 32u8, 79u8, 75u8, 13u8, 10u8]
    } else if code == 400 {
        seq![72u8, 84u8, 84u8, 80u8, 47u8, 49u8, 46u8, 49u8, 32u8, 52u8, 48u8, 48u8, 32u8, 66u8, 97u8, 100u8, 32u8, 82u8, 101u8, 113u8, 117u8, 101u8, 115u8, 116u8, 13u8, 10u8]
    } else if code == 500 {
        seq![72u8, 84u8, 84u8, 80u8, 47u8, 49u8, 46u8, 49u8, 32u8, 53u8, 48u8, 48u8, 32u8, 73u8, 110u8, 116u8, 101u8, 114u8, 110u8, 97u8, 108u8, 32u8, 83u8, 101u8, 114u8, 118u8, 101u8, 114u8, 32u8, 69u8, 114u8, 114u8, 111u8, 114u8, 13u8, 10u8]
    } else {
        Seq::empty()
    }
}

/// One header line: `name: value` and CRLF.
pub open spec fn spec_header_line(nv: (Seq<u8>, Seq<u8>)) -> Seq<u8> {
    nv.0 + seq![58u8, 32u8] + nv.1 + seq![13u8, 10u8]
}

/// All header lines, in storage order.
pub open spec fn spec_header_lines(entries: Seq<(Seq<u8>, Seq<u8>)>) -> Seq<u8>
    decreases entries.len(),
{
    if entries.len() == 0 {
        Seq::empty()
    } else {
        spec_header_lines(entries.take(entries.len() - 1)) + spec_header_line(
            entries[entries.len() - 1],
        )
    }
}

/// The header section: every line, then the blank line that ends it.
pub open spec fn spec_header_block(entries: Seq<(Seq<u8>, Seq<u8>)>) -> Seq<u8> {
    spec_header_lines(entries) + seq![13u8, 10u8]
}

impl StatusCode {
    /// Serialize the status line; only 200, 400 and 500 have one.
    pub fn encode(&self) -> (r: Result<Vec<u8>, ServerError>)
        ensures
            match r {
                Ok(v) => (self.code == 200 || self.code == 400 || self.code == 500) && v@
                    == spec_status_line(self.code),
                Err(e) => e == ServerError::Internal && !(self.code == 200 || self.code == 400
                    || self.code == 500),
            },
    {
        if self.code == 200 {
            let a: [u8; 17] = [72, 84, 84, 80, 47, 49, 46, 49, 32, 50, 48, 48, 32, 79, 75, 13, 10];
            let v = slice_to_vec(a.as_slice());
            proof {
                assert(v@ =~= spec_status_line(200));
            }
            Ok(v)
        } else if self.code == 400 {
            let a: [u8; 26] = [72, 84, 84, 80, 47, 49, 46, 49, 32, 52, 48, 48, 32, 66, 97, 100, 32, 82, 101, 113, 117, 101, 115, 116, 13, 10];
            let v = slice_to_vec(a.as_slice());
            proof {
                assert(v@ =~= spec_status_line(400));
            }
            Ok(v)
        } else if self.code == 500 {
            let a: [u8; 36] = [72, 84, 84, 80, 47, 49, 46, 49, 32, 53, 48, 48, 32, 73, 110, 116, 101, 114, 110, 97, 108, 32, 83, 101, 114, 118, 101, 114, 32, 69, 114, 114, 111, 114, 13, 10];
            let v = slice_to_vec(a.as_slice());
            proof {
                assert(v@ =~= spec_status_line(500));
            }
            Ok(v)
        } else {
            Err(ServerError::Internal)
        }
    }
}

impl Headers {
    /// Serialize the header section: each entry as `name: value` CRLF,
    /// then the blank line.
    #[verifier::loop_isolation(false)]
    pub fn encode(&self) -> (r: Vec<u8>)
        ensures
            r@ == spec_header_block(self@),
    {
        let mut acc: Vec<u8> = Vec::new();
        let n = self.headers.len();
        let mut i: usize = 0;
        proof {
            assert(self@.take(0) =~= Seq::<(Seq<u8>, Seq<u8>)>::empty());
        }
        while i < n
            invariant
                0 <= i <= n == self@.len(),
                acc@ == spec_header_lines(self@.take(i as int)),
            decreases n - i,
        {
            let sep: [u8; 2] = [58, 32];
            let crlf: [u8; 2] = [13, 10];
            let pair = &self.headers[i];
            append_bytes(&mut acc, pair.0.as_slice());
            append_bytes(&mut acc, sep.as_slice());
            append_bytes(&mut acc, pair.1.as_slice());
            append_bytes(&mut acc, crlf.as_slice());
            proof {
                assert(self@.take(i + 1).take(i as int) =~= self@.take(i as int));
                assert(self@.take(i + 1)[i as int] == self@[i as int]);
                assert(acc@ =~= spec_header_lines(self@.take(i + 1)));
            }
            i = i + 1;
        }
        let crlf: [u8; 2] = [13, 10];
        append_bytes(&mut acc, crlf.as_slice());
        proof {
            assert(self@.take(n as int) =~= self@);
            assert(acc@ =~= spec_header_block(self@));
        }
        acc
    }

    /// The stock headers of an error response: the content length, a
    /// closed connection, and a plain-text content type. Always
    /// succeeds.
    pub fn default_headers(content_length: u16) -> (r: Result<Headers, ServerError>)
        ensures
            r is Ok,
            match r {
                Ok(h) => h@ == spec_default_headers(content_length as int) && h.wf(),
                Err(_) => false,
            },
    {
        let mut h = Headers::new();
        let k1: [u8; 14] = [99, 111, 110, 116, 101, 110, 116, 45, 108, 101, 110, 103, 116, 104];
        let k2: [u8; 10] = [99, 111, 110, 110, 101, 99, 116, 105, 111, 110];
        let v2: [u8; 6] = [99, 108, 111, 115, 101, 100];
        let k3: [u8; 12] = [99, 111, 110, 116, 101, 110, 116, 45, 116, 121, 112, 101];
        let v3: [u8; 10] = [116, 101, 120, 116, 47, 112, 108, 97, 105, 110];
        proof {
            assert(lower(k1@) =~= cl_key());
            assert(is_token(cl_key()));
            assert(lower(k2@) =~= connection_key());
            assert(is_token(connection_key()));
            assert(lower(k3@) =~= content_type_key());
            assert(is_token(content_type_key()));
        }
        let cl = usize_to_dec(content_length as usize);
        match h.set(slice_to_vec(k1.as_slice()), cl) {
            Ok(()) => {},
            Err(_) => {
                proof {
                    assert(false);
                }
            },
        }
        proof {
            assert(h@ =~~= seq![(cl_key(), dec_of(content_length as int))]);
        }
        let ghost h1 = h@;
        match h.set(slice_to_vec(k2.as_slice()), slice_to_vec(v2.as_slice())) {
            Ok(()) => {},
            Err(_) => {
                proof {
                    assert(false);
                }
            },
        }
        proof {
            crate::headers::lemma_spec_find_char(h1, connection_key());
            assert(cl_key().len() != connection_key().len());
            assert(h@ =~~= seq![
                (cl_key(), dec_of(content_length as int)),
                (connection_key(), closed_val()),
            ]);
        }
        let ghost h2 = h@;
        match h.set(slice_to_vec(k3.as_slice()), slice_to_vec(v3.as_slice())) {
            Ok(()) => {},
            Err(_) => {
                proof {
                    assert(false);
                }
            },
        }
        proof {
            crate::headers::lemma_spec_find_char(h2, content_type_key());
            assert(cl_key().len() != content_type_key().len());
            assert(connection_key().len() != content_type_key().len());
            assert(h@ =~~= spec_default_headers(content_length as int));
        }
        Ok(h)
    }
}

/// The name `connection`, as stored.
pub open spec fn connection_key() -> Seq<u8> {
    seq![99u8, 111u8, 110u8, 110u8, 101u8, 99u8, 116u8, 105u8, 111u8, 110u8]
}

/// The value `closed`.
pub open spec fn closed_val() -> Seq<u8> {
    seq![99u8, 108u8, 111u8, 115u8, 101u8, 100u8]
}

/// The name `content-type`, as stored.
pub open spec fn content_type_key() -> Seq<u8> {
    seq![99u8, 111u8, 110u8, 116u8, 101u8, 110u8, 116u8, 45u8, 116u8, 121u8, 112u8, 101u8]
}

/// The value `text/plain`.
pub open spec fn text_plain_val() -> Seq<u8> {
    seq![116u8, 101u8, 120u8, 116u8, 47u8, 112u8, 108u8, 97u8, 105u8, 110u8]
}

/// The stock error-response headers, as entries.
pub open spec fn spec_default_headers(content_length: int) -> Seq<(Seq<u8>, Seq<u8>)> {
    seq![
        (cl_key(), dec_of(content_length)),
        (connection_key(), closed_val()),
        (content_type_key(), text_plain_val()),
    ]
}

/// The literal body of each error response.
pub open spec fn spec_error_body(e: ServerError) -> Seq<u8> {
    match e {
        ServerError::BadRequest => seq![66u8, 97u8, 100u8, 32u8, 82u8, 101u8, 113u8, 117u8, 101u8, 115u8, 116u8],
        ServerError::Parsing(_) => seq![66u8, 97u8, 100u8, 32u8, 82u8, 101u8, 113u8, 117u8, 101u8, 115u8, 116u8],
        _ => seq![73u8, 110u8, 116u8, 101u8, 114u8, 110u8, 97u8, 108u8, 32u8, 83u8, 101u8, 114u8, 118u8, 101u8, 114u8, 32u8, 69u8, 114u8, 114u8, 111u8, 114u8],
    }
}

impl Response {
    /// A fresh 200 response; a body, when given, brings its
    /// `content-length` header along.
    pub fn new(body: Option<Vec<u8>>) -> (r: Response)
        ensures
            r.head.status.code == 200,
            r.head.version == Version::Http11,
            r.head.headers.wf(),
            match body {
                Some(b) => r.head.headers@ == seq![(cl_key(), dec_of(b@.len() as int))]
                    && r.body@ == b@,
                None => r.head.headers@ == Seq::<(Seq<u8>, Seq<u8>)>::empty() && r.body@.len()
                    == 0,
            },
    {
        match body {
            Some(b) => {
                let mut h = Headers::new();
                let k1: [u8; 14] = [99, 111, 110, 116, 101, 110, 116, 45, 108, 101, 110, 103, 116, 104];
                proof {
                    assert(lower(k1@) =~= cl_key());
                    assert(is_token(cl_key()));
                }
                let cl = usize_to_dec(b.len());
                match h.replace(slice_to_vec(k1.as_slice()), cl) {
                    Ok(()) => {},
                    Err(_) => {
                        proof {
                            assert(false);
                        }
                    },
                }
                proof {
                    assert(h@ =~~= seq![(cl_key(), dec_of(b@.len() as int))]);
                }
                Response {
                    head: Parts { status: StatusCode::ok(), version: Version::Http11, headers: h },
                    body: b,
                }
            },
            None => Response {
                head: Parts {
                    status: StatusCode::ok(),
                    version: Version::Http11,
                    headers: Headers::new(),
                },
                body: Vec::new(),
            },
        }
    }

    /// Serialize head then body: status line, header lines, blank line,
    /// body bytes.
    pub fn encode(&self) -> (r: Result<Vec<u8>, ServerError>)
        ensures
            match r {
                Ok(v) => (self.head.status.code == 200 || self.head.status.code == 400
                    || self.head.status.code == 500) && v@ == spec_status_line(
                    self.head.status.code,
                ) + spec_header_block(self.head.headers@) + self.body@,
                Err(e) => e == ServerError::Internal && !(self.head.status.code == 200
                    || self.head.status.code == 400 || self.head.status.code == 500),
            },
    {
        let mut v = match self.head.encode() {
            Err(e) => {
                return Err(e);
            },
            Ok(v) => v,
        };
        append_bytes(&mut v, self.body.as_slice());
        Ok(v)
    }

    /// The fixed response for a routing failure: 400 for a bad or
    /// unparseable request, 500 otherwise, with a literal body and the
    /// stock headers carrying its length.
    pub fn from_error(e: ServerError) -> (r: Response)
        ensures
            r.head.version == Version::Http11,
            r.head.status.code == (match e {
                ServerError::BadRequest => 400u16,
                ServerError::Parsing(_) => 400u16,
                _ => 500u16,
            }),
            r.body@ == spec_error_body(e),
            r.head.headers@ == spec_default_headers(spec_error_body(e).len() as int),
    {
        let (status, body): (StatusCode, Vec<u8>) = match e {
            ServerError::BadRequest => {
                let a: [u8; 11] = [66, 97, 100, 32, 82, 101, 113, 117, 101, 115, 116];
                (StatusCode::bad_request(), slice_to_vec(a.as_slice()))
            },
            ServerError::Parsing(_) => {
                let a: [u8; 11] = [66, 97, 100, 32, 82, 101, 113, 117, 101, 115, 116];
                (StatusCode::bad_request(), slice_to_vec(a.as_slice()))
            },
            _ => {
                let a: [u8; 21] = [73, 110, 116, 101, 114, 110, 97, 108, 32, 83, 101, 114, 118, 101, 114, 32, 69, 114, 114, 111, 114];
                (StatusCode::internal_server_error(), slice_to_vec(a.as_slice()))
            },
        };
        proof {
            assert(body@ =~= spec_error_body(e));
        }
        let h = match Headers::default_headers(body.len() as u16) {
            Ok(h) => h,
            Err(_) => {
                proof {
                    assert(false);
                }
                Headers::new()
            },
        };
        Response { head: Parts { status, version: Version::Http11, headers: h }, body }
    }
}

impl Parts {
    /// Serialize the head: status line, header lines, blank line.
    pub fn encode(&self) -> (r: Result<Vec<u8>, ServerError>)
        ensures
            match r {
                Ok(v) => (self.status.code == 200 || self.status.code == 400 || self.status.code
                    == 500) && v@ == spec_status_line(self.status.code) + spec_header_block(
                    self.headers@,
                ),
                Err(e) => e == ServerError::Internal && !(self.status.code == 200
                    || self.status.code == 400 || self.status.code == 500),
            },
    {
        let mut v = match self.status.encode() {
            Err(e) => {
                return Err(e);
            },
            Ok(v) => v,
        };
        let hb = self.headers.encode();
        append_bytes(&mut v, hb.as_slice());
        Ok(v)
    }
}

/// Anything a route can hand back converts into the response that is
/// written to the transport.
pub trait IntoResponse {
    /// The response to serialize.
    #[must_use]
    fn into_response(self) -> Response;
}

impl IntoResponse for Response {
    fn into_response(self) -> Response {
        self
    }
}

impl IntoResponse for ServerError {
    fn into_response(self) -> Response {
        Response::from_error(self)
    }
}

impl<T: IntoResponse, E: IntoResponse> IntoResponse for Result<T, E> {
    fn into_response(self) -> Response {
        match self {
            Ok(value) => value.into_response(),
            Err(err) => err.into_response(),
        }
    }
}

} // verus!
