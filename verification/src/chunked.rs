//! Chunked transfer encoding with digest trailers, the response built
//! for a proxied fetch, and the routing decision for a request target.

use vstd::prelude::*;
use vstd::slice::slice_to_vec;

use sha2::Digest;

use crate::headers::Headers;
use crate::response::{spec_header_block, Parts, Response};
use crate::scan::{
    append_bytes, dec_of, find_sub, hex_bytes_of, hex_of, is_token, lower, spec_replace,
    usize_to_dec, usize_to_hex,
};
use crate::status::StatusCode;
use crate::version::Version;

verus! {

/// A frame of an HTTP body stream: either data bytes or the trailer
/// headers that follow a chunked body.
pub struct Frame<T> {
    kind: Kind<T>,
}

enum Kind<T> {
    Data(T),
    Trailers(Headers),
}

impl<T> Frame<T> {
    /// This frame carries data.
    pub closed spec fn spec_is_data(&self) -> bool {
        self.kind is Data
    }

    /// The data carried, when this is a data frame.
    pub closed spec fn spec_data(&self) -> T
        recommends
            self.spec_is_data(),
    {
        self.kind->Data_0
    }

    /// A data frame.
    pub fn data(buf: T) -> (r: Self)
        ensures
            r.spec_is_data(),
            r.spec_data() == buf,
    {
        Frame { kind: Kind::Data(buf) }
    }

    /// A trailers frame.
    pub fn trailers(trailers: Headers) -> (r: Self)
        ensures
            !r.spec_is_data(),
    {
        Frame { kind: Kind::Trailers(trailers) }
    }

    /// Take the data out, or get the frame back unchanged.
    pub fn into_data(self) -> (r: Result<T, Self>)
        ensures
            match r {
                Ok(d) => self.spec_is_data() && d == self.spec_data(),
                Err(f) => !self.spec_is_data() && f == self,
            },
    {
        match self.kind {
            Kind::Data(data) => Ok(data),
            _ => Err(self),
        }
    }

    /// Whether this frame carries data.
    pub fn is_data(&self) -> (r: bool)
        ensures
            r == self.spec_is_data(),
    {
        match self.kind {
            Kind::Data(_) => true,
            _ => false,
        }
    }

    /// Borrow the data, when this is a data frame.
    pub fn data_ref(&self) -> (r: Option<&T>)
        ensures
            match r {
                Some(d) => self.spec_is_data() && *d == self.spec_data(),
                None => !self.spec_is_data(),
            },
    {
        match self.kind {
            Kind::Data(ref data) => Some(data),
            _ => None,
        }
    }
}

/// The SHA-256 digest of a byte string. What the bytes are is left to
/// the hash; the contracts use only that it is a function of the input.
pub uninterp spec fn sha256_of(s: Seq<u8>) -> Seq<u8>;

/// Relies on sha2::Sha256::digest: the digest depends on the input
/// bytes alone and is 32 bytes long.
#[verifier::external_body]
fn sha256(b: &[u8]) -> (r: Vec<u8>)
    ensures
        r@ == sha256_of(b@),
        r@.len() == 32,
{
    sha2::Sha256::digest(b).to_vec()
}

/// Relies on hex::encode: two lowercase hexadecimal digits per input
/// byte, in input order.
#[verifier::external_body]
fn hex_encode(b: &[u8]) -> (r: Vec<u8>)
    ensures
        r@ == hex_bytes_of(b@),
{
    hex::encode(b).into_bytes()
}

/// The chunked framing of `payload` cut into `chunk`-byte pieces: each
/// piece as `<hex length>` CRLF `<bytes>` CRLF, ended by the zero
/// chunk `0` CRLF.
pub open spec fn spec_chunked(payload: Seq<u8>, chunk: int) -> Seq<u8>
    recommends
        chunk >= 1,
    decreases payload.len(),
{
    if payload.len() == 0 || chunk < 1 {
        seq![48u8, 13u8, 10u8]
    } else {
        let k = if payload.len() <= chunk {
            payload.len() as int
        } else {
            chunk
        };
        hex_of(k) + seq![13u8, 10u8] + payload.take(k) + seq![13u8, 10u8] + spec_chunked(
            payload.skip(k),
            chunk,
        )
    }
}

/// Frame `payload` as a chunked body with `chunk`-byte pieces.
pub fn chunk_encode(payload: &[u8], chunk: usize) -> (r: Vec<u8>)
    requires
        chunk >= 1,
    ensures
        r@ == spec_chunked(payload@, chunk as int),
    decreases payload@.len(),
{
    let n: usize = payload.len();
    if n == 0 {
        let a: [u8; 3] = [48, 13, 10];
        let v = slice_to_vec(a.as_slice());
        proof {
            assert(v@ =~= spec_chunked(payload@, chunk as int));
        }
        return v;
    }
    let k: usize = if n <= chunk {
        n
    } else {
        chunk
    };
    let mut r = usize_to_hex(k);
    let crlf: [u8; 2] = [13, 10];
    append_bytes(&mut r, crlf.as_slice());
    append_bytes(&mut r, vstd::slice::slice_subrange(payload, 0, k));
    append_bytes(&mut r, crlf.as_slice());
    let rest = chunk_encode(vstd::slice::slice_subrange(payload, k, n), chunk);
    append_bytes(&mut r, rest.as_slice());
    proof {
        assert(payload@.subrange(0, k as int) =~= payload@.take(k as int));
        assert(payload@.subrange(k as int, n as int) =~= payload@.skip(k as int));
        assert(r@ =~= spec_chunked(payload@, chunk as int));
    }
    r
}

/// The trailer name `x-content-sha256`, as stored.
pub open spec fn xsha_key() -> Seq<u8> {
    seq![120u8, 45u8, 99u8, 111u8, 110u8, 116u8, 101u8, 110u8, 116u8, 45u8, 115u8, 104u8, 97u8, 50u8, 53u8, 54u8]
}

/// The trailer name `x-content-length`, as stored.
pub open spec fn xlen_key() -> Seq<u8> {
    seq![120u8, 45u8, 99u8, 111u8, 110u8, 116u8, 101u8, 110u8, 116u8, 45u8, 108u8, 101u8, 110u8, 103u8, 116u8, 104u8]
}

/// The trailers computed over a whole payload before it is chunked:
/// its SHA-256 digest in hex, and its length.
pub open spec fn spec_digest_trailers(p: Seq<u8>) -> Seq<(Seq<u8>, Seq<u8>)> {
    seq![(xsha_key(), hex_bytes_of(sha256_of(p))), (xlen_key(), dec_of(p.len() as int))]
}

/// Compute the digest trailers for `payload`: the digest is taken over
/// the complete payload, before any chunk is written.
pub fn digest_trailers(payload: &[u8]) -> (r: Headers)
    ensures
        r@ == spec_digest_trailers(payload@),
        r.wf(),
{
    let mut h = Headers::new();
    let k1: [u8; 16] = [88, 45, 67, 111, 110, 116, 101, 110, 116, 45, 83, 72, 65, 50, 53, 54];
    let k2: [u8; 16] = [88, 45, 67, 111, 110, 116, 101, 110, 116, 45, 76, 101, 110, 103, 116, 104];
    proof {
        assert(lower(k1@) =~= xsha_key());
        assert(is_token(xsha_key()));
        assert(lower(k2@) =~= xlen_key());
        assert(is_token(xlen_key()));
    }
    let digest = sha256(payload);
    let hexd = hex_encode(digest.as_slice());
    match h.set(slice_to_vec(k1.as_slice()), hexd) {
        Ok(()) => {},
        Err(_) => {
            proof {
                assert(false);
            }
        },
    }
    proof {
        assert(h@ =~~= seq![(xsha_key(), hex_bytes_of(sha256_of(payload@)))]);
    }
    let ghost h1 = h@;
    let lenv = usize_to_dec(payload.len());
    match h.set(slice_to_vec(k2.as_slice()), lenv) {
        Ok(()) => {},
        Err(_) => {
            proof {
                assert(false);
            }
        },
    }
    proof {
        crate::headers::lemma_spec_find_char(h1, xlen_key());
        assert(xsha_key()[10] != xlen_key()[10]);
        assert(h@ =~~= spec_digest_trailers(payload@));
    }
    h
}

/// The header name `transfer-encoding`, as stored.
pub open spec fn transfer_encoding_key() -> Seq<u8> {
    seq![116u8, 114u8, 97u8, 110u8, 115u8, 102u8, 101u8, 114u8, 45u8, 101u8, 110u8, 99u8, 111u8, 100u8, 105u8, 110u8, 103u8]
}

/// The value `chunked`.
pub open spec fn chunked_val() -> Seq<u8> {
    seq![99u8, 104u8, 117u8, 110u8, 107u8, 101u8, 100u8]
}

/// Build the response for a proxied fetch: the payload framed in
/// 32-byte chunks, the digest trailers appended after the zero chunk,
/// and a `transfer-encoding: chunked` header.
pub fn build_chunked_response(payload: &[u8]) -> (r: Response)
    ensures
        r.head.status.code == 200,
        r.head.version == Version::Http11,
        r.head.headers@ == seq![(transfer_encoding_key(), chunked_val())],
        r.body@ == spec_chunked(payload@, 32) + spec_header_block(
            spec_digest_trailers(payload@),
        ),
{
    let mut body = chunk_encode(payload, 32);
    let trailers = digest_trailers(payload);
    let tb = trailers.encode();
    append_bytes(&mut body, tb.as_slice());
    let mut h = Headers::new();
    let k: [u8; 17] = [84, 114, 97, 110, 115, 102, 101, 114, 45, 69, 110, 99, 111, 100, 105, 110, 103];
    let v: [u8; 7] = [99, 104, 117, 110, 107, 101, 100];
    proof {
        assert(lower(k@) =~= transfer_encoding_key());
        assert(is_token(transfer_encoding_key()));
    }
    match h.set(slice_to_vec(k.as_slice()), slice_to_vec(v.as_slice())) {
        Ok(()) => {},
        Err(_) => {
            proof {
                assert(false);
            }
        },
    }
    proof {
        assert(h@ =~~= seq![(transfer_encoding_key(), chunked_val())]);
    }
    Response {
        head: Parts { status: StatusCode::ok(), version: Version::Http11, headers: h },
        body,
    }
}

/// Where a request target routes.
pub enum Route {
    /// The demo route that always fails internally.
    Internal,
    /// The demo route that is always a bad request.
    BadRequest,
    /// The proxied fetch, carrying the rewritten outbound URL.
    Fetch(Vec<u8>),
    /// The static success page.
    Static,
}

/// The target of the internal-failure demo route.
pub open spec fn my_problem_uri() -> Seq<u8> {
    seq![47u8, 109u8, 121u8, 112u8, 114u8, 111u8, 98u8, 108u8, 101u8, 109u8]
}

/// The target of the bad-request demo route.
pub open spec fn your_problem_uri() -> Seq<u8> {
    seq![121u8, 111u8, 117u8, 114u8, 112u8, 114u8, 111u8, 98u8, 108u8, 101u8, 109u8]
}

/// The target fragment that selects the proxied fetch.
pub open spec fn httpbin_pat() -> Seq<u8> {
    seq![47u8, 104u8, 116u8, 116u8, 112u8, 98u8, 105u8, 110u8]
}

/// What the fragment is rewritten to for the outbound fetch.
pub open spec fn httpbin_base() -> Seq<u8> {
    seq![104u8, 116u8, 116u8, 112u8, 115u8, 58u8, 47u8, 47u8, 104u8, 116u8, 116u8, 112u8, 98u8, 105u8, 110u8, 46u8, 111u8, 114u8, 103u8]
}

/// Decide where a request target routes, rewriting the proxied
/// target's fragment into the outbound URL.
pub fn route(uri: &[u8]) -> (r: Route)
    ensures
        match r {
            Route::Internal => uri@ == my_problem_uri(),
            Route::BadRequest => uri@ != my_problem_uri() && uri@ == your_problem_uri(),
            Route::Fetch(u) => uri@ != my_problem_uri() && uri@ != your_problem_uri()
                && find_sub(uri@, httpbin_pat()) is Some && u@ == spec_replace(
                uri@,
                httpbin_pat(),
                httpbin_base(),
            ),
            Route::Static => uri@ != my_problem_uri() && uri@ != your_problem_uri() && find_sub(
                uri@,
                httpbin_pat(),
            ) is None,
        },
{
    let myp: [u8; 10] = [47, 109, 121, 112, 114, 111, 98, 108, 101, 109];
    let yourp: [u8; 11] = [121, 111, 117, 114, 112, 114, 111, 98, 108, 101, 109];
    let pat: [u8; 8] = [47, 104, 116, 116, 112, 98, 105, 110];
    let base: [u8; 19] = [104, 116, 116, 112, 115, 58, 47, 47, 104, 116, 116, 112, 98, 105, 110, 46, 111, 114, 103];
    if crate::scan::bytes_eq(uri, myp.as_slice()) {
        proof {
            assert(myp@ =~= my_problem_uri());
        }
        return Route::Internal;
    }
    if crate::scan::bytes_eq(uri, yourp.as_slice()) {
        proof {
            assert(yourp@ =~= your_problem_uri());
        }
        return Route::BadRequest;
    }
    proof {
        assert(myp@ =~= my_problem_uri());
        assert(yourp@ =~= your_problem_uri());
        assert(pat@ =~= httpbin_pat());
        assert(base@ =~= httpbin_base());
    }
    match crate::scan::find_sub_at(uri, pat.as_slice()) {
        Some(_) => {
            let u = crate::scan::replace_bytes(uri, pat.as_slice(), base.as_slice());
            Route::Fetch(u)
        },
        None => Route::Static,
    }
}

} // verus!
