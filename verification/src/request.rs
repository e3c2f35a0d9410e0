//! The incremental request parser: a strictly forward-moving state
//! machine (request line, then headers, then body) driven over a byte
//! buffer that the caller refills as input arrives.
//!
//! Every step is specified against a mathematical machine over byte
//! sequences, `spec_parse`, and the machine composes over buffer
//! boundaries: feeding bytes in any chunking reaches the same state as
//! feeding them all at once.

use vstd::prelude::*;
use vstd::slice::{slice_subrange, slice_to_vec};

use crate::error::HTTPParsingError;
use crate::headers::{spec_get, spec_headers_parse, Headers};
use crate::method::{spec_method_from, Method};
use crate::scan::{
    all_digits, dec_val, find_byte, find_byte_from, find_crlf, find_crlf_from, utf8_check,
};
use crate::version::{spec_version_from, Version};

verus! {

/// The parser's position in the request grammar. Strictly forward:
/// once `Done` or `Error`, no further transition occurs.
#[derive(Clone, Copy, Debug, PartialEq, Eq, Structural)]
pub enum ParserState {
    Init,
    Headers,
    Body,
    Done,
    Error,
}

/// The parsed request line: method, target and version.
pub struct RequestLine {
    pub method: Method,
    pub uri: Vec<u8>,
    pub version: Version,
}

/// The mathematical image of a request line.
pub ghost struct RequestLineModel {
    pub method: Method,
    pub uri: Seq<u8>,
    pub version: Version,
}

impl View for RequestLine {
    type V = RequestLineModel;

    open spec fn view(&self) -> RequestLineModel {
        RequestLineModel { method: self.method, uri: self.uri@, version: self.version }
    }
}

/// Every byte of `s` is an ASCII uppercase letter.
pub open spec fn all_upper(s: Seq<u8>) -> bool {
    forall|i: int| 0 <= i < s.len() ==> 65 <= #[trigger] s[i] <= 90
}

/// Decide `s.len() > 0 && all_upper(s@)`.
fn check_upper(s: &[u8]) -> (r: bool)
    ensures
        r == (s@.len() > 0 && all_upper(s@)),
{
    if s.len() == 0 {
        return false;
    }
    let mut i: usize = 0;
    while i < s.len()
        invariant
            0 <= i <= s@.len(),
            forall|j: int| 0 <= j < i ==> 65 <= #[trigger] s@[j] <= 90,
        decreases s@.len() - i,
    {
        let b = s[i];
        if !(65 <= b && b <= 90) {
            return false;
        }
        i = i + 1;
    }
    true
}

/// What a complete request line means, mirroring how the line is read:
/// the first space-separated token must be a nonempty all-uppercase
/// word naming a known method; the second must be a nonempty UTF-8
/// target; the third must be a version token; a fourth token is
/// malformed.
pub open spec fn spec_request_line(line: Seq<u8>) -> Result<RequestLineModel, HTTPParsingError> {
    let mtok = match find_byte(line, 32) {
        Some(s1) => line.take(s1),
        None => line,
    };
    if !(mtok.len() > 0 && all_upper(mtok)) {
        Err(HTTPParsingError::BadRequestLine)
    } else {
        match spec_method_from(mtok) {
            None => Err(HTTPParsingError::BadMethod),
            Some(m) => match find_byte(line, 32) {
                None => Err(HTTPParsingError::BadRequestLine),
                Some(s1) => {
                    let rest = line.skip(s1 + 1);
                    let utok = match find_byte(rest, 32) {
                        Some(s2) => rest.take(s2),
                        None => rest,
                    };
                    if utok.len() == 0 || !vstd::utf8::valid_utf8(utok) {
                        Err(HTTPParsingError::BadRequestLine)
                    } else {
                        match find_byte(rest, 32) {
                            None => Err(HTTPParsingError::BadRequestLine),
                            Some(s2) => {
                                let vrest = rest.skip(s2 + 1);
                                let vtok = match find_byte(vrest, 32) {
                                    Some(s3) => vrest.take(s3),
                                    None => vrest,
                                };
                                match spec_version_from(vtok) {
                                    Err(e) => Err(e),
                                    Ok(v) => {
                                        if find_byte(vrest, 32) is Some {
                                            Err(HTTPParsingError::BadRequestLine)
                                        } else {
                                            Ok(
                                                RequestLineModel {
                                                    method: m,
                                                    uri: utok,
                                                    version: v,
                                                },
                                            )
                                        }
                                    },
                                }
                            },
                        }
                    }
                },
            },
        }
    }
}

/// What one call of `parse_request_line` does to a buffer: nothing
/// until a complete line (through CRLF) is present, then the line's
/// meaning and the bytes consumed.
pub open spec fn spec_request_line_step(s: Seq<u8>) -> Result<
    (Option<RequestLineModel>, int),
    HTTPParsingError,
> {
    match find_crlf(s) {
        None => Ok((None, 0int)),
        Some(i) => match spec_request_line(s.take(i)) {
            Err(e) => Err(e),
            Ok(rl) => Ok((Some(rl), i + 2)),
        },
    }
}

impl Request {
    /// Parse the request line from the front of `b`. With no CRLF in
    /// sight, consume nothing and report no line yet; with a complete
    /// line, either reject it or consume through the CRLF.
    pub fn parse_request_line(b: &[u8]) -> (r: Result<
        (Option<RequestLine>, usize),
        HTTPParsingError,
    >)
        ensures
            match r {
                Ok(p) => match p.0 {
                    Some(rl) => spec_request_line_step(b@) == Ok::<
                        (Option<RequestLineModel>, int),
                        HTTPParsingError,
                    >((Some(rl@), p.1 as int)) && 2 <= p.1 <= b@.len(),
                    None => spec_request_line_step(b@) == Ok::<
                        (Option<RequestLineModel>, int),
                        HTTPParsingError,
                    >((None, 0int)) && p.1 == 0,
                },
                Err(e) => spec_request_line_step(b@) == Err::<
                    (Option<RequestLineModel>, int),
                    HTTPParsingError,
                >(e),
            },
    {
        let n: usize = b.len();
        let i = match find_crlf_from(b, 0) {
            None => {
                proof {
                    assert(b@.skip(0) =~= b@);
                }
                return Ok((None, 0));
            },
            Some(i) => i,
        };
        proof {
            assert(b@.skip(0) =~= b@);
        }
        let line = slice_subrange(b, 0, i);
        proof {
            assert(line@ =~= b@.take(i as int));
        }
        match Self::parse_line_tokens(line) {
            Err(e) => Err(e),
            Ok(rl) => Ok((Some(rl), i + 2)),
        }
    }

    /// Split a complete request line into its three tokens and validate
    /// each.
    fn parse_line_tokens(line: &[u8]) -> (r: Result<RequestLine, HTTPParsingError>)
        ensures
            match r {
                Ok(rl) => spec_request_line(line@) == Ok::<RequestLineModel, HTTPParsingError>(
                    rl@,
                ),
                Err(e) => spec_request_line(line@) == Err::<RequestLineModel, HTTPParsingError>(
                    e,
                ),
            },
    {
        let s1opt = find_byte_from(line, 0, 32);
        proof {
            assert(line@.skip(0) =~= line@);
        }
        let mtok_end: usize = match s1opt {
            Some(s1) => s1,
            None => line.len(),
        };
        let mtok = slice_subrange(line, 0, mtok_end);
        proof {
            match s1opt {
                Some(s1) => {
                    assert(mtok@ =~= line@.take(s1 as int));
                },
                None => {
                    assert(mtok@ =~= line@);
                },
            }
        }
        if !check_upper(mtok) {
            return Err(HTTPParsingError::BadRequestLine);
        }
        let m = match Method::from_bytes(mtok) {
            Err(_) => {
                return Err(HTTPParsingError::BadMethod);
            },
            Ok(m) => m,
        };
        let s1 = match s1opt {
            None => {
                return Err(HTTPParsingError::BadRequestLine);
            },
            Some(s1) => s1,
        };
        let rest = slice_subrange(line, s1 + 1, line.len());
        proof {
            assert(rest@ =~= line@.skip(s1 + 1));
        }
        let s2opt = find_byte_from(rest, 0, 32);
        proof {
            assert(rest@.skip(0) =~= rest@);
        }
        let utok_end: usize = match s2opt {
            Some(s2) => s2,
            None => rest.len(),
        };
        let utok = slice_subrange(rest, 0, utok_end);
        proof {
            match s2opt {
                Some(s2) => {
                    assert(utok@ =~= rest@.take(s2 as int));
                },
                None => {
                    assert(utok@ =~= rest@);
                },
            }
        }
        if utok.len() == 0 {
            return Err(HTTPParsingError::BadRequestLine);
        }
        if !utf8_check(utok) {
            return Err(HTTPParsingError::BadRequestLine);
        }
        let s2 = match s2opt {
            None => {
                return Err(HTTPParsingError::BadRequestLine);
            },
            Some(s2) => s2,
        };
        let vrest = slice_subrange(rest, s2 + 1, rest.len());
        proof {
            assert(vrest@ =~= rest@.skip(s2 + 1));
        }
        let s3opt = find_byte_from(vrest, 0, 32);
        proof {
            assert(vrest@.skip(0) =~= vrest@);
        }
        let vtok_end: usize = match s3opt {
            Some(s3) => s3,
            None => vrest.len(),
        };
        let vtok = slice_subrange(vrest, 0, vtok_end);
        proof {
            match s3opt {
                Some(s3) => {
                    assert(vtok@ =~= vrest@.take(s3 as int));
                },
                None => {
                    assert(vtok@ =~= vrest@);
                },
            }
        }
        let v = match Version::from_bytes(vtok) {
            Err(e) => {
                return Err(e);
            },
            Ok(v) => v,
        };
        if s3opt.is_some() {
            return Err(HTTPParsingError::BadRequestLine);
        }
        let uri = slice_to_vec(utok);
        Ok(RequestLine { method: m, uri, version: v })
    }
}

/// An HTTP request being parsed: the line and headers collected so far,
/// the body bytes accumulated so far, and the machine's position.
pub struct Request {
    pub request_line: Option<RequestLine>,
    pub headers: Headers,
    pub body: Vec<u8>,
    pub state: ParserState,
}

/// The mathematical image of a request under construction.
pub ghost struct ReqModel {
    pub line: Option<RequestLineModel>,
    pub entries: Seq<(Seq<u8>, Seq<u8>)>,
    pub body: Seq<u8>,
    pub state: ParserState,
}

impl View for Request {
    type V = ReqModel;

    open spec fn view(&self) -> ReqModel {
        ReqModel {
            line: match self.request_line {
                Some(rl) => Some(rl@),
                None => None,
            },
            entries: self.headers@,
            body: self.body@,
            state: self.state,
        }
    }
}

} // verus!

verus! {

/// The lowercase name of the header that declares a body's length.
pub open spec fn cl_key() -> Seq<u8> {
    seq![99u8, 111u8, 110u8, 116u8, 101u8, 110u8, 116u8, 45u8, 108u8, 101u8, 110u8, 103u8, 116u8, 104u8]
}

/// The outcome of running the request machine over a buffer: the model
/// after the run, how many bytes it consumed, and the error that ended
/// it, if one did.
pub ghost struct ParseOut {
    pub m: ReqModel,
    pub used: int,
    pub err: Option<HTTPParsingError>,
}

/// One body step: with no `content-length` the body is complete and
/// empty; with an unparseable one the request dies with `IntError`;
/// otherwise take what the buffer offers, up to the bytes still owed,
/// and on reaching the declared length demand UTF-8.
pub open spec fn spec_body_step(m: ReqModel, s: Seq<u8>) -> ParseOut {
    match spec_get(m.entries, cl_key()) {
        None => ParseOut {
            m: ReqModel { state: ParserState::Done, ..m },
            used: 0,
            err: None,
        },
        Some(v) => {
            if !(v.len() > 0 && all_digits(v) && dec_val(v) <= usize::MAX) {
                ParseOut {
                    m: ReqModel { state: ParserState::Error, ..m },
                    used: 0,
                    err: Some(HTTPParsingError::IntError),
                }
            } else {
                let cl = dec_val(v);
                let need = if cl >= m.body.len() {
                    cl - m.body.len()
                } else {
                    0
                };
                let take_n = if need <= s.len() {
                    need
                } else {
                    s.len() as int
                };
                let body2 = m.body + s.take(take_n);
                if body2.len() == cl {
                    if vstd::utf8::valid_utf8(body2) {
                        ParseOut {
                            m: ReqModel { body: body2, state: ParserState::Done, ..m },
                            used: take_n,
                            err: None,
                        }
                    } else {
                        ParseOut {
                            m: ReqModel { body: body2, state: ParserState::Error, ..m },
                            used: take_n,
                            err: Some(HTTPParsingError::UtfError),
                        }
                    }
                } else {
                    ParseOut {
                        m: ReqModel { body: body2, state: ParserState::Body, ..m },
                        used: take_n,
                        err: None,
                    }
                }
            }
        },
    }
}

/// Run the request machine over `s` from state `m`: work through the
/// request line, the header section and the body in turn, stopping when
/// the buffer runs dry (consuming what was decided), when the request
/// completes, or when a stage rejects its input.
pub open spec fn spec_parse(m: ReqModel, s: Seq<u8>) -> ParseOut
    decreases s.len(),
{
    if m.state == ParserState::Done {
        ParseOut { m, used: 0, err: None }
    } else if m.state == ParserState::Error {
        ParseOut { m, used: 0, err: Some(HTTPParsingError::Parser) }
    } else if m.state == ParserState::Init {
        match spec_request_line_step(s) {
            Err(e) => ParseOut {
                m: ReqModel { state: ParserState::Error, ..m },
                used: 0,
                err: Some(e),
            },
            Ok(p) => match p.0 {
                None => ParseOut { m, used: 0, err: None },
                Some(rl) => {
                    if 2 <= p.1 <= s.len() {
                        let m2 = ReqModel { line: Some(rl), state: ParserState::Headers, ..m };
                        let rest = spec_parse(m2, s.skip(p.1));
                        ParseOut { m: rest.m, used: p.1 + rest.used, err: rest.err }
                    } else {
                        ParseOut { m, used: 0, err: None }
                    }
                },
            },
        }
    } else if m.state == ParserState::Headers {
        let hp = spec_headers_parse(m.entries, s);
        match hp.err {
            Some(e) => ParseOut {
                m: ReqModel { entries: hp.entries, state: ParserState::Error, ..m },
                used: 0,
                err: Some(e),
            },
            None => {
                if hp.done {
                    if 2 <= hp.used <= s.len() {
                        let m2 = ReqModel {
                            entries: hp.entries,
                            state: ParserState::Body,
                            ..m
                        };
                        let rest = spec_parse(m2, s.skip(hp.used));
                        ParseOut { m: rest.m, used: hp.used + rest.used, err: rest.err }
                    } else {
                        ParseOut { m, used: 0, err: None }
                    }
                } else {
                    ParseOut {
                        m: ReqModel { entries: hp.entries, ..m },
                        used: hp.used,
                        err: None,
                    }
                }
            },
        }
    } else {
        spec_body_step(m, s)
    }
}

/// The machine's fresh state: nothing parsed, nothing buffered.
pub open spec fn init_model() -> ReqModel {
    ReqModel {
        line: None,
        entries: Seq::empty(),
        body: Seq::empty(),
        state: ParserState::Init,
    }
}

/// What a reachable machine state satisfies: no body bytes before the
/// body stage, and never more body bytes than the declared length.
pub open spec fn wf_model(m: ReqModel) -> bool {
    &&& (m.state == ParserState::Init || m.state == ParserState::Headers) ==> m.body.len() == 0
    &&& m.state == ParserState::Body ==> match spec_get(m.entries, cl_key()) {
        Some(v) => (v.len() > 0 && all_digits(v) && dec_val(v) <= usize::MAX) ==> m.body.len()
            <= dec_val(v),
        None => true,
    }
}

impl Request {
    /// A fresh request, ready to parse from the start.
    pub fn new() -> (r: Request)
        ensures
            r@ == init_model(),
            r.wf(),
    {
        let r = Request {
            request_line: None,
            headers: Headers::new(),
            body: Vec::new(),
            state: ParserState::Init,
        };
        proof {
            assert(r@.entries =~= init_model().entries);
            assert(r@.body =~= init_model().body);
        }
        r
    }

    /// The headers are well-formed and the model is reachable.
    pub open spec fn wf(&self) -> bool {
        self.headers.wf() && wf_model(self@)
    }

    /// Parsing has completed successfully.
    pub fn done(&self) -> (r: bool)
        ensures
            r == (self@.state == ParserState::Done),
    {
        self.state == ParserState::Done
    }

    /// One body step over `b`: accumulate up to the declared
    /// `content-length`, finish immediately when there is none, and
    /// validate the completed body as UTF-8. Reports the bytes consumed
    /// and whether the body is complete.
    pub fn parse_body(&mut self, b: &[u8]) -> (r: Result<(usize, bool), HTTPParsingError>)
        requires
            old(self).wf(),
            old(self)@.state == ParserState::Body,
        ensures
            final(self).wf(),
            final(self)@ == spec_body_step(old(self)@, b@).m,
            match r {
                Ok(p) => spec_body_step(old(self)@, b@).err is None && p.0 == spec_body_step(
                    old(self)@,
                    b@,
                ).used && p.0 <= b@.len() && p.1 == (spec_body_step(old(self)@, b@).m.state
                    == ParserState::Done),
                Err(e) => spec_body_step(old(self)@, b@).err == Some(e),
            },
    {
        let key: [u8; 14] = [99, 111, 110, 116, 101, 110, 116, 45, 108, 101, 110, 103, 116, 104];
        proof {
            assert(key@ =~= cl_key());
        }
        let v = match self.headers.get(key.as_slice()) {
            None => {
                self.state = ParserState::Done;
                return Ok((0, true));
            },
            Some(v) => v,
        };
        let cl = match crate::scan::parse_dec(v.as_slice()) {
            None => {
                self.state = ParserState::Error;
                return Err(HTTPParsingError::IntError);
            },
            Some(cl) => cl,
        };
        let need: usize = cl - self.body.len();
        let avail: usize = b.len();
        let take_n: usize = if need <= avail {
            need
        } else {
            avail
        };
        let mut chunk = slice_to_vec(slice_subrange(b, 0, take_n));
        proof {
            assert(chunk@ =~= b@.take(take_n as int));
        }
        self.body.append(&mut chunk);
        if self.body.len() == cl {
            if utf8_check(self.body.as_slice()) {
                self.state = ParserState::Done;
                Ok((take_n, true))
            } else {
                self.state = ParserState::Error;
                Err(HTTPParsingError::UtfError)
            }
        } else {
            Ok((take_n, false))
        }
    }

    /// Drive the machine over `data` until it needs more input, finishes,
    /// or rejects: the bytes consumed are reported so the caller can
    /// compact its read buffer. A parser already in `Error` answers
    /// `Parser`; one already `Done` consumes nothing.
    #[verifier::loop_isolation(false)]
    pub fn parse(&mut self, data: &[u8]) -> (r: Result<usize, HTTPParsingError>)
        requires
            old(self).wf(),
        ensures
            final(self).wf(),
            final(self)@ == spec_parse(old(self)@, data@).m,
            match r {
                Ok(n) => spec_parse(old(self)@, data@).err is None && n == spec_parse(
                    old(self)@,
                    data@,
                ).used && n <= data@.len(),
                Err(e) => spec_parse(old(self)@, data@).err == Some(e),
            },
    {
        let ghost full = spec_parse(old(self)@, data@);
        proof {
            assert(data@.skip(0) =~= data@);
        }
        let n: usize = data.len();
        let mut read: usize = 0;
        loop
            invariant
                self.wf(),
                read <= n == data@.len(),
                ({
                    let rest = spec_parse(self@, data@.skip(read as int));
                    full.m == rest.m && full.err == rest.err && (rest.err is None ==> full.used
                        == read + rest.used)
                }),
            decreases data@.len() - read,
        {
            match self.state {
                ParserState::Done => {
                    return Ok(read);
                },
                ParserState::Error => {
                    return Err(HTTPParsingError::Parser);
                },
                ParserState::Init => {
                    let sub = slice_subrange(data, read, n);
                    proof {
                        assert(sub@ =~= data@.skip(read as int));
                    }
                    match Self::parse_request_line(sub) {
                        Err(e) => {
                            self.state = ParserState::Error;
                            return Err(e);
                        },
                        Ok((rlopt, used)) => match rlopt {
                            None => {
                                return Ok(read);
                            },
                            Some(rl) => {
                                self.request_line = Some(rl);
                                self.state = ParserState::Headers;
                                proof {
                                    assert(data@.skip(read as int).skip(used as int) =~= data@.skip(
                                        read + used,
                                    ));
                                }
                                read = read + used;
                            },
                        },
                    }
                },
                ParserState::Headers => {
                    let sub = slice_subrange(data, read, n);
                    proof {
                        assert(sub@ =~= data@.skip(read as int));
                        crate::headers::lemma_headers_parse_bounds(
                            self@.entries,
                            data@.skip(read as int),
                        );
                    }
                    match self.headers.parse(sub) {
                        Err(e) => {
                            self.state = ParserState::Error;
                            return Err(e);
                        },
                        Ok((used, section_done)) => {
                            if section_done {
                                self.state = ParserState::Body;
                                proof {
                                    match spec_get(self@.entries, cl_key()) {
                                        Some(v) => {
                                            if v.len() > 0 && all_digits(v) {
                                                crate::scan::lemma_dec_val_nonneg(v);
                                            }
                                        },
                                        None => {},
                                    }
                                    assert(data@.skip(read as int).skip(used as int) =~= data@.skip(
                                        read + used,
                                    ));
                                }
                                read = read + used;
                            } else {
                                return Ok(read + used);
                            }
                        },
                    }
                },
                ParserState::Body => {
                    let sub = slice_subrange(data, read, n);
                    proof {
                        assert(sub@ =~= data@.skip(read as int));
                    }
                    match self.parse_body(sub) {
                        Err(e) => {
                            return Err(e);
                        },
                        Ok((used, _body_done)) => {
                            return Ok(read + used);
                        },
                    }
                },
            }
        }
    }
}

} // verus!

verus! {

/// The request machine consumes within the buffer.
pub proof fn lemma_parse_bounds(m: ReqModel, s: Seq<u8>)
    ensures
        0 <= spec_parse(m, s).used <= s.len(),
    decreases s.len(),
{
    if m.state == ParserState::Init {
        match spec_request_line_step(s) {
            Err(_) => {},
            Ok(p) => match p.0 {
                None => {},
                Some(rl) => {
                    if 2 <= p.1 <= s.len() {
                        let m2 = ReqModel { line: Some(rl), state: ParserState::Headers, ..m };
                        lemma_parse_bounds(m2, s.skip(p.1));
                    }
                },
            },
        }
    } else if m.state == ParserState::Headers {
        let hp = spec_headers_parse(m.entries, s);
        crate::headers::lemma_headers_parse_bounds(m.entries, s);
        if hp.err is None && hp.done && 2 <= hp.used <= s.len() {
            let m2 = ReqModel { entries: hp.entries, state: ParserState::Body, ..m };
            lemma_parse_bounds(m2, s.skip(hp.used));
        }
    } else {
    }
}

/// Running the machine preserves reachability of its state.
pub proof fn lemma_parse_wf(m: ReqModel, s: Seq<u8>)
    requires
        wf_model(m),
    ensures
        wf_model(spec_parse(m, s).m),
    decreases s.len(),
{
    if m.state == ParserState::Init {
        match spec_request_line_step(s) {
            Err(_) => {},
            Ok(p) => match p.0 {
                None => {},
                Some(rl) => {
                    if 2 <= p.1 <= s.len() {
                        let m2 = ReqModel { line: Some(rl), state: ParserState::Headers, ..m };
                        lemma_parse_wf(m2, s.skip(p.1));
                    }
                },
            },
        }
    } else if m.state == ParserState::Headers {
        let hp = spec_headers_parse(m.entries, s);
        crate::headers::lemma_headers_parse_bounds(m.entries, s);
        if hp.err is None && hp.done && 2 <= hp.used <= s.len() {
            let m2 = ReqModel { entries: hp.entries, state: ParserState::Body, ..m };
            match spec_get(hp.entries, cl_key()) {
                Some(v) => {
                    if v.len() > 0 && all_digits(v) {
                        crate::scan::lemma_dec_val_nonneg(v);
                    }
                },
                None => {},
            }
            lemma_parse_wf(m2, s.skip(hp.used));
        }
    } else {
    }
}

/// Feeding a buffer in two pieces reaches the same state as feeding it
/// whole: the machine first works through `s` exactly as before, then
/// continues from where it paused over the unconsumed tail of `s`
/// followed by `t`. An error met inside `s` stays the same error.
#[verifier::rlimit(60)]
pub proof fn lemma_parse_append(m: ReqModel, s: Seq<u8>, t: Seq<u8>)
    requires
        wf_model(m),
    ensures
        ({
            let o1 = spec_parse(m, s);
            let o = spec_parse(m, s + t);
            if o1.err is Some {
                o.m == o1.m && o.err == o1.err
            } else {
                let o2 = spec_parse(o1.m, s.skip(o1.used) + t);
                o.m == o2.m && o.err == o2.err && (o2.err is None ==> o.used == o1.used
                    + o2.used)
            }
        }),
    decreases s.len(),
{
    let o1 = spec_parse(m, s);
    let o = spec_parse(m, s + t);
    lemma_parse_bounds(m, s);
    if m.state == ParserState::Done || m.state == ParserState::Error {
        assert(s.skip(0) + t =~= s + t);
    } else if m.state == ParserState::Init {
        match find_crlf(s) {
            None => {
                assert(s.skip(0) + t =~= s + t);
            },
            Some(i) => {
                crate::scan::lemma_find_crlf_char(s);
                crate::scan::lemma_find_crlf_append(s, t);
                assert((s + t).take(i) =~= s.take(i));
                match spec_request_line(s.take(i)) {
                    Err(_) => {},
                    Ok(rl) => {
                        let m2 = ReqModel { line: Some(rl), state: ParserState::Headers, ..m };
                        lemma_parse_append(m2, s.skip(i + 2), t);
                        lemma_parse_bounds(m2, s.skip(i + 2));
                        assert((s + t).skip(i + 2) =~= s.skip(i + 2) + t);
                        let r1 = spec_parse(m2, s.skip(i + 2));
                        if r1.err is None {
                            assert(s.skip(o1.used) =~= s.skip(i + 2).skip(r1.used));
                        }
                    },
                }
            },
        }
    } else if m.state == ParserState::Headers {
        let hp = spec_headers_parse(m.entries, s);
        let hpt = spec_headers_parse(m.entries, s + t);
        crate::headers::lemma_headers_parse_append(m.entries, s, t);
        crate::headers::lemma_headers_parse_bounds(m.entries, s);
        crate::headers::lemma_headers_parse_bounds(m.entries, s + t);
        match hp.err {
            Some(_) => {},
            None => {
                if hp.done {
                    let m2 = ReqModel { entries: hp.entries, state: ParserState::Body, ..m };
                    match spec_get(hp.entries, cl_key()) {
                        Some(v) => {
                            if v.len() > 0 && all_digits(v) {
                                crate::scan::lemma_dec_val_nonneg(v);
                            }
                        },
                        None => {},
                    }
                    lemma_parse_append(m2, s.skip(hp.used), t);
                    lemma_parse_bounds(m2, s.skip(hp.used));
                    assert((s + t).skip(hp.used) =~= s.skip(hp.used) + t);
                    let r1 = spec_parse(m2, s.skip(hp.used));
                    if r1.err is None {
                        assert(s.skip(o1.used) =~= s.skip(hp.used).skip(r1.used));
                    }
                } else {
                    lemma_parse_append_headers_wait(m, s, t);
                }
            },
        }
    } else {
        lemma_parse_append_body(m, s, t);
    }
}

/// The body-stage case of `lemma_parse_append`.
#[verifier::rlimit(60)]
#[verifier::spinoff_prover]
proof fn lemma_parse_append_body(m: ReqModel, s: Seq<u8>, t: Seq<u8>)
    requires
        wf_model(m),
        m.state == ParserState::Body,
    ensures
        ({
            let o1 = spec_parse(m, s);
            let o = spec_parse(m, s + t);
            if o1.err is Some {
                o.m == o1.m && o.err == o1.err
            } else {
                let o2 = spec_parse(o1.m, s.skip(o1.used) + t);
                o.m == o2.m && o.used == o1.used + o2.used && o.err == o2.err
            }
        }),
{
    let o1 = spec_parse(m, s);
    let o = spec_parse(m, s + t);
    match spec_get(m.entries, cl_key()) {
        None => {
            assert(s.skip(0) + t =~= s + t);
        },
        Some(v) => {
            if !(v.len() > 0 && all_digits(v) && dec_val(v) <= usize::MAX) {
                assert(s.skip(0) + t =~= s + t);
            } else {
                let cl = dec_val(v);
                let need = cl - m.body.len();
                if need <= s.len() {
                    assert((s + t).take(need) =~= s.take(need));
                    if spec_body_step(m, s).m.state == ParserState::Done {
                        assert(s.skip(o1.used) + t =~= (s + t).skip(o.used));
                    }
                } else {
                    assert(s.take(s.len() as int) =~= s);
                    assert(s.skip(s.len() as int) + t =~= t);
                    if need <= s.len() + t.len() {
                        assert((s + t).take(need) =~= s + t.take(need - s.len()));
                        assert(m.body + (s + t).take(need) =~= (m.body + s) + t.take(
                            need - s.len(),
                        ));
                    } else {
                        assert((s + t).take((s + t).len() as int) =~= s + t.take(
                            t.len() as int,
                        ));
                        assert(t.take(t.len() as int) =~= t);
                        assert(m.body + (s + t).take((s + t).len() as int) =~= (m.body + s)
                            + t.take(t.len() as int));
                    }
                }
            }
        },
    }
}

} // verus!

verus! {

/// The case of `lemma_parse_append` where the header section pauses for
/// more input inside `s`.
#[verifier::rlimit(60)]
#[verifier::spinoff_prover]
proof fn lemma_parse_append_headers_wait(m: ReqModel, s: Seq<u8>, t: Seq<u8>)
    requires
        wf_model(m),
        m.state == ParserState::Headers,
        spec_headers_parse(m.entries, s).err is None,
        !spec_headers_parse(m.entries, s).done,
    ensures
        ({
            let o1 = spec_parse(m, s);
            let o = spec_parse(m, s + t);
            let o2 = spec_parse(o1.m, s.skip(o1.used) + t);
            o1.err is None && o.m == o2.m && o.err == o2.err && (o2.err is None ==> o.used
                == o1.used + o2.used)
        }),
{
    let o1 = spec_parse(m, s);
    let o = spec_parse(m, s + t);
    let hp = spec_headers_parse(m.entries, s);
    let hpt = spec_headers_parse(m.entries, s + t);
    crate::headers::lemma_headers_parse_append(m.entries, s, t);
    crate::headers::lemma_headers_parse_bounds(m.entries, s);
    crate::headers::lemma_headers_parse_bounds(m.entries, s + t);
    let h2 = spec_headers_parse(hp.entries, s.skip(hp.used) + t);
    crate::headers::lemma_headers_parse_bounds(hp.entries, s.skip(hp.used) + t);
    match h2.err {
        Some(_) => {},
        None => {
            if h2.done {
                assert((s + t).skip(hpt.used) =~= (s.skip(hp.used) + t).skip(h2.used));
            }
        },
    }
}

} // verus!

verus! {

/// A parser together with its unconsumed read buffer, as the
/// read-until-done loop drives them.
pub ghost struct SysState {
    pub m: ReqModel,
    pub buf: Seq<u8>,
    pub err: Option<HTTPParsingError>,
}

/// The fresh system: a fresh machine and an empty buffer.
pub open spec fn sys_init() -> SysState {
    SysState { m: init_model(), buf: Seq::empty(), err: None }
}

/// Feed one chunk: append it to the buffer, run the machine, and drop
/// the consumed prefix. After an error the system is dead and keeps
/// nothing buffered.
pub open spec fn sys_feed(sys: SysState, chunk: Seq<u8>) -> SysState {
    if sys.err is Some {
        sys
    } else {
        let b = sys.buf + chunk;
        let out = spec_parse(sys.m, b);
        if out.err is Some {
            SysState { m: out.m, buf: Seq::empty(), err: out.err }
        } else if 0 <= out.used <= b.len() {
            SysState { m: out.m, buf: b.skip(out.used), err: None }
        } else {
            sys
        }
    }
}

/// Feed chunks in order.
pub open spec fn sys_feed_all(sys: SysState, chunks: Seq<Seq<u8>>) -> SysState
    decreases chunks.len(),
{
    if chunks.len() == 0 {
        sys
    } else {
        sys_feed_all(sys_feed(sys, chunks[0]), chunks.skip(1))
    }
}

/// The chunks joined back into one byte string.
pub open spec fn concat_chunks(chunks: Seq<Seq<u8>>) -> Seq<u8>
    decreases chunks.len(),
{
    if chunks.len() == 0 {
        Seq::empty()
    } else {
        chunks[0] + concat_chunks(chunks.skip(1))
    }
}

/// Feeding two chunks one after the other equals feeding their
/// concatenation.
pub proof fn lemma_sys_feed_append(sys: SysState, a: Seq<u8>, b: Seq<u8>)
    requires
        wf_model(sys.m),
    ensures
        sys_feed(sys_feed(sys, a), b) == sys_feed(sys, a + b),
{
    if sys.err is Some {
    } else {
        let s = sys.buf + a;
        lemma_parse_bounds(sys.m, s);
        let o1 = spec_parse(sys.m, s);
        lemma_parse_append(sys.m, s, b);
        assert((sys.buf + a) + b =~= sys.buf + (a + b));
        if o1.err is Some {
        } else {
            lemma_parse_wf(sys.m, s);
            let o2 = spec_parse(o1.m, s.skip(o1.used) + b);
            lemma_parse_bounds(o1.m, s.skip(o1.used) + b);
            if o2.err is Some {
            } else {
                assert((sys.buf + (a + b)).skip(o1.used + o2.used) =~= (s.skip(o1.used)
                    + b).skip(o2.used));
            }
        }
    }
}

proof fn lemma_feed_all_concat(sys0: SysState, c: Seq<u8>, chunks: Seq<Seq<u8>>)
    requires
        wf_model(sys0.m),
    ensures
        sys_feed_all(sys_feed(sys0, c), chunks) == sys_feed(sys0, c + concat_chunks(chunks)),
    decreases chunks.len(),
{
    if chunks.len() == 0 {
        assert(c + concat_chunks(chunks) =~= c);
    } else {
        lemma_sys_feed_append(sys0, c, chunks[0]);
        lemma_feed_all_concat(sys0, c + chunks[0], chunks.skip(1));
        assert((c + chunks[0]) + concat_chunks(chunks.skip(1)) =~= c + concat_chunks(chunks));
    }
}

/// Chunk-size invariance: feeding a request's bytes to the parser in any
/// chunking — one byte at a time or all at once — drives the system to
/// the same state: the same parsed request, the same leftover buffer,
/// the same error if one occurs.
pub proof fn lemma_chunking_irrelevant(chunks: Seq<Seq<u8>>)
    ensures
        sys_feed_all(sys_init(), chunks) == sys_feed(sys_init(), concat_chunks(chunks)),
{
    assert(sys_init().buf + Seq::<u8>::empty() =~= Seq::<u8>::empty());
    assert(Seq::<u8>::empty().skip(0) =~= Seq::<u8>::empty());
    assert(sys_feed(sys_init(), Seq::<u8>::empty()) == sys_init());
    lemma_feed_all_concat(sys_init(), Seq::empty(), chunks);
    assert(Seq::<u8>::empty() + concat_chunks(chunks) =~= concat_chunks(chunks));
}

/// Two chunkings of the same bytes drive the system to the same state.
pub proof fn lemma_chunkings_agree(c1: Seq<Seq<u8>>, c2: Seq<Seq<u8>>)
    requires
        concat_chunks(c1) == concat_chunks(c2),
    ensures
        sys_feed_all(sys_init(), c1) == sys_feed_all(sys_init(), c2),
{
    lemma_chunking_irrelevant(c1);
    lemma_chunking_irrelevant(c2);
}

} // verus!
