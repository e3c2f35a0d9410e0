//! Reading a request from a byte source: the read-until-done driver
//! that feeds the parser as bytes arrive and compacts its buffer.

use vstd::prelude::*;
use vstd::slice::{slice_subrange, slice_to_vec};

use crate::error::HTTPParsingError;
use crate::request::{
    init_model, lemma_parse_append, spec_parse, ParserState, ReqModel, Request,
};

verus! {

/// A pull-based byte source, the transport abstraction the driver
/// reads from. Implementors deliver their bytes in order: a read hands
/// out a prefix of what remains, returns empty only at end-of-input,
/// and makes progress whenever bytes remain.
pub trait PollBytes {
    /// The bytes the source has yet to deliver. Implementors outside
    /// the verified world inherit the default; the driver's contract is
    /// stated against whatever this names.
    open spec fn data(&self) -> Seq<u8> {
        Seq::empty()
    }

    /// Deliver up to `len` of the next bytes; empty means end-of-input.
    fn read_mem(&mut self, len: usize) -> (r: Result<Vec<u8>, HTTPParsingError>)
        requires
            len >= 1,
        ensures
            match r {
                Ok(v) => v@.len() <= len && v@.len() <= old(self).data().len() && v@ == old(
                    self,
                ).data().take(v@.len() as int)
                    && final(self).data() == old(self).data().skip(v@.len() as int)
                    && (v@.len() == 0 ==> old(self).data().len() == 0)
                    && (old(self).data().len() > 0 ==> v@.len() > 0),
                Err(e) => final(self).data() == old(self).data(),
            },
    ;
}

/// The rejection reported when input ends with the machine incomplete:
/// each stage names what it was starved of.
pub open spec fn spec_eof_error(st: ParserState) -> HTTPParsingError {
    match st {
        ParserState::Init => HTTPParsingError::RequestLineNotFound,
        ParserState::Headers => HTTPParsingError::BadFieldLine,
        ParserState::Body => HTTPParsingError::BadBody,
        _ => HTTPParsingError::Parser,
    }
}

/// What a whole input means as a request: run the machine over all of
/// it and demand completion. Input that ends mid-request is rejected
/// by the stage it starved; in particular a body short of its declared
/// `content-length` is `BadBody`.
pub open spec fn spec_from_bytes(s: Seq<u8>) -> Result<ReqModel, HTTPParsingError> {
    let o = spec_parse(init_model(), s);
    match o.err {
        Some(e) => Err(e),
        None => {
            if o.m.state == ParserState::Done {
                Ok(o.m)
            } else {
                Err(spec_eof_error(o.m.state))
            }
        },
    }
}

impl Request {
    /// Read from `r` until the request completes: read a chunk, append
    /// it to the unconsumed tail, parse, drop the consumed prefix, and
    /// repeat. The result is exactly what parsing the source's whole
    /// byte string yields; end-of-input with the request incomplete is
    /// that stage's rejection, and a source failure is `IOError`.
    #[verifier::loop_isolation(false)]
    pub fn from_reader<R: PollBytes>(r: &mut R) -> (res: Result<Request, HTTPParsingError>)
        ensures
            match res {
                Ok(req) => spec_from_bytes(old(r).data()) == Ok::<ReqModel, HTTPParsingError>(
                    req@,
                ) && req@.state == ParserState::Done,
                Err(e) => e == HTTPParsingError::IOError || spec_from_bytes(old(r).data())
                    == Err::<ReqModel, HTTPParsingError>(e),
            },
    {
        let ghost total = old(r).data();
        let mut req = Request::new();
        let mut buf: Vec<u8> = Vec::new();
        let ghost mut fed: Seq<u8> = Seq::empty();
        proof {
            assert(fed + r.data() =~= total);
            assert(fed.skip(0) =~= fed);
        }
        loop
            invariant
                req.wf(),
                fed + r.data() == total,
                ({
                    let o = spec_parse(init_model(), fed);
                    o.err is None && o.m == req@ && 0 <= o.used <= fed.len() && buf@ == fed.skip(
                        o.used,
                    )
                }),
            decreases r.data().len(),
        {
            if req.done() {
                proof {
                    lemma_parse_append(init_model(), fed, r.data());
                    assert(fed + r.data() =~= total);
                }
                return Ok(req);
            }
            let ghost data_old = r.data();
            let chunk = match r.read_mem(1024) {
                Err(_) => {
                    return Err(HTTPParsingError::IOError);
                },
                Ok(c) => c,
            };
            if chunk.len() == 0 {
                proof {
                    assert(fed =~= total);
                }
                let e = match req.state {
                    ParserState::Init => HTTPParsingError::RequestLineNotFound,
                    ParserState::Headers => HTTPParsingError::BadFieldLine,
                    ParserState::Body => HTTPParsingError::BadBody,
                    ParserState::Done => HTTPParsingError::Parser,
                    ParserState::Error => HTTPParsingError::Parser,
                };
                return Err(e);
            }
            let ghost chunkv = chunk@;
            let ghost fed_old = fed;
            proof {
                assert(chunkv + data_old.skip(chunkv.len() as int) =~= data_old);
            }
            let mut c = chunk;
            buf.append(&mut c);
            let ghost prebuf = buf@;
            proof {
                let o1 = spec_parse(init_model(), fed_old);
                assert(prebuf =~= fed_old.skip(o1.used) + chunkv);
            }
            let n2 = match req.parse(buf.as_slice()) {
                Err(e) => {
                    proof {
                        lemma_parse_append(init_model(), fed_old, chunkv);
                        lemma_parse_append(init_model(), fed_old + chunkv, r.data());
                        assert((fed_old + chunkv) + r.data() =~= total);
                    }
                    return Err(e);
                },
                Ok(n2) => n2,
            };
            let blen = buf.len();
            let newbuf = slice_to_vec(slice_subrange(buf.as_slice(), n2, blen));
            buf = newbuf;
            proof {
                lemma_parse_append(init_model(), fed_old, chunkv);
                fed = fed_old + chunkv;
                let o1 = spec_parse(init_model(), fed_old);
                let o = spec_parse(init_model(), fed);
                assert(buf@ =~= prebuf.skip(n2 as int));
                assert(fed.skip(o1.used + n2) =~= (fed_old.skip(o1.used) + chunkv).skip(
                    n2 as int,
                ));
                assert(chunkv + data_old.skip(chunkv.len() as int) =~= data_old);
                assert(fed + r.data() =~= total);
            }
        }
    }
}

} // verus!

verus! {

/// With no `content-length` header the body stage finishes at once:
/// the request completes with its body empty, whatever else the buffer
/// holds.
pub proof fn lemma_no_content_length_completes(m: ReqModel, s: Seq<u8>)
    requires
        m.state == ParserState::Body,
        crate::headers::spec_get(m.entries, crate::request::cl_key()) is None,
    ensures
        spec_parse(m, s).m.state == ParserState::Done,
        spec_parse(m, s).m.body == m.body,
        spec_parse(m, s).err is None,
        spec_parse(m, s).used == 0,
{
}

/// Input that ends while the machine still owes body bytes is rejected
/// as `BadBody`: a body shorter than its declared `content-length` is
/// never silently truncated.
pub proof fn lemma_short_body_rejected(s: Seq<u8>)
    requires
        spec_parse(init_model(), s).err is None,
        spec_parse(init_model(), s).m.state == ParserState::Body,
    ensures
        spec_from_bytes(s) == Err::<ReqModel, HTTPParsingError>(HTTPParsingError::BadBody),
{
}

} // verus!
