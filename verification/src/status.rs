//! Status codes: internally any positive three-digit code can be parsed,
//! but the encoder emits only 200, 400 and 500.

use vstd::prelude::*;

use crate::error::HTTPParsingError;
use crate::scan::{all_digits, dec_val};

verus! {

/// A positive HTTP status code.
#[derive(Clone, Copy, Debug, PartialEq, Eq, Structural)]
pub struct StatusCode {
    pub code: u16,
}

impl StatusCode {
    /// The code is positive.
    pub open spec fn wf(&self) -> bool {
        self.code > 0
    }

    /// 200 OK.
    pub fn ok() -> (r: StatusCode)
        ensures
            r.code == 200,
    {
        StatusCode { code: 200 }
    }

    /// 400 Bad Request.
    pub fn bad_request() -> (r: StatusCode)
        ensures
            r.code == 400,
    {
        StatusCode { code: 400 }
    }

    /// 500 Internal Server Error.
    pub fn internal_server_error() -> (r: StatusCode)
        ensures
            r.code == 500,
    {
        StatusCode { code: 500 }
    }

    /// Parse exactly three decimal digits with a nonzero leading digit.
    pub fn from_bytes(src: &[u8]) -> (r: Result<StatusCode, HTTPParsingError>)
        ensures
            match r {
                Ok(c) => src@.len() == 3 && all_digits(src@) && src@[0] != 48 && c.code == dec_val(
                    src@,
                ) && c.wf(),
                Err(e) => e == HTTPParsingError::BadStatusCode && !(src@.len() == 3 && all_digits(
                    src@,
                ) && src@[0] != 48),
            },
    {
        if src.len() != 3 {
            return Err(HTTPParsingError::BadStatusCode);
        }
        let a = src[0];
        let b = src[1];
        let c = src[2];
        if !(49 <= a && a <= 57 && 48 <= b && b <= 57 && 48 <= c && c <= 57) {
            return Err(HTTPParsingError::BadStatusCode);
        }
        let code: u16 = ((a - 48) as u16) * 100 + ((b - 48) as u16) * 10 + ((c - 48) as u16);
        proof {
            let s = src@;
            assert(s.take(2).take(1) =~= s.take(1));
            assert(s.take(1).take(0) =~= Seq::<u8>::empty());
            assert(s.take(2)[1] == s[1] && s.take(1)[0] == s[0]);
            assert(dec_val(s.take(1).take(0)) == 0);
            assert(dec_val(s.take(1)) == s[0] - 48);
            assert(dec_val(s.take(2)) == (s[0] - 48) * 10 + (s[1] - 48));
            assert(dec_val(s) == ((s[0] - 48) * 100 + (s[1] - 48) * 10 + (s[2] - 48)));
        }
        Ok(StatusCode { code })
    }
}

} // verus!

verus! {

impl Default for StatusCode {
    /// The default status is 200 OK.
    fn default() -> (r: StatusCode)
        ensures
            r.code == 200,
    {
        StatusCode { code: 200 }
    }
}

} // verus!
