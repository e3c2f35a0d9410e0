//! The request method: a closed set, constructed only by exact-byte match.

use vstd::prelude::*;

use crate::error::HTTPParsingError;

verus! {

/// The closed set of accepted request methods.
#[derive(Clone, Copy, Debug, PartialEq, Eq, Structural)]
pub enum Method {
    Get,
    Post,
    Put,
    Patch,
    Delete,
}

/// The wire spelling of a method.
pub open spec fn method_bytes(m: Method) -> Seq<u8> {
    match m {
        Method::Get => seq![71u8, 69u8, 84u8],
        Method::Post => seq![80u8, 79u8, 83u8, 84u8],
        Method::Put => seq![80u8, 85u8, 84u8],
        Method::Patch => seq![80u8, 65u8, 84u8, 67u8, 72u8],
        Method::Delete => seq![68u8, 69u8, 76u8, 69u8, 84u8, 69u8],
    }
}

/// The method spelled by `s`, if any.
pub open spec fn spec_method_from(s: Seq<u8>) -> Option<Method> {
    if s == method_bytes(Method::Get) {
        Some(Method::Get)
    } else if s == method_bytes(Method::Post) {
        Some(Method::Post)
    } else if s == method_bytes(Method::Put) {
        Some(Method::Put)
    } else if s == method_bytes(Method::Patch) {
        Some(Method::Patch)
    } else if s == method_bytes(Method::Delete) {
        Some(Method::Delete)
    } else {
        None
    }
}

impl Method {
    /// Match `src` against the closed method set; anything else is `BadMethod`.
    pub fn from_bytes(src: &[u8]) -> (r: Result<Method, HTTPParsingError>)
        ensures
            match r {
                Ok(m) => spec_method_from(src@) == Some(m),
                Err(e) => e == HTTPParsingError::BadMethod && spec_method_from(src@) is None,
            },
    {
        let n = src.len();
        if n == 3 && src[0] == 71 && src[1] == 69 && src[2] == 84 {
            proof {
                assert(src@ =~= method_bytes(Method::Get));
            }
            Ok(Method::Get)
        } else if n == 3 && src[0] == 80 && src[1] == 85 && src[2] == 84 {
            proof {
                assert(src@ =~= method_bytes(Method::Put));
            }
            Ok(Method::Put)
        } else if n == 4 && src[0] == 80 && src[1] == 79 && src[2] == 83 && src[3] == 84 {
            proof {
                assert(src@ =~= method_bytes(Method::Post));
            }
            Ok(Method::Post)
        } else if n == 5 && src[0] == 80 && src[1] == 65 && src[2] == 84 && src[3] == 67 && src[4]
            == 72 {
            proof {
                assert(src@ =~= method_bytes(Method::Patch));
            }
            Ok(Method::Patch)
        } else if n == 6 && src[0] == 68 && src[1] == 69 && src[2] == 76 && src[3] == 69 && src[4]
            == 84 && src[5] == 69 {
            proof {
                assert(src@ =~= method_bytes(Method::Delete));
            }
            Ok(Method::Delete)
        } else {
            Err(HTTPParsingError::BadMethod)
        }
    }

    /// The canonical spelling, as text.
    pub fn as_str(&self) -> (r: &'static str)
        ensures
            r@ == method_str(*self),
    {
        match self {
            Method::Get => "GET",
            Method::Post => "POST",
            Method::Put => "PUT",
            Method::Patch => "PATCH",
            Method::Delete => "DELETE",
        }
    }
}

/// The canonical spelling of a method, as characters.
pub open spec fn method_str(m: Method) -> Seq<char> {
    match m {
        Method::Get => "GET"@,
        Method::Post => "POST"@,
        Method::Put => "PUT"@,
        Method::Patch => "PATCH"@,
        Method::Delete => "DELETE"@,
    }
}

} // verus!

verus! {

impl Default for Method {
    /// The default method is GET.
    fn default() -> (r: Method)
        ensures
            r == Method::Get,
    {
        Method::Get
    }
}

} // verus!
