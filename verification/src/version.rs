//! The protocol version: only HTTP/1.1 is accepted, and a well-formed
//! version token naming any other version is a distinct rejection.

use vstd::prelude::*;

use crate::error::HTTPParsingError;
use crate::scan::is_digit;

verus! {

/// The closed set of supported protocol versions.
#[derive(Clone, Copy, Debug, PartialEq, Eq, Structural)]
pub enum Version {
    Http11,
}

/// `s` spells `HTTP/<digit>.<digit>`.
pub open spec fn version_token_shape(s: Seq<u8>) -> bool {
    s.len() == 8 && s[0] == 72 && s[1] == 84 && s[2] == 84 && s[3] == 80 && s[4] == 47 && is_digit(
        s[5],
    ) && s[6] == 46 && is_digit(s[7])
}

/// What a version token parses to: `1.1` is accepted, any other
/// `HTTP/<digit>.<digit>` is unsupported, anything else is malformed.
pub open spec fn spec_version_from(s: Seq<u8>) -> Result<Version, HTTPParsingError> {
    if version_token_shape(s) {
        if s[5] == 49 && s[7] == 49 {
            Ok(Version::Http11)
        } else {
            Err(HTTPParsingError::UnsupportedHTTPVersion)
        }
    } else {
        Err(HTTPParsingError::BadRequestLine)
    }
}

impl Version {
    /// The version number, as text.
    pub fn as_str(&self) -> (r: &'static str)
        ensures
            r@ == "1.1"@,
    {
        match self {
            Version::Http11 => "1.1",
        }
    }

    /// Parse a `HTTP/<digit>.<digit>` version token.
    pub fn from_bytes(src: &[u8]) -> (r: Result<Version, HTTPParsingError>)
        ensures
            r == spec_version_from(src@),
    {
        if src.len() == 8 && src[0] == 72 && src[1] == 84 && src[2] == 84 && src[3] == 80
            && src[4] == 47 && 48 <= src[5] && src[5] <= 57 && src[6] == 46 && 48 <= src[7]
            && src[7] <= 57 {
            if src[5] == 49 && src[7] == 49 {
                Ok(Version::Http11)
            } else {
                Err(HTTPParsingError::UnsupportedHTTPVersion)
            }
        } else {
            Err(HTTPParsingError::BadRequestLine)
        }
    }
}

} // verus!

verus! {

impl Default for Version {
    /// The only version there is.
    fn default() -> (r: Version)
        ensures
            r == Version::Http11,
    {
        Version::Http11
    }
}

} // verus!
