//! The closed taxonomy of cookie parse failures.

use vstd::prelude::*;
use vstd::string::StringExecFns;

verus! {

/// Why a `Cookie` or `Set-Cookie` header value failed to parse.
///
/// Every validation step fails immediately with the variant that names it;
/// no partial result is ever returned.
#[derive(Debug, Clone, Copy, PartialEq, Eq, Structural)]
pub enum CookieParseError {
    /// The cookie name is empty or contains a byte outside the name class.
    InvalidName,
    /// The cookie value contains a byte outside the value class, or its
    /// quote delimiters are mismatched.
    InvalidValue,
    /// The `Expires` attribute value does not match the HTTP-date grammar.
    InvalidDate,
    /// The `Max-Age` attribute value is not a signed decimal integer that
    /// fits in 32 bits.
    InvalidMaxAge,
    /// The `SameSite` attribute value is none of `Strict`, `Lax`, `None`.
    InvalidSameSite,
    /// Structural failure: a pair without `=`, or input that does not split
    /// into pairs at all.
    Malformed,
}

/// The words describing each failure.
pub open spec fn message_of(e: CookieParseError) -> Seq<char> {
    match e {
        CookieParseError::InvalidName => "cookie name is empty or has a disallowed byte"@,
        CookieParseError::InvalidValue => "cookie value has a disallowed byte or mismatched quotes"@,
        CookieParseError::InvalidDate => "attribute value is not an HTTP-date"@,
        CookieParseError::InvalidMaxAge => "attribute value is not a signed 32-bit integer"@,
        CookieParseError::InvalidSameSite => "attribute value is none of Strict, Lax, None"@,
        CookieParseError::Malformed => "header value does not split into name=value pairs"@,
    }
}

impl CookieParseError {
    /// A short description of the failure, for diagnostics.
    pub fn message(&self) -> (r: String)
        ensures
            r@ == message_of(*self),
    {
        match self {
            CookieParseError::InvalidName => String::from_str(
                "cookie name is empty or has a disallowed byte",
            ),
            CookieParseError::InvalidValue => String::from_str(
                "cookie value has a disallowed byte or mismatched quotes",
            ),
            CookieParseError::InvalidDate => String::from_str(
                "attribute value is not an HTTP-date",
            ),
            CookieParseError::InvalidMaxAge => String::from_str(
                "attribute value is not a signed 32-bit integer",
            ),
            CookieParseError::InvalidSameSite => String::from_str(
                "attribute value is none of Strict, Lax, None",
            ),
            CookieParseError::Malformed => String::from_str(
                "header value does not split into name=value pairs",
            ),
        }
    }
}

} // verus!
