//! Parsers for the two HTTP cookie header value formats.
//!
//! The `cookie` module splits a request-side `Cookie` header (a
//! `"; "`-separated list of `name=value` pairs) into a map, over raw octets
//! or over text. The `setcookie` module parses a response-side `Set-Cookie`
//! header into a structured [`setcookie::Cookie`] record: the leading
//! `name=value` pair is validated against fixed byte classes, and the
//! following attribute tokens (`Domain`, `Expires`, `HttpOnly`, `Max-Age`,
//! `Partitioned`, `Path`, `SameSite`, `Secure`) are matched
//! case-insensitively and checked, failing fast with a specific
//! [`error::CookieParseError`] on the first invalid token.

pub mod error;
pub mod scan;
pub mod pairs;
pub mod cookie;
pub mod date;
pub mod setcookie;
