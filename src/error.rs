//! Errors of a translation.
use vstd::prelude::*;

verus! {

/// An HTTP client error, carried unopened.
#[verifier::external_type_specification]
#[verifier::external_body]
pub struct ExHttpError(reqwest::Error);

/// Why a translation failed.
#[derive(Debug)]
pub enum TranslationError {
    /// The HTTP request itself failed.
    Http(reqwest::Error),
    /// Any other failure, described in words.
    Custom(String),
    /// The rate limiter's permit pool is closed.
    RateLimitError(String),
    /// The endpoint reported a failure: an HTTP status or the response's own code.
    ApiError { code: i32, message: String },
    /// The response body is in no recognised shape.
    ParseError(String),
}

} // verus!
