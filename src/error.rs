//! The error taxonomy of the catalog's operations.

use vstd::prelude::*;

verus! {

/// What went wrong, with a message for the caller.
#[derive(Debug)]
pub enum AppError {
    /// A failure of the store or another internal fault.
    Internal(String),
    /// The request names something that cannot be used as given.
    BadRequest(String),
    /// The upload's media type is not handled.
    UnsupportedMediaType(String),
    /// The upload is larger than allowed.
    PayloadTooLarge(String),
    /// The caller may not do this.
    Forbidden(String),
    /// A referenced item does not exist.
    NotFound(String),
    /// The item conflicts with one that exists.
    Exists(String),
}

impl AppError {
    /// The HTTP status code that stands for this kind of error.
    pub fn status_code(&self) -> (r: u16)
        ensures
            r == match self {
                AppError::Internal(_) => 500u16,
                AppError::BadRequest(_) => 400u16,
                AppError::UnsupportedMediaType(_) => 415u16,
                AppError::PayloadTooLarge(_) => 413u16,
                AppError::Forbidden(_) => 403u16,
                AppError::NotFound(_) => 404u16,
                AppError::Exists(_) => 409u16,
            },
    {
        match self {
            AppError::Internal(_) => 500,
            AppError::BadRequest(_) => 400,
            AppError::UnsupportedMediaType(_) => 415,
            AppError::PayloadTooLarge(_) => 413,
            AppError::Forbidden(_) => 403,
            AppError::NotFound(_) => 404,
            AppError::Exists(_) => 409,
        }
    }

    /// Whether this is a bad request with the message `msg`.
    pub open spec fn is_bad_request_with(&self, msg: Seq<char>) -> bool {
        match self {
            AppError::BadRequest(s) => s@ == msg,
            _ => false,
        }
    }

    /// The message carried by the error.
    pub fn message(&self) -> (r: String)
        ensures
            r@ == match self {
                AppError::Internal(s) => s@,
                AppError::BadRequest(s) => s@,
                AppError::UnsupportedMediaType(s) => s@,
                AppError::PayloadTooLarge(s) => s@,
                AppError::Forbidden(s) => s@,
                AppError::NotFound(s) => s@,
                AppError::Exists(s) => s@,
            },
    {
        match self {
            AppError::Internal(s) => s.clone(),
            AppError::BadRequest(s) => s.clone(),
            AppError::UnsupportedMediaType(s) => s.clone(),
            AppError::PayloadTooLarge(s) => s.clone(),
            AppError::Forbidden(s) => s.clone(),
            AppError::NotFound(s) => s.clone(),
            AppError::Exists(s) => s.clone(),
        }
    }
}

} // verus!
