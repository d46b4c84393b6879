//! HTTP error statuses used for error pages.

use vstd::prelude::*;

verus! {

/// HTTP error status with context for error page generation.
#[derive(Debug)]
pub enum HttpError {
    BadRequest,
    Unauthorized { realm: String },
    Forbidden,
    NotFound,
    RequestTimeout,
    InternalServerError,
    NotImplemented,
    ServiceUnavailable,
}

/// The status code of an error.
pub open spec fn error_code(e: &HttpError) -> u16 {
    match e {
        HttpError::BadRequest => 400,
        HttpError::Unauthorized { .. } => 401,
        HttpError::Forbidden => 403,
        HttpError::NotFound => 404,
        HttpError::RequestTimeout => 408,
        HttpError::InternalServerError => 500,
        HttpError::NotImplemented => 501,
        HttpError::ServiceUnavailable => 503,
    }
}

/// The reason phrase of an error.
pub open spec fn error_text(e: &HttpError) -> Seq<char> {
    match e {
        HttpError::BadRequest => "Bad Request"@,
        HttpError::Unauthorized { .. } => "Unauthorized"@,
        HttpError::Forbidden => "Forbidden"@,
        HttpError::NotFound => "Not Found"@,
        HttpError::RequestTimeout => "Request Timeout"@,
        HttpError::InternalServerError => "Internal Server Error"@,
        HttpError::NotImplemented => "Not Implemented"@,
        HttpError::ServiceUnavailable => "Service Unavailable"@,
    }
}

impl HttpError {
    /// Returns the HTTP status code for this error.
    pub fn status_code(&self) -> (r: u16)
        ensures
            r == error_code(self),
    {
        match self {
            HttpError::BadRequest => 400,
            HttpError::Unauthorized { .. } => 401,
            HttpError::Forbidden => 403,
            HttpError::NotFound => 404,
            HttpError::RequestTimeout => 408,
            HttpError::InternalServerError => 500,
            HttpError::NotImplemented => 501,
            HttpError::ServiceUnavailable => 503,
        }
    }

    /// Returns the HTTP status text for this error.
    pub fn status_text(&self) -> (r: &'static str)
        ensures
            r@ == error_text(self),
    {
        match self {
            HttpError::BadRequest => "Bad Request",
            HttpError::Unauthorized { .. } => "Unauthorized",
            HttpError::Forbidden => "Forbidden",
            HttpError::NotFound => "Not Found",
            HttpError::RequestTimeout => "Request Timeout",
            HttpError::InternalServerError => "Internal Server Error",
            HttpError::NotImplemented => "Not Implemented",
            HttpError::ServiceUnavailable => "Service Unavailable",
        }
    }

    /// Returns a short HTML title for the error page (the same phrase).
    pub fn title(&self) -> (r: &'static str)
        ensures
            r@ == error_text(self),
    {
        self.status_text()
    }
}

} // verus!
