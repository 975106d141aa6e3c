//! The request error of the services, as an RFC 9457 problem
//! (`application/problem+json`).
use vstd::prelude::*;

use crate::text::push_str;

verus! {

#[verifier::external_type_specification]
#[verifier::external_body]
pub struct ExAnyhowError(anyhow::Error);

/// A request error. Each variant maps to an HTTP status and a problem body.
#[derive(Debug)]
pub enum AppError {
    Validation(String),
    BadRequest(String),
    Unauthorized(String),
    Forbidden(String),
    NotFound(String),
    Conflict(String),
    PayloadTooLarge(String),
    /// Anything unexpected; its detail is logged, never shown to the client.
    Internal(anyhow::Error),
}

/// The body of an RFC 9457 response.
#[derive(Debug, Clone, PartialEq, Eq)]
pub struct Problem {
    pub type_: String,
    pub title: String,
    pub status: u16,
    pub detail: String,
}

/// The HTTP status of an error.
pub open spec fn status_of(e: AppError) -> u16 {
    match e {
        AppError::Validation(_) => 422,
        AppError::BadRequest(_) => 400,
        AppError::Unauthorized(_) => 401,
        AppError::Forbidden(_) => 403,
        AppError::NotFound(_) => 404,
        AppError::Conflict(_) => 409,
        AppError::PayloadTooLarge(_) => 413,
        AppError::Internal(_) => 500,
    }
}

/// The short name of an error, the last segment of its problem type.
pub open spec fn slug_of(e: AppError) -> Seq<char> {
    match e {
        AppError::Validation(_) => "validation"@,
        AppError::BadRequest(_) => "bad-request"@,
        AppError::Unauthorized(_) => "unauthorized"@,
        AppError::Forbidden(_) => "forbidden"@,
        AppError::NotFound(_) => "not-found"@,
        AppError::Conflict(_) => "conflict"@,
        AppError::PayloadTooLarge(_) => "payload-too-large"@,
        AppError::Internal(_) => "internal"@,
    }
}

/// The title of an error's problem.
pub open spec fn title_of(e: AppError) -> Seq<char> {
    match e {
        AppError::Validation(_) => "Validation failed"@,
        AppError::BadRequest(_) => "Bad request"@,
        AppError::Unauthorized(_) => "Unauthorized"@,
        AppError::Forbidden(_) => "Forbidden"@,
        AppError::NotFound(_) => "Not found"@,
        AppError::Conflict(_) => "Conflict"@,
        AppError::PayloadTooLarge(_) => "Payload too large"@,
        AppError::Internal(_) => "Internal server error"@,
    }
}

/// What the client is told: the message of a domain error, and for an
/// internal one only that it happened.
pub open spec fn detail_of(e: AppError) -> Seq<char> {
    match e {
        AppError::Validation(m) => m@,
        AppError::BadRequest(m) => m@,
        AppError::Unauthorized(m) => m@,
        AppError::Forbidden(m) => m@,
        AppError::NotFound(m) => m@,
        AppError::Conflict(m) => m@,
        AppError::PayloadTooLarge(m) => m@,
        AppError::Internal(_) => "Internal server error."@,
    }
}

impl AppError {
    /// Status, slug and title of the error.
    pub fn parts(&self) -> (r: (u16, &'static str, &'static str))
        ensures
            r.0 == status_of(*self),
            r.1@ == slug_of(*self),
            r.2@ == title_of(*self),
    {
        match self {
            AppError::Validation(_) => (422, "validation", "Validation failed"),
            AppError::BadRequest(_) => (400, "bad-request", "Bad request"),
            AppError::Unauthorized(_) => (401, "unauthorized", "Unauthorized"),
            AppError::Forbidden(_) => (403, "forbidden", "Forbidden"),
            AppError::NotFound(_) => (404, "not-found", "Not found"),
            AppError::Conflict(_) => (409, "conflict", "Conflict"),
            AppError::PayloadTooLarge(_) => (413, "payload-too-large", "Payload too large"),
            AppError::Internal(_) => (500, "internal", "Internal server error"),
        }
    }

    /// Whether the error is internal: its cause is for the log only.
    pub fn is_internal(&self) -> (r: bool)
        ensures
            r == (*self is Internal),
    {
        match self {
            AppError::Internal(_) => true,
            _ => false,
        }
    }

    /// The problem body the client receives for this error.
    pub fn problem(&self) -> (r: Problem)
        ensures
            r.type_@ == "https://errors.ru-calque.app/"@ + slug_of(*self),
            r.title@ == title_of(*self),
            r.status == status_of(*self),
            r.detail@ == detail_of(*self),
    {
        let (status, slug, title) = self.parts();
        let detail = match self {
            AppError::Internal(_) => "Internal server error.".to_owned(),
            AppError::Validation(m) => m.clone(),
            AppError::BadRequest(m) => m.clone(),
            AppError::Unauthorized(m) => m.clone(),
            AppError::Forbidden(m) => m.clone(),
            AppError::NotFound(m) => m.clone(),
            AppError::Conflict(m) => m.clone(),
            AppError::PayloadTooLarge(m) => m.clone(),
        };
        let mut type_ = "https://errors.ru-calque.app/".to_owned();
        push_str(&mut type_, slug);
        Problem { type_, title: title.to_owned(), status, detail }
    }
}

} // verus!
