//! The errors that a request can end in, and what each is answered with.
use vstd::prelude::*;
use vstd::string::to_string_from_display_ensures;

verus! {

/// `sqlx::Error`, the failure of a database call; it is carried, never inspected.
#[verifier::external_type_specification]
#[verifier::external_body]
pub struct ExSqlxError(sqlx::Error);

/// Why a request failed.
#[derive(Debug)]
pub enum AppError {
    BadRequest(String),
    NotFound(&'static str),
    UnprocessableEntity(&'static str),
    Internal(sqlx::Error),
}

/// What an error is answered with: an HTTP status, the code that the error page
/// shows as its title, and the message under it.
pub struct ErrorResponse {
    pub status: u16,
    pub code: &'static str,
    pub message: String,
}

pub open spec fn error_status(e: AppError) -> u16 {
    match e {
        AppError::BadRequest(_) => 400,
        AppError::NotFound(_) => 404,
        AppError::UnprocessableEntity(_) => 422,
        AppError::Internal(_) => 500,
    }
}

pub open spec fn error_code(e: AppError) -> Seq<char> {
    match e {
        AppError::BadRequest(_) => "400"@,
        AppError::NotFound(_) => "404"@,
        AppError::UnprocessableEntity(_) => "422"@,
        AppError::Internal(_) => "500"@,
    }
}

/// The message shown: the error's own text, except for an internal error, whose
/// details are not shown.
pub open spec fn error_message(e: AppError) -> Seq<char> {
    match e {
        AppError::BadRequest(m) => m@,
        AppError::NotFound(m) => m@,
        AppError::UnprocessableEntity(m) => m@,
        AppError::Internal(_) => "Internal server error."@,
    }
}

impl AppError {
    /// The status, code and message that this error is answered with.
    pub fn response_parts(&self) -> (res: ErrorResponse)
        ensures
            res.status == error_status(*self),
            res.code@ == error_code(*self),
            res.message@ == error_message(*self),
    {
        match self {
            AppError::BadRequest(message) => ErrorResponse {
                status: 400,
                code: "400",
                message: message.clone(),
            },
            AppError::NotFound(message) => ErrorResponse {
                status: 404,
                code: "404",
                message: (*message).to_owned(),
            },
            AppError::UnprocessableEntity(message) => ErrorResponse {
                status: 422,
                code: "422",
                message: (*message).to_owned(),
            },
            AppError::Internal(_) => ErrorResponse {
                status: 500,
                code: "500",
                message: "Internal server error.".to_owned(),
            },
        }
    }
}

/// A bad-request error whose message is the displayed form of `error`.
pub fn bad_request<E: std::fmt::Display>(error: E) -> (res: AppError)
    ensures
        res matches AppError::BadRequest(m) && to_string_from_display_ensures(&error, m),
{
    AppError::BadRequest(error.to_string())
}

} // verus!
