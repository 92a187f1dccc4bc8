//! The errors that the service answers with, their HTTP status codes and
//! the message that the response body carries.
use vstd::prelude::*;

verus! {

#[verifier::external_type_specification]
#[verifier::external_body]
pub struct ExIoError(std::io::Error);

/// An error answered to a client.
#[derive(Debug)]
pub enum AppError {
    NotFound,
    Unauthorized,
    Forbidden,
    BadRequest(String),
    Conflict(String),
    Internal(String),
    Io(std::io::Error),
}

/// What a client learns of an error: its kind and the text it carries.
pub enum ErrorView {
    NotFound,
    Unauthorized,
    Forbidden,
    BadRequest(Seq<char>),
    Conflict(Seq<char>),
    Internal(Seq<char>),
    Io,
}

impl View for AppError {
    type V = ErrorView;

    open spec fn view(&self) -> ErrorView {
        match self {
            AppError::NotFound => ErrorView::NotFound,
            AppError::Unauthorized => ErrorView::Unauthorized,
            AppError::Forbidden => ErrorView::Forbidden,
            AppError::BadRequest(m) => ErrorView::BadRequest(m@),
            AppError::Conflict(m) => ErrorView::Conflict(m@),
            AppError::Internal(m) => ErrorView::Internal(m@),
            AppError::Io(_) => ErrorView::Io,
        }
    }
}

/// The HTTP status code of an error.
pub open spec fn spec_status_code(e: ErrorView) -> u16 {
    match e {
        ErrorView::NotFound => 404,
        ErrorView::Unauthorized => 401,
        ErrorView::Forbidden => 403,
        ErrorView::BadRequest(_) => 400,
        ErrorView::Conflict(_) => 409,
        ErrorView::Internal(_) => 500,
        ErrorView::Io => 500,
    }
}

/// The text of the response body's `error` field. Internal and I/O errors
/// are not described to the client.
pub open spec fn spec_error_message(e: ErrorView) -> Seq<char> {
    match e {
        ErrorView::NotFound => "Not found"@,
        ErrorView::Unauthorized => "Unauthorized"@,
        ErrorView::Forbidden => "Forbidden"@,
        ErrorView::BadRequest(m) => "Bad request: "@ + m,
        ErrorView::Conflict(m) => "Conflict: "@ + m,
        ErrorView::Internal(_) => "Internal server error"@,
        ErrorView::Io => "Internal server error"@,
    }
}

impl AppError {
    /// The HTTP status code of the response.
    pub fn status_code(&self) -> (c: u16)
        ensures
            c == spec_status_code(self@),
    {
        match self {
            AppError::NotFound => 404,
            AppError::Unauthorized => 401,
            AppError::Forbidden => 403,
            AppError::BadRequest(_) => 400,
            AppError::Conflict(_) => 409,
            AppError::Internal(_) => 500,
            AppError::Io(_) => 500,
        }
    }

    /// The message of the response body.
    pub fn message(&self) -> (m: String)
        ensures
            m@ == spec_error_message(self@),
    {
        match self {
            AppError::NotFound => String::from_str("Not found"),
            AppError::Unauthorized => String::from_str("Unauthorized"),
            AppError::Forbidden => String::from_str("Forbidden"),
            AppError::BadRequest(m) => {
                let mut s = String::from_str("Bad request: ");
                s.append(m.as_str());
                s
            },
            AppError::Conflict(m) => {
                let mut s = String::from_str("Conflict: ");
                s.append(m.as_str());
                s
            },
            AppError::Internal(_) => String::from_str("Internal server error"),
            AppError::Io(_) => String::from_str("Internal server error"),
        }
    }
}

} // verus!
