//! The errors an API request can end in, and the HTTP status each is
//! answered with.

use vstd::prelude::*;

verus! {

/// Why an API request was refused or failed.
#[derive(Debug, Clone, PartialEq, Eq)]
pub enum AppError {
    /// No forward-auth user vouched for the request.
    Unauthorized,
    /// The requested file is unknown, or not a regular file inside the root.
    NotFound,
    /// The request itself is malformed; the message says how.
    BadRequest(String),
    /// The request would overwrite something; the message says what.
    Conflict(String),
    /// Anything else went wrong; the message describes it.
    Internal(String),
}

/// The HTTP status each error is answered with.
pub open spec fn spec_status_code(e: AppError) -> u16 {
    match e {
        AppError::Unauthorized => 401,
        AppError::NotFound => 404,
        AppError::BadRequest(_) => 400,
        AppError::Conflict(_) => 409,
        AppError::Internal(_) => 500,
    }
}

impl AppError {
    /// The HTTP status code this error is answered with.
    pub fn status_code(&self) -> (res: u16)
        ensures
            res == spec_status_code(*self),
    {
        match self {
            AppError::Unauthorized => 401,
            AppError::NotFound => 404,
            AppError::BadRequest(_) => 400,
            AppError::Conflict(_) => 409,
            AppError::Internal(_) => 500,
        }
    }

    /// The text sent with the error: its message, or a fixed phrase for the
    /// variants that carry none.
    pub fn message(&self) -> (res: String)
        ensures
            match *self {
                AppError::Unauthorized => res@ == "unauthorized"@,
                AppError::NotFound => res@ == "not found"@,
                AppError::BadRequest(m) => res@ == m@,
                AppError::Conflict(m) => res@ == m@,
                AppError::Internal(m) => res@ == m@,
            },
    {
        match self {
            AppError::Unauthorized => String::from_str("unauthorized"),
            AppError::NotFound => String::from_str("not found"),
            AppError::BadRequest(m) => m.clone(),
            AppError::Conflict(m) => m.clone(),
            AppError::Internal(m) => m.clone(),
        }
    }
}

} // verus!
