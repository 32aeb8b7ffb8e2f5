//! Edge-trust auth. The collection is a single shared library with no
//! per-user state, so the server runs no login of its own: behind
//! oauth2-proxy forward-auth it only asserts that the edge vouched for the
//! request with a non-empty `X-Auth-Request-User` header, and answers 401
//! otherwise. Open mode (`DEV_AUTH=1`) skips the check.

use vstd::prelude::*;

use crate::error::AppError;

verus! {

/// Zero-sized proof that a request is authenticated. Every `/api/*` handler
/// requires one; there is no identity to carry because data isn't per-user.
#[derive(Debug, Clone, Copy, PartialEq, Eq)]
pub struct Auth;

/// Whether a request is let through: in open mode always, else only when the
/// forward-auth user header is present and non-empty.
pub open spec fn spec_admits(open_mode: bool, user: Option<Seq<char>>) -> bool {
    open_mode || (user matches Some(u) && u.len() > 0)
}

/// Let a request through or refuse it. `open_mode` skips the check; `user`
/// is the value of the `X-Auth-Request-User` header, `None` when the header
/// is absent or holds more than visible ASCII.
pub fn authorize(open_mode: bool, user: Option<&str>) -> (res: Result<Auth, AppError>)
    ensures
        res is Ok <==> spec_admits(
            open_mode,
            match user {
                Some(u) => Some(u@),
                None => None,
            },
        ),
        res is Err ==> res == Err::<Auth, AppError>(AppError::Unauthorized),
{
    if open_mode {
        return Ok(Auth);
    }
    match user {
        Some(u) => {
            if !u.is_empty() {
                Ok(Auth)
            } else {
                Err(AppError::Unauthorized)
            }
        },
        None => Err(AppError::Unauthorized),
    }
}

} // verus!
