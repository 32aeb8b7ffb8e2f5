use tracker_backend::auth::authorize;
use tracker_backend::error::AppError;

#[test]
fn rejects_without_header_in_prod() {
    assert!(matches!(authorize(false, None), Err(AppError::Unauthorized)));
}

#[test]
fn accepts_forward_auth_header() {
    assert!(authorize(false, Some("alice")).is_ok());
}

#[test]
fn dev_auth_bypasses() {
    assert!(authorize(true, None).is_ok());
}

#[test]
fn empty_forward_auth_header_is_rejected() {
    assert!(matches!(authorize(false, Some("")), Err(AppError::Unauthorized)));
    assert!(authorize(true, Some("")).is_ok());
}

#[test]
fn status_codes_of_errors() {
    assert_eq!(AppError::Unauthorized.status_code(), 401);
    assert_eq!(AppError::NotFound.status_code(), 404);
    assert_eq!(AppError::BadRequest("x".into()).status_code(), 400);
    assert_eq!(AppError::Conflict("x".into()).status_code(), 409);
    assert_eq!(AppError::Internal("x".into()).status_code(), 500);
    assert_eq!(AppError::Conflict("busy".into()).message(), "busy");
    assert_eq!(AppError::NotFound.message(), "not found");
}
