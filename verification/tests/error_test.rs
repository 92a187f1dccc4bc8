use posixfy_bridge::error::AppError;

/// The status code of an error's response.
fn status_of(err: AppError) -> u16 {
    err.status_code()
}

#[test]
fn not_found_returns_404() {
    assert_eq!(status_of(AppError::NotFound), 404);
}

#[test]
fn unauthorized_returns_401() {
    assert_eq!(status_of(AppError::Unauthorized), 401);
}

#[test]
fn forbidden_returns_403() {
    assert_eq!(status_of(AppError::Forbidden), 403);
}

#[test]
fn bad_request_returns_400() {
    assert_eq!(status_of(AppError::BadRequest("test".into())), 400);
}

#[test]
fn conflict_returns_409() {
    assert_eq!(status_of(AppError::Conflict("test".into())), 409);
}

#[test]
fn internal_returns_500() {
    assert_eq!(status_of(AppError::Internal("test".into())), 500);
}

#[test]
fn io_error_returns_500() {
    let io_err = std::io::Error::new(std::io::ErrorKind::Other, "disk failure");
    assert_eq!(status_of(AppError::Io(io_err)), 500);
}

#[test]
fn error_messages_hide_internal_details() {
    assert_eq!(AppError::NotFound.message(), "Not found");
    assert_eq!(AppError::Unauthorized.message(), "Unauthorized");
    assert_eq!(AppError::Forbidden.message(), "Forbidden");
    assert_eq!(AppError::BadRequest("x".into()).message(), "Bad request: x");
    assert_eq!(AppError::Conflict("y".into()).message(), "Conflict: y");
    assert_eq!(AppError::Internal("secret".into()).message(), "Internal server error");
    let io_err = std::io::Error::new(std::io::ErrorKind::Other, "disk failure");
    assert_eq!(AppError::Io(io_err).message(), "Internal server error");
}
