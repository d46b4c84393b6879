use thttpd::error::HttpError;

#[test]
fn test_status_codes() {
    assert_eq!(HttpError::BadRequest.status_code(), 400);
    assert_eq!(
        HttpError::Unauthorized {
            realm: "test".into()
        }
        .status_code(),
        401
    );
    assert_eq!(HttpError::Forbidden.status_code(), 403);
    assert_eq!(HttpError::NotFound.status_code(), 404);
    assert_eq!(HttpError::RequestTimeout.status_code(), 408);
    assert_eq!(HttpError::InternalServerError.status_code(), 500);
    assert_eq!(HttpError::NotImplemented.status_code(), 501);
    assert_eq!(HttpError::ServiceUnavailable.status_code(), 503);
}

#[test]
fn status_texts_and_titles() {
    assert_eq!(HttpError::NotFound.status_text(), "Not Found");
    assert_eq!(HttpError::InternalServerError.status_text(), "Internal Server Error");
    assert_eq!(HttpError::BadRequest.title(), HttpError::BadRequest.status_text());
}
