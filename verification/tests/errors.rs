use fd_api::dto::is_zero;
use fd_api::error::ApiError;

#[test]
fn every_error_answers_with_its_own_status_and_its_sentence() {
    let cases = [
        (ApiError::BadRequest("bad".to_string()), 400u16, "bad"),
        (ApiError::NoData("empty".to_string()), 404, "empty"),
        (ApiError::NotFound("gone".to_string()), 404, "gone"),
        (ApiError::Conflict("two".to_string()), 409, "two"),
        (ApiError::Internal("oops".to_string()), 500, "oops"),
    ];
    for (e, status, text) in cases.iter() {
        assert_eq!(e.status(), *status);
        assert_eq!(e.message(), text);
    }
}

#[test]
fn zero_is_left_out_of_the_wire() {
    assert!(is_zero(&0));
    assert!(!is_zero(&3));
}
