use blaze::errors::{BlazeError, ResultExt};

#[test]
fn test_error_display() {
    let err = BlazeError::Repository("test error".to_string());
    assert_eq!(err.message(), "Repository error: test error");
}

#[test]
fn test_result_ext() {
    let result: std::result::Result<(), std::io::Error> =
        Err(std::io::Error::new(std::io::ErrorKind::NotFound, "test"));

    let blaze_result = result.context("additional context");
    assert!(blaze_result.is_err());
    assert!(blaze_result
        .unwrap_err()
        .message()
        .contains("additional context"));
}

#[test]
fn test_error_kinds() {
    assert_eq!(BlazeError::Io("x".to_string()).message(), "I/O error: x");
    assert_eq!(BlazeError::Chunk("bad".to_string()).message(), "Chunk processing error: bad");
    assert_eq!(BlazeError::Lock("held".to_string()).message(), "Lock file error: held");
    assert_eq!(BlazeError::Validation("v".to_string()).message(), "Validation error: v");
    assert_eq!(BlazeError::Generic("g".to_string()).message(), "Error: g");
}
