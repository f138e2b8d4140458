use dynamic_bloom::types::Error;
use std::io;

#[test]
fn test_error_display() {
    // Test IO error description
    let io_err = Error::Io(io::Error::new(io::ErrorKind::NotFound, "test error"));
    assert!(io_err.message().contains("I/O error"));

    // Test KeyNotFound error
    let key_err = Error::KeyNotFound(42);
    assert_eq!(key_err.message(), "Key not found: 42");

    // Test InvalidRange error
    let range_err = Error::InvalidRange { start: 10, end: 5 };
    assert_eq!(range_err.message(), "Invalid range: 10 > 5");

    // Test BufferFull error
    let buffer_err = Error::BufferFull;
    assert_eq!(buffer_err.message(), "Buffer is full");
}

#[test]
fn test_error_conversion() {
    // Test conversion from io::Error
    let io_err = io::Error::new(io::ErrorKind::Other, "test error");
    let converted: Error = io_err.into();
    matches!(converted, Error::Io(_));
}

#[test]
fn test_result_type() {
    // Test Result with success
    let success: Result<i32, Error> = Ok(42);
    assert_eq!(success.unwrap(), 42);

    // Test Result with error
    let failure: Result<i32, Error> = Err(Error::BufferFull);
    assert!(failure.is_err());
    matches!(failure.unwrap_err(), Error::BufferFull);
}
