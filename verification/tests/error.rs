use external_buffer::make_custom_error;
use external_buffer::Error;

#[test]
fn test_custom_error_display() {
    let error = std::io::Error::new(std::io::ErrorKind::Other, "Test error");
    let err = make_custom_error(error.to_string());
    assert_eq!(err.message(), "Custom error: Test error");
}

#[test]
fn test_error_messages_name_their_kind() {
    assert_eq!(
        Error::EncodeError("no".to_string()).message(),
        "Encode error: no"
    );
    assert_eq!(
        Error::DecodeError("bad".to_string()).message(),
        "Decode error: bad"
    );
    assert_eq!(Error::SledError("io".to_string()).message(), "Sled error: io");
    assert_eq!(Error::InvalidSledKeyFormat.message(), "Invalid key format");
    assert_eq!(Error::MutexError.message(), "Failed to acquire mutex lock");
}
