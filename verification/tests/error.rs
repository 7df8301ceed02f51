use khadyota::error::{decimal, KhadyotaError};

#[test]
fn decimal_renders_numbers() {
    assert_eq!(decimal(0), "0");
    assert_eq!(decimal(7), "7");
    assert_eq!(decimal(10), "10");
    assert_eq!(decimal(1234567890), "1234567890");
    assert_eq!(decimal(u64::MAX), u64::MAX.to_string());
}

#[test]
fn errors_have_their_messages() {
    assert_eq!(
        KhadyotaError::DimensionMismatch { expected: 128, got: 64 }.message(),
        "Invalid vector dimension: expected 128, got 64"
    );
    assert_eq!(KhadyotaError::VectorNotFound(42).message(), "Vector not found: 42");
    assert_eq!(
        KhadyotaError::InvalidConfig("bad".to_string()).message(),
        "Invalid configuration: bad"
    );
    assert_eq!(
        KhadyotaError::SerializationError("frame".to_string()).message(),
        "Serialization error: frame"
    );
    assert_eq!(KhadyotaError::IoError("disk".to_string()).message(), "IO error: disk");
    assert_eq!(KhadyotaError::BincodeError("eof".to_string()).message(), "Bincode error: eof");
    assert_eq!(
        KhadyotaError::IndexNotBuilt.message(),
        "Index not built. Call build_index() first."
    );
}
