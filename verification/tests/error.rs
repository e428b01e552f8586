use openjpeg_rs::error::{Error, Result};

#[test]
fn error_display() {
    let err = Error::InvalidInput("test".to_string());
    let msg = err.to_string();
    assert!(msg.contains("test"));
}

#[test]
fn error_variants() {
    let _ = Error::InvalidInput("msg".to_string());
    let _ = Error::BufferTooSmall;
    let _ = Error::EndOfStream;
    let _ = Error::IoError("io".to_string());
}

#[test]
fn result_type_alias() {
    let ok: Result<i32> = Ok(42);
    assert!(ok.is_ok());

    let err: Result<i32> = Err(Error::BufferTooSmall);
    assert!(err.is_err());
}

#[test]
fn error_messages_name_the_failure() {
    assert_eq!(Error::BufferTooSmall.to_string(), "buffer too small");
    assert_eq!(Error::EndOfStream.to_string(), "end of stream");
    assert_eq!(Error::IoError("disk".to_string()).to_string(), "I/O error: disk");
    assert_eq!(Error::InvalidInput("bad".to_string()).to_string(), "invalid input: bad");
}
