use leb128::read::Error;
use std::io;

#[test]
fn descriptions() {
    assert_eq!(
        Error::UnexpectedEndOfData.description(),
        "Unexpected end of data while reading"
    );
    assert_eq!(
        Error::Overflow.description(),
        "The number being read is larger than can be represented"
    );
}

#[test]
fn messages_name_the_error_type() {
    assert_eq!(
        Error::UnexpectedEndOfData.message(),
        "leb128::read::Error: Unexpected end of data while reading"
    );
    assert_eq!(
        Error::Overflow.message(),
        "leb128::read::Error: The number being read is larger than can be represented"
    );
}

#[test]
fn io_failure_is_carried_along() {
    let err = Error::from(io::Error::new(io::ErrorKind::Other, "the pipe broke"));
    assert!(matches!(err, Error::IoError(_)));
    assert_eq!(err.description(), "the pipe broke");
    assert_eq!(err.message(), "leb128::read::Error: the pipe broke");
    let cause = err.cause().expect("an io failure has a cause");
    assert_eq!(cause.kind(), io::ErrorKind::Other);
    assert_eq!(cause.to_string(), "the pipe broke");
}

#[test]
fn io_failure_converts_with_into() {
    let err: Error = io::Error::from(io::ErrorKind::UnexpectedEof).into();
    match err {
        Error::IoError(e) => assert_eq!(e.kind(), io::ErrorKind::UnexpectedEof),
        other => panic!("not an io failure: {:?}", other),
    }
}

#[test]
fn only_io_failure_has_a_cause() {
    assert!(Error::UnexpectedEndOfData.cause().is_none());
    assert!(Error::Overflow.cause().is_none());
}
