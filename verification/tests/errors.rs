use zvariant::error::Error;

fn utf8_error(bytes: &[u8]) -> std::str::Utf8Error {
    std::str::from_utf8(bytes).unwrap_err()
}

#[test]
fn errors_of_the_same_kind_and_data_are_equal() {
    assert_eq!(Error::Message("a".to_string()), Error::Message("a".to_string()));
    assert_ne!(Error::Message("a".to_string()), Error::Message("b".to_string()));
    assert_eq!(Error::IncorrectType, Error::IncorrectType);
    assert_eq!(Error::PaddingNot0(3), Error::PaddingNot0(3));
    assert_ne!(Error::PaddingNot0(3), Error::PaddingNot0(4));
    assert_eq!(Error::UnknownFd, Error::UnknownFd);
    assert_eq!(Error::InvalidValue, Error::InvalidValue);
    assert_eq!(Error::InvalidType('s', "`u`"), Error::InvalidType('s', "`u`"));
    assert_ne!(Error::InvalidType('s', "`u`"), Error::InvalidType('o', "`u`"));
    assert_ne!(Error::InvalidType('s', "`u`"), Error::InvalidType('s', "`y`"));
    assert_eq!(Error::InvalidLength, Error::InvalidLength);
    assert_eq!(Error::Eof, Error::Eof);
    assert_eq!(Error::Utf8(utf8_error(&[0xC3, 0x28])), Error::Utf8(utf8_error(&[0xC3, 0x28])));
    assert_ne!(Error::Utf8(utf8_error(&[0xC3, 0x28])), Error::Utf8(utf8_error(&[b'a', 0xFF])));
}

#[test]
fn errors_of_different_kinds_differ() {
    assert_ne!(Error::IncorrectType, Error::UnknownFd);
    assert_ne!(Error::InvalidValue, Error::InvalidLength);
    assert_ne!(Error::Eof, Error::InvalidLength);
    assert_ne!(Error::Message("incorrect type".to_string()), Error::IncorrectType);
    assert_ne!(Error::PaddingNot0(0), Error::Eof);
}

#[test]
fn io_errors_are_never_equal() {
    let a = Error::Io(std::io::Error::new(std::io::ErrorKind::Other, "x"));
    let b = Error::Io(std::io::Error::new(std::io::ErrorKind::Other, "x"));
    assert!(a != b);
    assert!(a != a);
}

#[test]
fn error_texts() {
    assert_eq!(Error::Message("boom".to_string()).to_string(), "boom");
    assert_eq!(Error::IncorrectType.to_string(), "incorrect type");
    assert_eq!(Error::PaddingNot0(0).to_string(), "Unexpected non-0 padding byte `0`");
    assert_eq!(Error::PaddingNot0(7).to_string(), "Unexpected non-0 padding byte `7`");
    assert_eq!(Error::PaddingNot0(42).to_string(), "Unexpected non-0 padding byte `42`");
    assert_eq!(Error::PaddingNot0(100).to_string(), "Unexpected non-0 padding byte `100`");
    assert_eq!(Error::PaddingNot0(255).to_string(), "Unexpected non-0 padding byte `255`");
    assert_eq!(Error::UnknownFd.to_string(), "File descriptor not in the given FD index");
    assert_eq!(Error::InvalidValue.to_string(), "invalid value");
    assert_eq!(
        Error::InvalidType('s', "`u`").to_string(),
        "invalid type: `s`, expected `u`"
    );
    assert_eq!(Error::InvalidLength.to_string(), "invalid length");
    assert_eq!(Error::Eof.to_string(), "unexpected end of input");
}

#[test]
fn wrapped_errors_speak_for_themselves() {
    let inner = utf8_error(&[0xC3, 0x28]);
    assert_eq!(Error::Utf8(inner).to_string(), format!("{}", inner));
    let io = std::io::Error::new(std::io::ErrorKind::Other, "disk on fire");
    assert_eq!(Error::Io(io).to_string(), "disk on fire");
}

#[test]
fn custom_error_carries_its_message() {
    assert_eq!(Error::custom("no such field"), Error::Message("no such field".to_string()));
}
