//! The errors that decoding reports.

use vstd::prelude::*;
use vstd::string::StringExecFns;

verus! {

/// `core::str::Utf8Error`, carried through as an opaque value.
#[verifier::external_type_specification]
#[verifier::external_body]
pub struct ExUtf8Error(core::str::Utf8Error);

/// `std::io::Error`, carried through as an opaque value.
#[verifier::external_type_specification]
#[verifier::external_body]
pub struct ExIoError(std::io::Error);

/// Error type of this crate.
#[derive(Debug)]
pub enum Error {
    /// Generic error, the catch-all for errors that a driver raises.
    Message(String),
    /// An error of the byte source.
    Io(std::io::Error),
    /// The requested type and the signature do not fit together: the signature
    /// has ended, is not well formed, or asks for something the format cannot
    /// represent.
    IncorrectType,
    /// A string on the wire is not UTF-8.
    Utf8(core::str::Utf8Error),
    /// A padding byte that is not zero; the byte is carried along.
    PaddingNot0(u8),
    /// A file descriptor index that the given table does not hold.
    UnknownFd,
    /// A value outside the range of its type, such as a boolean that is
    /// neither 0 nor 1.
    InvalidValue,
    /// The type code found in the signature, and a description of the codes
    /// that the request accepts.
    InvalidType(char, &'static str),
    /// A declared length that cannot be right: an array ran past the byte
    /// length it declared, an array or a string is longer than the bytes that
    /// are left, or a signature is longer than 255 bytes.
    InvalidLength,
    /// The bytes ended in the middle of a read: of padding, of a field of
    /// fixed size, or in front of the byte that ends a string.
    Eof,
}

/// Equality of `core::str::Utf8Error`, which compares the place and the
/// length of the error: two errors are equal exactly if they are the same
/// value.
#[verifier::external_body]
fn utf8_error_eq(a: &core::str::Utf8Error, b: &core::str::Utf8Error) -> (r: bool)
    ensures
        r == (*a == *b),
{
    a == b
}

/// Equality of `str`: two strings are equal exactly if they hold the same
/// characters.
#[verifier::external_body]
fn str_eq(a: &str, b: &str) -> (r: bool)
    ensures
        r == (a@ == b@),
{
    a == b
}

/// `String::push`: appends one character.
#[verifier::external_body]
fn push_char(s: &mut String, c: char)
    ensures
        final(s)@ == old(s)@.push(c),
{
    s.push(c)
}

/// The `Display` text of a `core::str::Utf8Error`.
#[verifier::external_body]
fn utf8_error_to_string(e: &core::str::Utf8Error) -> (r: String) {
    e.to_string()
}

/// The `Display` text of a `std::io::Error`.
#[verifier::external_body]
fn io_error_to_string(e: &std::io::Error) -> (r: String) {
    e.to_string()
}

impl PartialEq for Error {
    /// Two errors are equal if they are of the same kind and carry the same
    /// data. An `Io` error equals nothing, not even itself.
    fn eq(&self, other: &Self) -> (r: bool) {
        match (self, other) {
            (Error::Message(msg), Error::Message(other)) => str_eq(msg.as_str(), other.as_str()),
            // Io is false
            (Error::IncorrectType, Error::IncorrectType) => true,
            (Error::Utf8(msg), Error::Utf8(other)) => utf8_error_eq(msg, other),
            (Error::PaddingNot0(p), Error::PaddingNot0(other)) => *p == *other,
            (Error::UnknownFd, Error::UnknownFd) => true,
            (Error::InvalidValue, Error::InvalidValue) => true,
            (Error::InvalidType(found, expected), Error::InvalidType(other, wanted)) => *found
                == *other && str_eq(expected, wanted),
            (Error::InvalidLength, Error::InvalidLength) => true,
            (Error::Eof, Error::Eof) => true,
            (_, _) => false,
        }
    }
}

impl vstd::std_specs::cmp::PartialEqSpecImpl for Error {
    open spec fn obeys_eq_spec() -> bool {
        true
    }

    open spec fn eq_spec(&self, other: &Self) -> bool {
        match (self, other) {
            (Error::Message(msg), Error::Message(other)) => msg@ == other@,
            (Error::IncorrectType, Error::IncorrectType) => true,
            (Error::Utf8(msg), Error::Utf8(other)) => msg == other,
            (Error::PaddingNot0(p), Error::PaddingNot0(other)) => p == other,
            (Error::UnknownFd, Error::UnknownFd) => true,
            (Error::InvalidValue, Error::InvalidValue) => true,
            (Error::InvalidType(found, expected), Error::InvalidType(other, wanted)) => found
                == other && expected@ == wanted@,
            (Error::InvalidLength, Error::InvalidLength) => true,
            (Error::Eof, Error::Eof) => true,
            (_, _) => false,
        }
    }
}

/// The character of the decimal digit `d`.
pub open spec fn digit(d: u8) -> char {
    (48 + d) as char
}

/// The decimal digits of `b`.
pub open spec fn decimal(b: u8) -> Seq<char> {
    if b < 10 {
        seq![digit(b)]
    } else if b < 100 {
        seq![digit(b / 10), digit(b % 10)]
    } else {
        seq![digit(b / 100), digit(b / 10 % 10), digit(b % 10)]
    }
}

/// Appends the decimal digits of `b` to `s`.
fn push_decimal(s: &mut String, b: u8)
    ensures
        final(s)@ == old(s)@ + decimal(b),
{
    if b >= 100 {
        push_char(s, (48 + b / 100) as char);
    }
    if b >= 10 {
        push_char(s, (48 + b / 10 % 10) as char);
    }
    push_char(s, (48 + b % 10) as char);
    assert(s@ =~= old(s)@ + decimal(b));
}

impl Error {
    /// The text that describes the error, for every kind but `Io` and `Utf8`,
    /// whose text is that of the error they wrap.
    pub open spec fn text(&self) -> Seq<char> {
        match self {
            Error::Message(s) => s@,
            Error::IncorrectType => "incorrect type"@,
            Error::PaddingNot0(b) => "Unexpected non-0 padding byte `"@ + decimal(*b) + "`"@,
            Error::UnknownFd => "File descriptor not in the given FD index"@,
            Error::InvalidValue => "invalid value"@,
            Error::InvalidType(found, expected) => "invalid type: `"@.push(*found) + "`, expected "@
                + expected@,
            Error::InvalidLength => "invalid length"@,
            Error::Eof => "unexpected end of input"@,
            _ => Seq::empty(),
        }
    }

    /// The text that describes the error.
    pub fn to_string(&self) -> (r: String)
        ensures
            !(self is Io) && !(self is Utf8) ==> r@ == self.text(),
    {
        match self {
            Error::Message(s) => s.clone(),
            Error::Io(e) => io_error_to_string(e),
            Error::IncorrectType => String::from_str("incorrect type"),
            Error::Utf8(e) => utf8_error_to_string(e),
            Error::PaddingNot0(b) => {
                let mut r = String::from_str("Unexpected non-0 padding byte `");
                push_decimal(&mut r, *b);
                r.append("`");
                r
            },
            Error::UnknownFd => String::from_str("File descriptor not in the given FD index"),
            Error::InvalidValue => String::from_str("invalid value"),
            Error::InvalidType(found, expected) => {
                let mut r = String::from_str("invalid type: `");
                push_char(&mut r, *found);
                r.append("`, expected ");
                r.append(expected);
                r
            },
            Error::InvalidLength => String::from_str("invalid length"),
            Error::Eof => String::from_str("unexpected end of input"),
        }
    }

    /// The generic error with the message `msg`.
    pub fn custom(msg: &str) -> (e: Error)
        ensures
            e matches Error::Message(s) && s@ == msg@,
    {
        Error::Message(String::from_str(msg))
    }
}

} // verus!
