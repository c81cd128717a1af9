use zvariant::de::Deserializer;
use zvariant::encoding::{ByteOrder, EncodingContext};
use zvariant::error::Error;
use zvariant::signature::Signature;
use zvariant::value::Value;

fn le() -> EncodingContext {
    EncodingContext::new_dbus(ByteOrder::LittleEndian, 0)
}

#[test]
fn string_big_endian_with_padding() {
    let sig = Signature::try_from_bytes(b"ys").unwrap();
    let bytes = [9, 0, 0, 0, 0, 0, 0, 2, b'h', b'i', 0];
    let mut de =
        Deserializer::new(&bytes, None, &sig, EncodingContext::new_dbus(ByteOrder::BigEndian, 0));
    assert_eq!(de.deserialize_u8(), Ok(9));
    assert_eq!(de.deserialize_str(), Ok("hi"));
    assert_eq!(de.pos, 11);
    assert_eq!(de.sig_parser.pos, 2);
}

#[test]
fn empty_string() {
    let sig = Signature::try_from_bytes(b"s").unwrap();
    let bytes = [0, 0, 0, 0, 0];
    let mut de = Deserializer::new(&bytes, None, &sig, le());
    assert_eq!(de.deserialize_str(), Ok(""));
    assert_eq!(de.pos, 5);
}

#[test]
fn string_with_multibyte_characters() {
    let sig = Signature::try_from_bytes(b"s").unwrap();
    let text = "gr\u{fc}\u{df}e";
    let mut bytes = vec![text.len() as u8, 0, 0, 0];
    bytes.extend_from_slice(text.as_bytes());
    bytes.push(0);
    let mut de = Deserializer::new(&bytes, None, &sig, le());
    assert_eq!(de.deserialize_str(), Ok(text));
    assert_eq!(de.pos, 4 + 7 + 1);
}

#[test]
fn object_path_is_read_like_a_string() {
    let sig = Signature::try_from_bytes(b"o").unwrap();
    let bytes = [2, 0, 0, 0, b'/', b'a', 0];
    let mut de = Deserializer::new(&bytes, None, &sig, le());
    assert_eq!(de.deserialize_any(), Ok(Value::ObjectPath("/a")));
    assert_eq!(de.pos, 7);
}

#[test]
fn signature_has_a_one_byte_length_and_no_padding() {
    let sig = Signature::try_from_bytes(b"yg").unwrap();
    let bytes = [1, 5, b'a', b'{', b's', b'v', b'}', 0];
    let mut de = Deserializer::new(&bytes, None, &sig, le());
    assert_eq!(de.deserialize_u8(), Ok(1));
    assert_eq!(de.deserialize_str(), Ok("a{sv}"));
    assert_eq!(de.pos, 8);
    let mut de = Deserializer::new(&bytes[1..], None, &Signature::try_from_bytes(b"g").unwrap(), le());
    assert_eq!(de.deserialize_any(), Ok(Value::Signature("a{sv}")));
}

#[test]
fn malformed_signature_value_is_incorrect_type() {
    let sig = Signature::try_from_bytes(b"g").unwrap();
    let bytes = [2, b'a', b'{', 0];
    let mut de = Deserializer::new(&bytes, None, &sig, le());
    assert_eq!(de.deserialize_str(), Err(Error::IncorrectType));
    assert_eq!(de.pos, 0);
}

#[test]
fn invalid_utf8_is_reported() {
    let sig = Signature::try_from_bytes(b"s").unwrap();
    let bytes = [2, 0, 0, 0, 0xC3, 0x28, 0];
    let mut de = Deserializer::new(&bytes, None, &sig, le());
    let expected = std::str::from_utf8(&[0xC3, 0x28]).unwrap_err();
    assert_eq!(de.deserialize_str(), Err(Error::Utf8(expected)));
    assert_eq!(de.pos, 0);
    assert_eq!(de.sig_parser.pos, 0);
}

#[test]
fn string_needs_its_terminator() {
    let sig = Signature::try_from_bytes(b"s").unwrap();
    let bytes = [2, 0, 0, 0, b'h', b'i'];
    let mut de = Deserializer::new(&bytes, None, &sig, le());
    assert_eq!(de.deserialize_str(), Err(Error::Eof));
    assert_eq!(de.pos, 0);
}

#[test]
fn string_longer_than_the_bytes_is_invalid() {
    let sig = Signature::try_from_bytes(b"s").unwrap();
    let bytes = [9, 0, 0, 0, b'h', b'i', 0];
    let mut de = Deserializer::new(&bytes, None, &sig, le());
    assert_eq!(de.deserialize_str(), Err(Error::InvalidLength));
    assert_eq!(de.pos, 0);
    let sig = Signature::try_from_bytes(b"g").unwrap();
    let bytes = [3, b'y', b'y'];
    let mut de = Deserializer::new(&bytes, None, &sig, le());
    assert_eq!(de.deserialize_str(), Err(Error::InvalidLength));
    let bytes = [2, b'y', b'y'];
    let mut de = Deserializer::new(&bytes, None, &sig, le());
    assert_eq!(de.deserialize_str(), Err(Error::Eof));
    let mut de = Deserializer::new(&bytes[..0], None, &sig, le());
    assert_eq!(de.deserialize_str(), Err(Error::Eof));
}

#[test]
fn terminator_is_not_looked_at() {
    let sig = Signature::try_from_bytes(b"s").unwrap();
    let bytes = [2, 0, 0, 0, b'h', b'i', 0x55];
    let mut de = Deserializer::new(&bytes, None, &sig, le());
    assert_eq!(de.deserialize_str(), Ok("hi"));
    assert_eq!(de.pos, 7);
}

#[test]
fn string_request_on_a_number_is_invalid_type() {
    let sig = Signature::try_from_bytes(b"u").unwrap();
    let bytes = [0, 0, 0, 0, 0];
    let mut de = Deserializer::new(&bytes, None, &sig, le());
    assert_eq!(de.deserialize_str(), Err(Error::InvalidType('u', "`s`, `g`, `o` or `v`")));
}

#[test]
fn string_padding_must_be_zero() {
    let sig = Signature::try_from_bytes(b"ys").unwrap();
    let bytes = [9, 0, 3, 0, 0, 0, 0, 0, 0];
    let mut de = Deserializer::new(&bytes, None, &sig, le());
    assert_eq!(de.deserialize_u8(), Ok(9));
    assert_eq!(de.deserialize_str(), Err(Error::PaddingNot0(3)));
    assert_eq!(de.pos, 1);
}
