use zvariant::de::Deserializer;
use zvariant::encoding::{ByteOrder, EncodingContext};
use zvariant::error::Error;
use zvariant::signature::Signature;
use zvariant::value::Value;

fn le() -> EncodingContext {
    EncodingContext::new_dbus(ByteOrder::LittleEndian, 0)
}

#[test]
fn byte_is_read_as_u8() {
    let sig = Signature::try_from_bytes(b"y").unwrap();
    let bytes = [0x2Au8];
    let mut de = Deserializer::new(&bytes, None, &sig, le());
    assert_eq!(de.deserialize_u8().unwrap(), 42);
    assert_eq!(de.pos, 1);
}

#[test]
fn string_is_read_with_its_length_and_nul() {
    let sig = Signature::try_from_bytes(b"s").unwrap();
    let bytes = [0x05, 0, 0, 0, b'h', b'e', b'l', b'l', b'o', 0];
    let mut de = Deserializer::new(&bytes, None, &sig, le());
    assert_eq!(de.deserialize_str().unwrap(), "hello");
    assert_eq!(de.pos, 10);
}

#[test]
fn bool_then_string() {
    let sig = Signature::try_from_bytes(b"bs").unwrap();
    let bytes = [0x01, 0, 0, 0, 0x05, 0, 0, 0, b'h', b'e', b'l', b'l', b'o', 0];
    let mut de = Deserializer::new(&bytes, None, &sig, le());
    assert!(de.deserialize_bool().unwrap());
    assert_eq!(de.deserialize_str().unwrap(), "hello");
    assert_eq!(de.pos, 14);
}

#[test]
fn array_of_int32() {
    let sig = Signature::try_from_bytes(b"ai").unwrap();
    let bytes = [0x08, 0, 0, 0, 0x01, 0, 0, 0, 0x02, 0, 0, 0];
    let mut de = Deserializer::new(&bytes, None, &sig, le());
    let v = de.deserialize_any().unwrap();
    assert_eq!(v, Value::Array(vec![Value::I32(1), Value::I32(2)]));
    assert_eq!(de.pos, 12);
}

#[test]
fn dict_of_string_to_variant() {
    let sig = Signature::try_from_bytes(b"a{sv}").unwrap();
    let bytes = [
        16, 0, 0, 0, 0, 0, 0, 0, 1, 0, 0, 0, b'k', 0, 1, b'u', 0, 0, 0, 0, 7, 0, 0, 0,
    ];
    let mut de = Deserializer::new(&bytes, None, &sig, le());
    let v = de.deserialize_any().unwrap();
    assert_eq!(
        v,
        Value::Array(vec![Value::DictEntry(
            Box::new(Value::Str("k")),
            Box::new(Value::Variant("u", Box::new(Value::U32(7)))),
        )])
    );
    assert_eq!(de.pos, 24);
}

#[test]
fn bool_out_of_range_is_invalid_value() {
    let sig = Signature::try_from_bytes(b"b").unwrap();
    let bytes = [0x02, 0, 0, 0];
    let mut de = Deserializer::new(&bytes, None, &sig, le());
    assert!(matches!(de.deserialize_bool(), Err(Error::InvalidValue)));
}

#[test]
fn structure_of_byte_and_int32() {
    let sig = Signature::try_from_bytes(b"(yi)").unwrap();
    let bytes = [0x01, 0, 0, 0, 0x05, 0, 0, 0];
    let mut de = Deserializer::new(&bytes, None, &sig, le());
    let v = de.deserialize_any().unwrap();
    assert_eq!(v, Value::Structure(vec![Value::U8(1), Value::I32(5)]));
    assert_eq!(de.pos, 8);
    for i in 1..4 {
        let mut bad = bytes;
        bad[i] = 9;
        let mut de = Deserializer::new(&bad, None, &sig, le());
        assert!(matches!(de.deserialize_any(), Err(Error::PaddingNot0(9))));
    }
}
