use zvariant::de::Deserializer;
use zvariant::encoding::{ByteOrder, EncodingContext};
use zvariant::error::Error;
use zvariant::signature::Signature;
use zvariant::value::Value;

const SIGNATURE: &[u8] = b"(yqa{sv}x)";

// The structure (1, 2, {"k": 7u32}, -2), little-endian, at offset 0.
const LITTLE: [u8; 32] = [
    1, 0, // y, padding for q
    2, 0, // q
    16, 0, 0, 0, // length of the array
    1, 0, 0, 0, b'k', 0, // the key
    1, b'u', 0, 0, 0, 0, // the signature of the variant, padding for u
    7, 0, 0, 0, // u
    0xFE, 0xFF, 0xFF, 0xFF, 0xFF, 0xFF, 0xFF, 0xFF, // x
];

// The same structure with every scalar written backwards.
const BIG: [u8; 32] = [
    1, 0, // y, padding for q
    0, 2, // q
    0, 0, 0, 16, // length of the array
    0, 0, 0, 1, b'k', 0, // the key
    1, b'u', 0, 0, 0, 0, // the signature of the variant, padding for u
    0, 0, 0, 7, // u
    0xFF, 0xFF, 0xFF, 0xFF, 0xFF, 0xFF, 0xFF, 0xFE, // x
];

fn expected() -> Value<'static> {
    Value::Structure(vec![
        Value::U8(1),
        Value::U16(2),
        Value::Array(vec![Value::DictEntry(
            Box::new(Value::Str("k")),
            Box::new(Value::Variant("u", Box::new(Value::U32(7)))),
        )]),
        Value::I64(-2),
    ])
}

fn decode<'a>(bytes: &'a [u8], order: ByteOrder) -> (Result<Value<'a>, Error>, usize) {
    let sig = Signature { bytes: SIGNATURE };
    let mut de = Deserializer::new(bytes, None, &sig, EncodingContext::new_dbus(order, 0));
    let value = de.deserialize_any();
    (value, de.pos)
}

#[test]
fn an_encoding_is_read_back() {
    assert_eq!(decode(&LITTLE, ByteOrder::LittleEndian), (Ok(expected()), 32));
}

#[test]
fn reading_takes_exactly_the_encoding() {
    let mut longer = LITTLE.to_vec();
    longer.extend_from_slice(&[0xAA, 0xBB, 0xCC]);
    assert_eq!(decode(&longer, ByteOrder::LittleEndian), (Ok(expected()), 32));
    // One byte less than the encoding is not enough.
    assert_eq!(decode(&LITTLE[..31], ByteOrder::LittleEndian), (Err(Error::Eof), 0));
}

#[test]
fn both_byte_orders_give_the_same_value() {
    assert_eq!(decode(&BIG, ByteOrder::BigEndian), (Ok(expected()), 32));
    assert_eq!(
        decode(&BIG, ByteOrder::BigEndian).0,
        decode(&LITTLE, ByteOrder::LittleEndian).0
    );
    // Read in the wrong order the length of the array is far too large.
    assert!(decode(&BIG, ByteOrder::LittleEndian).0.is_err());
}

#[test]
fn every_padding_byte_must_be_zero() {
    for i in [1usize, 17, 18, 19] {
        let mut bad = LITTLE;
        bad[i] = 0x5A;
        assert_eq!(
            decode(&bad, ByteOrder::LittleEndian),
            (Err(Error::PaddingNot0(0x5A)), 0),
            "byte {}",
            i
        );
        bad[i] = 0;
        assert_eq!(decode(&bad, ByteOrder::LittleEndian), (Ok(expected()), 32));
    }
}

#[test]
fn the_first_bad_padding_byte_is_reported() {
    let mut bad = LITTLE;
    bad[17] = 3;
    bad[19] = 4;
    assert_eq!(decode(&bad, ByteOrder::LittleEndian), (Err(Error::PaddingNot0(3)), 0));
}

#[test]
fn an_array_must_fill_its_declared_length() {
    // The array is 16 bytes long. Any shorter length ends inside its one
    // element.
    for len in 1u8..16 {
        let mut bad = LITTLE;
        bad[4] = len;
        assert_eq!(
            decode(&bad, ByteOrder::LittleEndian),
            (Err(Error::InvalidLength), 0),
            "length {}",
            len
        );
    }
    // With no bytes declared the array is empty, and the bytes of the entry
    // are taken for what follows the array.
    let mut empty = LITTLE;
    empty[4] = 0;
    assert_eq!(
        decode(&empty, ByteOrder::LittleEndian),
        (
            Ok(Value::Structure(vec![
                Value::U8(1),
                Value::U16(2),
                Value::Array(vec![]),
                Value::I64(i64::from_le_bytes([1, 0, 0, 0, b'k', 0, 1, b'u'])),
            ])),
            16
        )
    );
}

#[test]
fn an_encoding_at_another_offset_has_other_padding() {
    // At offset 4 the structure needs 4 bytes of padding, and the `x` none.
    let sig = Signature { bytes: b"(yx)" };
    let bytes = [0, 0, 0, 0, 1, 0, 0, 0, 0, 0, 0, 0, 9, 0, 0, 0, 0, 0, 0, 0];
    let mut de = Deserializer::new(
        &bytes,
        None,
        &sig,
        EncodingContext::new_dbus(ByteOrder::LittleEndian, 4),
    );
    assert_eq!(de.deserialize_any(), Ok(Value::Structure(vec![Value::U8(1), Value::I64(9)])));
    assert_eq!(de.pos, 20);
    let mut de = Deserializer::new(
        &bytes[4..],
        None,
        &sig,
        EncodingContext::new_dbus(ByteOrder::LittleEndian, 0),
    );
    assert_eq!(de.deserialize_any(), Ok(Value::Structure(vec![Value::U8(1), Value::I64(9)])));
    assert_eq!(de.pos, 16);
}
