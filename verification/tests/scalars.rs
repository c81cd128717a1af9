use zvariant::de::Deserializer;
use zvariant::encoding::{ByteOrder, EncodingContext, EncodingFormat};
use zvariant::endian::{read_i16, read_i32, read_i64, read_u16, read_u32, read_u64};
use zvariant::error::Error;
use zvariant::signature::Signature;
use zvariant::value::Value;

fn ctxt(order: ByteOrder, position: u64) -> EncodingContext {
    EncodingContext::new_dbus(order, position)
}

#[test]
fn read_u16_in_both_orders() {
    assert_eq!(read_u16(ByteOrder::LittleEndian, &[0x34, 0x12]), 0x1234);
    assert_eq!(read_u16(ByteOrder::BigEndian, &[0x34, 0x12]), 0x3412);
}

#[test]
fn read_u32_in_both_orders() {
    let bytes = [0x78, 0x56, 0x34, 0x12];
    assert_eq!(read_u32(ByteOrder::LittleEndian, &bytes), 0x1234_5678);
    assert_eq!(read_u32(ByteOrder::BigEndian, &bytes), 0x7856_3412);
}

#[test]
fn read_u64_in_both_orders() {
    let bytes = [1, 2, 3, 4, 5, 6, 7, 8];
    assert_eq!(read_u64(ByteOrder::LittleEndian, &bytes), 0x0807_0605_0403_0201);
    assert_eq!(read_u64(ByteOrder::BigEndian, &bytes), 0x0102_0304_0506_0708);
}

#[test]
fn read_i16_is_twos_complement() {
    assert_eq!(read_i16(ByteOrder::LittleEndian, &[0xFF, 0xFE]), -257);
    assert_eq!(read_i16(ByteOrder::BigEndian, &[0xFF, 0xFE]), -2);
    assert_eq!(read_i16(ByteOrder::LittleEndian, &[0x00, 0x80]), i16::MIN);
}

#[test]
fn read_i32_is_twos_complement() {
    assert_eq!(read_i32(ByteOrder::LittleEndian, &[0xFE, 0xFF, 0xFF, 0xFF]), -2);
    assert_eq!(read_i32(ByteOrder::BigEndian, &[0xFF, 0xFF, 0xFF, 0xFE]), -2);
    assert_eq!(read_i32(ByteOrder::BigEndian, &[0x80, 0, 0, 0]), i32::MIN);
}

#[test]
fn read_i64_is_twos_complement() {
    assert_eq!(
        read_i64(ByteOrder::LittleEndian, &[0xFD, 0xFF, 0xFF, 0xFF, 0xFF, 0xFF, 0xFF, 0xFF]),
        -3
    );
    assert_eq!(read_i64(ByteOrder::BigEndian, &[0x80, 0, 0, 0, 0, 0, 0, 0]), i64::MIN);
}

#[test]
fn reads_take_only_the_leading_bytes() {
    assert_eq!(read_u16(ByteOrder::LittleEndian, &[1, 0, 9, 9]), 1);
    assert_eq!(read_u32(ByteOrder::BigEndian, &[0, 0, 0, 2, 9]), 2);
}

#[test]
fn context_getters() {
    let c = EncodingContext::new(EncodingFormat::GVariant, ByteOrder::BigEndian, 7);
    assert_eq!(c.format(), EncodingFormat::GVariant);
    assert_eq!(c.byte_order(), ByteOrder::BigEndian);
    assert_eq!(c.position(), 7);
    assert_eq!(
        EncodingContext::new_gvariant(ByteOrder::BigEndian, 7),
        EncodingContext::new(EncodingFormat::GVariant, ByteOrder::BigEndian, 7)
    );
    assert_eq!(EncodingContext::new_dbus(ByteOrder::LittleEndian, 3).format(), EncodingFormat::DBus);
}

#[test]
fn new_deserializer_starts_at_zero() {
    let sig = Signature::try_from_bytes(b"u").unwrap();
    let bytes = [1u8, 2, 3, 4];
    let fds = [5, 6];
    let de = Deserializer::new(&bytes, Some(&fds), &sig, ctxt(ByteOrder::BigEndian, 16));
    assert_eq!(de.pos, 0);
    assert_eq!(de.bytes, &bytes);
    assert_eq!(de.fds, Some(&fds[..]));
    assert_eq!(de.sig_parser.pos, 0);
    assert_eq!(de.ctxt.position, 16);
}

#[test]
fn u16_after_padding() {
    let sig = Signature::try_from_bytes(b"yq").unwrap();
    let bytes = [7u8, 0, 0x34, 0x12];
    let mut de = Deserializer::new(&bytes, None, &sig, ctxt(ByteOrder::LittleEndian, 0));
    assert_eq!(de.deserialize_u8().unwrap(), 7);
    assert_eq!(de.deserialize_u16().unwrap(), 0x1234);
    assert_eq!(de.pos, 4);
    assert_eq!(de.sig_parser.pos, 2);
}

#[test]
fn i16_and_i8_requests() {
    let sig = Signature::try_from_bytes(b"nn").unwrap();
    let bytes = [0xFE, 0xFF, 0x05, 0x00];
    let mut de = Deserializer::new(&bytes, None, &sig, ctxt(ByteOrder::LittleEndian, 0));
    assert_eq!(de.deserialize_i16().unwrap(), -2);
    assert_eq!(de.deserialize_i8().unwrap(), 5);
    assert_eq!(de.pos, 4);
}

#[test]
fn u32_big_endian() {
    let sig = Signature::try_from_bytes(b"u").unwrap();
    let bytes = [0, 0, 1, 2];
    let mut de = Deserializer::new(&bytes, None, &sig, ctxt(ByteOrder::BigEndian, 0));
    assert_eq!(de.deserialize_u32().unwrap(), 258);
    assert_eq!(de.pos, 4);
}

#[test]
fn i32_plain() {
    let sig = Signature::try_from_bytes(b"i").unwrap();
    let bytes = [0xFF, 0xFF, 0xFF, 0xFF];
    let mut de = Deserializer::new(&bytes, None, &sig, ctxt(ByteOrder::LittleEndian, 0));
    assert_eq!(de.deserialize_i32().unwrap(), -1);
}

#[test]
fn i64_and_u64() {
    let sig = Signature::try_from_bytes(b"xt").unwrap();
    let mut bytes = vec![0xFFu8; 8];
    bytes.extend_from_slice(&[1, 0, 0, 0, 0, 0, 0, 0x80]);
    let mut de = Deserializer::new(&bytes, None, &sig, ctxt(ByteOrder::LittleEndian, 0));
    assert_eq!(de.deserialize_i64().unwrap(), -1);
    assert_eq!(de.deserialize_u64().unwrap(), 0x8000_0000_0000_0001);
    assert_eq!(de.pos, 16);
}

#[test]
fn double_is_handed_out_as_bits() {
    let sig = Signature::try_from_bytes(b"d").unwrap();
    let bytes = 1.5f64.to_le_bytes();
    let mut de = Deserializer::new(&bytes, None, &sig, ctxt(ByteOrder::LittleEndian, 0));
    let bits = de.deserialize_f64().unwrap();
    assert_eq!(bits, 0x3FF8_0000_0000_0000);
    assert_eq!(f64::from_bits(bits), 1.5);
    let bytes = 1.5f64.to_be_bytes();
    let mut de = Deserializer::new(&bytes, None, &sig, ctxt(ByteOrder::BigEndian, 0));
    assert_eq!(f64::from_bits(de.deserialize_f64().unwrap()), 1.5);
}

#[test]
fn alignment_counts_from_the_absolute_position() {
    // The slice starts at offset 6 of the stream, so a u32 needs 2 bytes of
    // padding, not none.
    let sig = Signature::try_from_bytes(b"u").unwrap();
    let bytes = [0, 0, 9, 0, 0, 0];
    let mut de = Deserializer::new(&bytes, None, &sig, ctxt(ByteOrder::LittleEndian, 6));
    assert_eq!(de.deserialize_u32().unwrap(), 9);
    assert_eq!(de.pos, 6);
    let mut at_zero = Deserializer::new(&bytes, None, &sig, ctxt(ByteOrder::LittleEndian, 0));
    assert_eq!(at_zero.deserialize_u32().unwrap(), 0x0009_0000);
    assert_eq!(at_zero.pos, 4);
}

#[test]
fn fd_is_looked_up_in_the_table() {
    let sig = Signature::try_from_bytes(b"h").unwrap();
    let bytes = [1, 0, 0, 0];
    let fds = [10, 42];
    let mut de = Deserializer::new(&bytes, Some(&fds), &sig, ctxt(ByteOrder::LittleEndian, 0));
    assert_eq!(de.deserialize_i32().unwrap(), 42);
    assert_eq!(de.pos, 4);
    let mut de = Deserializer::new(&bytes, Some(&fds), &sig, ctxt(ByteOrder::LittleEndian, 0));
    assert_eq!(de.deserialize_any().unwrap(), Value::Fd(42));
}

#[test]
fn fd_without_table_is_unknown() {
    let sig = Signature::try_from_bytes(b"h").unwrap();
    let bytes = [0, 0, 0, 0];
    let mut de = Deserializer::new(&bytes, None, &sig, ctxt(ByteOrder::LittleEndian, 0));
    assert_eq!(de.deserialize_i32(), Err(Error::UnknownFd));
    assert_eq!(de.pos, 0);
    assert_eq!(de.sig_parser.pos, 0);
}

#[test]
fn fd_out_of_range_is_unknown() {
    let sig = Signature::try_from_bytes(b"h").unwrap();
    let bytes = [2, 0, 0, 0];
    let fds = [10, 42];
    let mut de = Deserializer::new(&bytes, Some(&fds), &sig, ctxt(ByteOrder::LittleEndian, 0));
    assert_eq!(de.deserialize_i32(), Err(Error::UnknownFd));
    assert_eq!(de.get_fd(1), Ok(42));
    assert_eq!(de.get_fd(2), Err(Error::UnknownFd));
}

#[test]
fn bool_values() {
    let sig = Signature::try_from_bytes(b"bb").unwrap();
    let bytes = [0, 0, 0, 0, 0, 0, 0, 1];
    let mut de = Deserializer::new(&bytes, None, &sig, ctxt(ByteOrder::BigEndian, 0));
    assert_eq!(de.deserialize_bool(), Ok(false));
    assert_eq!(de.deserialize_bool(), Ok(true));
    // Read in the other byte order, the second is 0x0100_0000.
    let mut de = Deserializer::new(&bytes[4..], None, &sig, ctxt(ByteOrder::LittleEndian, 4));
    assert_eq!(de.deserialize_bool(), Err(Error::InvalidValue));
    assert_eq!(de.pos, 0);
}

#[test]
fn wrong_code_is_invalid_type() {
    let sig = Signature::try_from_bytes(b"s").unwrap();
    let bytes = [1, 0, 0, 0];
    let mut de = Deserializer::new(&bytes, None, &sig, ctxt(ByteOrder::LittleEndian, 0));
    assert_eq!(de.deserialize_u32(), Err(Error::InvalidType('s', "`u`")));
    assert_eq!(de.deserialize_u8(), Err(Error::InvalidType('s', "`y`")));
    assert_eq!(de.deserialize_bool(), Err(Error::InvalidType('s', "`b`")));
    assert_eq!(de.deserialize_i16(), Err(Error::InvalidType('s', "`n`")));
    assert_eq!(de.deserialize_u16(), Err(Error::InvalidType('s', "`q`")));
    assert_eq!(de.deserialize_i32(), Err(Error::InvalidType('s', "`i` or `h`")));
    assert_eq!(de.deserialize_i64(), Err(Error::InvalidType('s', "`x`")));
    assert_eq!(de.deserialize_u64(), Err(Error::InvalidType('s', "`t`")));
    assert_eq!(de.deserialize_f64(), Err(Error::InvalidType('s', "`d`")));
    assert!(matches!(de.deserialize_seq(), Err(Error::InvalidType('s', "`v`, `a` or `(`"))));
    assert_eq!(de.pos, 0);
}

#[test]
fn exhausted_signature_is_incorrect_type() {
    let sig = Signature::try_from_bytes(b"y").unwrap();
    let bytes = [1, 2];
    let mut de = Deserializer::new(&bytes, None, &sig, ctxt(ByteOrder::LittleEndian, 0));
    assert_eq!(de.deserialize_u8(), Ok(1));
    assert_eq!(de.deserialize_u8(), Err(Error::IncorrectType));
    assert_eq!(de.deserialize_str(), Err(Error::IncorrectType));
    assert_eq!(de.deserialize_any(), Err(Error::IncorrectType));
    assert_eq!(de.pos, 1);
}

#[test]
fn truncated_scalar_is_eof() {
    let sig = Signature::try_from_bytes(b"u").unwrap();
    let bytes = [1, 0, 0];
    let mut de = Deserializer::new(&bytes, None, &sig, ctxt(ByteOrder::LittleEndian, 0));
    assert_eq!(de.deserialize_u32(), Err(Error::Eof));
    // Padding that ends early is the end of the bytes as well.
    let mut de = Deserializer::new(&bytes[1..2], None, &sig, ctxt(ByteOrder::LittleEndian, 1));
    assert_eq!(de.deserialize_u32(), Err(Error::Eof));
}

#[test]
fn unit_reads_nothing_and_option_is_refused() {
    let sig = Signature::try_from_bytes(b"u").unwrap();
    let bytes = [1, 0, 0, 0];
    let mut de = Deserializer::new(&bytes, None, &sig, ctxt(ByteOrder::LittleEndian, 0));
    assert_eq!(de.deserialize_unit(), Ok(()));
    assert_eq!(de.deserialize_option(), Err(Error::IncorrectType));
    assert_eq!(de.pos, 0);
    assert_eq!(de.sig_parser.pos, 0);
}

#[test]
fn identifier_is_a_u32_outside_the_signature() {
    let sig = Signature::try_from_bytes(b"y").unwrap();
    let bytes = [7, 0, 0, 0, 3, 0, 0, 0];
    let mut de = Deserializer::new(&bytes, None, &sig, ctxt(ByteOrder::LittleEndian, 0));
    assert_eq!(de.deserialize_u8(), Ok(7));
    assert_eq!(de.deserialize_identifier(), Ok(3));
    assert_eq!(de.pos, 8);
    assert_eq!(de.sig_parser.pos, 1);
}

#[test]
fn padding_and_slices() {
    let sig = Signature::try_from_bytes(b"y").unwrap();
    let bytes = [1, 0, 0, 0, 5, 6, 7];
    let mut de = Deserializer::new(&bytes, None, &sig, ctxt(ByteOrder::LittleEndian, 0));
    assert_eq!(de.next_slice(1).unwrap(), &[1]);
    assert_eq!(de.parse_padding(4), Ok(3));
    assert_eq!(de.pos, 4);
    assert_eq!(de.parse_padding(4), Ok(0));
    assert_eq!(de.next_slice(2).unwrap(), &[5, 6]);
    assert_eq!(de.next_slice(2), Err(Error::Eof));
    assert_eq!(de.pos, 6);
    assert_eq!(de.parse_padding(8), Err(Error::PaddingNot0(7)));
    assert_eq!(de.next_slice(1).unwrap(), &[7]);
    assert_eq!(de.parse_padding(8), Err(Error::Eof));
    assert_eq!(de.pos, 7);
}
