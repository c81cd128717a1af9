use zvariant::access::{ArrayDeserializer, SeqAccess, StructureDeserializer, ValueDeserializer, ValueParseStage, ValueStep};
use zvariant::de::Deserializer;
use zvariant::encoding::{ByteOrder, EncodingContext};
use zvariant::error::Error;
use zvariant::signature::Signature;
use zvariant::value::Value;

fn le() -> EncodingContext {
    EncodingContext::new_dbus(ByteOrder::LittleEndian, 0)
}

fn decode<'a>(signature: &'a [u8], bytes: &'a [u8]) -> (Result<Value<'a>, Error>, usize) {
    let sig = Signature::try_from_bytes(signature).unwrap();
    let mut de = Deserializer::new(bytes, None, &sig, le());
    let value = de.deserialize_any();
    (value, de.pos)
}

#[test]
fn empty_array_still_has_its_padding() {
    let bytes = [0, 0, 0, 0, 0, 0, 0, 0];
    assert_eq!(decode(b"ax", &bytes), (Ok(Value::Array(vec![])), 8));
    // Without the padding the array is cut short.
    assert_eq!(decode(b"ax", &bytes[..4]), (Err(Error::Eof), 0));
    // The padding must be zero.
    let bad = [0, 0, 0, 0, 0, 0, 1, 0];
    assert_eq!(decode(b"ax", &bad), (Err(Error::PaddingNot0(1)), 0));
}

#[test]
fn array_of_bytes() {
    let bytes = [3, 0, 0, 0, 7, 8, 9];
    assert_eq!(
        decode(b"ay", &bytes),
        (Ok(Value::Array(vec![Value::U8(7), Value::U8(8), Value::U8(9)])), 7)
    );
}

#[test]
fn array_of_strings_pads_between_elements() {
    let bytes = [
        15, 0, 0, 0, 1, 0, 0, 0, b'a', 0, 0, 0, 2, 0, 0, 0, b'b', b'c', 0,
    ];
    assert_eq!(
        decode(b"as", &bytes),
        (Ok(Value::Array(vec![Value::Str("a"), Value::Str("bc")])), 19)
    );
}

#[test]
fn array_of_int64_pads_before_the_first_element() {
    let bytes = [8, 0, 0, 0, 0, 0, 0, 0, 5, 0, 0, 0, 0, 0, 0, 0];
    assert_eq!(decode(b"ax", &bytes), (Ok(Value::Array(vec![Value::I64(5)])), 16));
}

#[test]
fn array_of_arrays() {
    let bytes = [
        14, 0, 0, 0, // outer length, which ends inside the second inner array
        2, 0, 0, 0, 1, 2, // first inner array
        0, 0, // padding before the second
        3, 0, 0, 0, 3, 4, 5, // second inner array
        9,
    ];
    assert_eq!(decode(b"aay", &bytes), (Err(Error::InvalidLength), 0));
    // One byte too many declared: the byte behind the second inner array is
    // taken for the padding in front of a third.
    let mut long = bytes;
    long[0] = 16;
    assert_eq!(decode(b"aay", &long), (Err(Error::PaddingNot0(9)), 0));
    let mut fixed = bytes;
    fixed[0] = 15;
    assert_eq!(
        decode(b"aay", &fixed),
        (
            Ok(Value::Array(vec![
                Value::Array(vec![Value::U8(1), Value::U8(2)]),
                Value::Array(vec![Value::U8(3), Value::U8(4), Value::U8(5)]),
            ])),
            19
        )
    );
}

#[test]
fn array_that_overruns_its_length_is_invalid() {
    // Two elements of 4 bytes each, but 6 bytes declared.
    let bytes = [6, 0, 0, 0, 1, 0, 0, 0, 2, 0, 0, 0];
    assert_eq!(decode(b"ai", &bytes), (Err(Error::InvalidLength), 0));
    let bytes = [7, 0, 0, 0, 1, 0, 0, 0, 2, 0, 0, 0];
    assert_eq!(decode(b"ai", &bytes), (Err(Error::InvalidLength), 0));
    let bytes = [1, 0, 0, 0, 1, 0, 0, 0];
    assert_eq!(decode(b"ai", &bytes), (Err(Error::InvalidLength), 0));
}

#[test]
fn array_may_end_on_any_element_boundary() {
    // 4 bytes declared: one element, and what follows is not looked at.
    let bytes = [4, 0, 0, 0, 1, 0, 0, 0, 2, 0, 0, 0];
    assert_eq!(decode(b"ai", &bytes), (Ok(Value::Array(vec![Value::I32(1)])), 8));
}

#[test]
fn array_longer_than_the_bytes_is_invalid() {
    let bytes = [12, 0, 0, 0, 1, 0, 0, 0, 2, 0, 0, 0];
    assert_eq!(decode(b"ai", &bytes), (Err(Error::InvalidLength), 0));
    let bytes = [9, 0, 0, 0, 1, 0, 0, 0, 2, 0, 0, 0];
    assert_eq!(decode(b"ai", &bytes), (Err(Error::InvalidLength), 0));
    // The length itself must be there in full.
    assert_eq!(decode(b"ai", &bytes[..3]), (Err(Error::Eof), 0));
}

#[test]
fn dict_with_two_entries() {
    let bytes = [
        15, 0, 0, 0, 0, 0, 0, 0, // length, padding to 8
        1, 0, 0, 0, b'a', 0, 7, // "a" => 7
        0, // padding to 8
        1, 0, 0, 0, b'b', 0, 8, // "b" => 8
    ];
    assert_eq!(
        decode(b"a{sy}", &bytes),
        (
            Ok(Value::Array(vec![
                Value::DictEntry(Box::new(Value::Str("a")), Box::new(Value::U8(7))),
                Value::DictEntry(Box::new(Value::Str("b")), Box::new(Value::U8(8))),
            ])),
            23
        )
    );
}

#[test]
fn dict_then_more() {
    // The cursor must have passed the whole of `a{yy}` for the `q` to be
    // read.
    let sig = Signature::try_from_bytes(b"a{yy}q").unwrap();
    let bytes = [2, 0, 0, 0, 0, 0, 0, 0, 1, 2, 5, 0];
    let mut de = Deserializer::new(&bytes, None, &sig, le());
    assert_eq!(
        de.deserialize_any(),
        Ok(Value::Array(vec![Value::DictEntry(Box::new(Value::U8(1)), Box::new(Value::U8(2)))]))
    );
    assert_eq!(de.sig_parser.pos, 5);
    assert_eq!(de.deserialize_u16(), Ok(5));
    assert_eq!(de.pos, 12);
    assert!(de.sig_parser.done());
}

#[test]
fn dict_value_that_overruns_is_invalid() {
    let bytes = [1, 0, 0, 0, 0, 0, 0, 0, 1, 2];
    assert_eq!(decode(b"a{yy}", &bytes), (Err(Error::InvalidLength), 0));
}

#[test]
fn nested_structures() {
    let bytes = [
        1, 0, 0, 0, 0, 0, 0, 0, // y, padding to 8 for the inner structure
        2, 0, 3, 0, // (yq)
        0, 0, 0, 0, // padding to 8 for x
        4, 0, 0, 0, 0, 0, 0, 0, // x
    ];
    assert_eq!(
        decode(b"(y(yq)x)", &bytes),
        (
            Ok(Value::Structure(vec![
                Value::U8(1),
                Value::Structure(vec![Value::U8(2), Value::U16(3)]),
                Value::I64(4),
            ])),
            24
        )
    );
}

#[test]
fn structure_is_aligned_to_eight() {
    let sig = Signature::try_from_bytes(b"y(y)").unwrap();
    let bytes = [1, 0, 0, 0, 0, 0, 0, 0, 2];
    let mut de = Deserializer::new(&bytes, None, &sig, le());
    assert_eq!(de.deserialize_u8(), Ok(1));
    assert_eq!(de.deserialize_any(), Ok(Value::Structure(vec![Value::U8(2)])));
    assert_eq!(de.pos, 9);
    assert_eq!(de.sig_parser.pos, 4);
    let bad = [1, 0, 0, 0, 0, 0, 0, 6, 2];
    let mut de = Deserializer::new(&bad, None, &sig, le());
    assert_eq!(de.deserialize_u8(), Ok(1));
    assert_eq!(de.deserialize_any(), Err(Error::PaddingNot0(6)));
    assert_eq!(de.pos, 1);
    assert_eq!(de.sig_parser.pos, 1);
}

#[test]
fn array_of_structures() {
    let bytes = [
        10, 0, 0, 0, 0, 0, 0, 0, // length, padding to 8
        1, 2, 0, 0, 0, 0, 0, 0, // (yy), padding to 8
        3, 4, // (yy)
    ];
    assert_eq!(
        decode(b"a(yy)", &bytes),
        (
            Ok(Value::Array(vec![
                Value::Structure(vec![Value::U8(1), Value::U8(2)]),
                Value::Structure(vec![Value::U8(3), Value::U8(4)]),
            ])),
            18
        )
    );
}

#[test]
fn variant_aligns_its_value_by_the_absolute_position() {
    // The variant starts at offset 1; its value, a u64, must start at a
    // multiple of 8 of the whole, which is offset 8.
    let sig = Signature::try_from_bytes(b"yv").unwrap();
    let bytes = [1, 1, b't', 0, 0, 0, 0, 0, 9, 0, 0, 0, 0, 0, 0, 0];
    let mut de = Deserializer::new(&bytes, None, &sig, le());
    assert_eq!(de.deserialize_u8(), Ok(1));
    assert_eq!(de.deserialize_any(), Ok(Value::Variant("t", Box::new(Value::U64(9)))));
    assert_eq!(de.pos, 16);
    assert_eq!(de.sig_parser.pos, 2);
}

#[test]
fn variant_in_variant() {
    let bytes = [1, b'v', 0, 1, b'y', 0, 5];
    assert_eq!(
        decode(b"v", &bytes),
        (
            Ok(Value::Variant(
                "v",
                Box::new(Value::Variant("y", Box::new(Value::U8(5))))
            )),
            7
        )
    );
}

#[test]
fn variant_with_an_array() {
    let bytes = [2, b'a', b'q', 0, 4, 0, 0, 0, 1, 0, 2, 0];
    assert_eq!(
        decode(b"v", &bytes),
        (
            Ok(Value::Variant(
                "aq",
                Box::new(Value::Array(vec![Value::U16(1), Value::U16(2)]))
            )),
            12
        )
    );
}

#[test]
fn variant_with_a_malformed_signature_is_incorrect_type() {
    let bytes = [1, b'(', 0, 5];
    assert_eq!(decode(b"v", &bytes), (Err(Error::IncorrectType), 0));
    // An empty signature holds no type to read a value by.
    let bytes = [0, 0, 5];
    assert_eq!(decode(b"v", &bytes), (Err(Error::IncorrectType), 0));
}

#[test]
fn dict_entry_padding_in_the_wrong_place_is_refused() {
    // Two bytes of padding in front of the variant, where none belongs:
    // they are read as an empty signature.
    let bytes = [
        12, 0, 0, 0, 0, 0, 0, 0, 1, 0, 0, 0, b'k', 0, 0, 0, 1, b'u', 0, 0, 7, 0, 0, 0,
    ];
    assert_eq!(decode(b"a{sv}", &bytes), (Err(Error::IncorrectType), 0));
}

#[test]
fn error_in_the_middle_leaves_the_deserializer_as_it_was() {
    let sig = Signature::try_from_bytes(b"(yb)u").unwrap();
    let bytes = [1, 0, 0, 0, 2, 0, 0, 0, 9, 0, 0, 0];
    let mut de = Deserializer::new(&bytes, None, &sig, le());
    assert_eq!(de.deserialize_any(), Err(Error::InvalidValue));
    assert_eq!(de.pos, 0);
    assert_eq!(de.sig_parser.pos, 0);
}

#[test]
fn array_step_by_step() {
    let sig = Signature::try_from_bytes(b"aqy").unwrap();
    let bytes = [4, 0, 0, 0, 1, 0, 2, 0, 7];
    let mut de = Deserializer::new(&bytes, None, &sig, le());
    let access = match de.deserialize_seq() {
        Ok(SeqAccess::Array(a)) => a,
        other => panic!("{:?}", other),
    };
    assert_eq!(access.len, 4);
    assert_eq!(access.start, 4);
    assert_eq!(access.element_alignment, 2);
    assert_eq!(access.element_signature_len, 1);
    assert_eq!(de.pos, 4);
    assert_eq!(de.sig_parser.pos, 1);
    assert!(!access.done(&de));

    let mut sub = access.next_element(&mut de).unwrap().unwrap();
    assert_eq!(sub.bytes, &bytes[4..]);
    assert_eq!(sub.ctxt.position, 4);
    assert_eq!(sub.pos, 0);
    assert_eq!(sub.deserialize_u16(), Ok(1));
    assert_eq!(access.advance(&mut de, sub.pos), Ok(()));
    // The element moved its own cursor, not that of the array.
    assert_eq!(sub.sig_parser.pos, 2);
    assert_eq!(de.sig_parser.pos, 1);

    let mut sub = access.next_element(&mut de).unwrap().unwrap();
    assert_eq!(sub.deserialize_u16(), Ok(2));
    assert_eq!(access.advance(&mut de, sub.pos), Ok(()));
    assert!(access.done(&de));

    assert!(access.next_element(&mut de).unwrap().is_none());
    assert_eq!(de.sig_parser.pos, 2);
    assert_eq!(de.deserialize_u8(), Ok(7));
}

#[test]
fn array_advance_checks_the_declared_length() {
    let sig = Signature::try_from_bytes(b"aq").unwrap();
    let bytes = [2, 0, 0, 0, 1, 0, 2, 0];
    let mut de = Deserializer::new(&bytes, None, &sig, le());
    let access = match de.deserialize_seq() {
        Ok(SeqAccess::Array(a)) => a,
        other => panic!("{:?}", other),
    };
    assert_eq!(access.advance(&mut de, 3), Err(Error::InvalidLength));
    assert_eq!(access.advance(&mut de, 5), Err(Error::Eof));
    assert_eq!(de.pos, 4);
    assert_eq!(access.advance(&mut de, 2), Ok(()));
    assert_eq!(de.pos, 6);
    assert!(access.done(&de));
}

#[test]
fn map_step_by_step() {
    let sig = Signature::try_from_bytes(b"a{ys}").unwrap();
    let bytes = [
        10, 0, 0, 0, 0, 0, 0, 0, // length, padding
        5, 0, 0, 0, 1, 0, 0, 0, b'x', 0, // 5 => "x"
    ];
    let mut de = Deserializer::new(&bytes, None, &sig, le());
    let access = match de.deserialize_seq() {
        Ok(SeqAccess::Dict(a)) => a,
        other => panic!("{:?}", other),
    };
    assert_eq!(access.len, 10);
    assert_eq!(access.start, 8);
    assert_eq!(access.element_alignment, 8);
    assert_eq!(access.element_signature_len, 4);
    // The cursor has passed `a` and `{`.
    assert_eq!(de.sig_parser.pos, 2);

    let mut key = access.next_key(&mut de).unwrap().unwrap();
    assert_eq!(key.deserialize_u8(), Ok(5));
    assert_eq!(access.advance(&mut de, key.pos), Ok(()));
    let mut value = access.next_value(&de).unwrap();
    assert_eq!(value.sig_parser.pos, 3);
    assert_eq!(value.ctxt.position, 9);
    assert_eq!(value.deserialize_str(), Ok("x"));
    assert_eq!(access.advance(&mut de, value.pos), Ok(()));
    assert_eq!(de.pos, 18);

    assert!(access.next_key(&mut de).unwrap().is_none());
    assert_eq!(de.sig_parser.pos, 5);
    assert!(de.sig_parser.done());
}

#[test]
fn structure_step_by_step() {
    let sig = Signature::try_from_bytes(b"(yq)").unwrap();
    let bytes = [1, 0, 2, 0];
    let mut de = Deserializer::new(&bytes, None, &sig, le());
    let access: StructureDeserializer = match de.deserialize_seq() {
        Ok(SeqAccess::Structure(a)) => a,
        other => panic!("{:?}", other),
    };
    assert_eq!(de.sig_parser.pos, 1);
    assert_eq!(de.deserialize_u8(), Ok(1));
    assert!(!access.end_element(&mut de));
    assert_eq!(de.deserialize_u16(), Ok(2));
    assert!(access.end_element(&mut de));
    assert_eq!(de.sig_parser.pos, 4);
    assert_eq!(de.pos, 4);
}

#[test]
fn variant_step_by_step() {
    let sig = Signature::try_from_bytes(b"v").unwrap();
    let bytes = [1, b'u', 0, 0, 7, 0, 0, 0];
    let mut de = Deserializer::new(&bytes, None, &sig, le());
    let mut access: ValueDeserializer = match de.deserialize_seq() {
        Ok(SeqAccess::Variant(a)) => a,
        other => panic!("{:?}", other),
    };
    assert_eq!(access.stage, ValueParseStage::Signature);
    assert_eq!(access.sig_start, 0);
    assert!(matches!(access.next_element(&de), Ok(ValueStep::Signature)));
    assert_eq!(de.deserialize_str(), Ok("u"));
    assert_eq!(de.pos, 3);
    assert_eq!(de.sig_parser.pos, 1);
    let mut sub = match access.next_element(&de) {
        Ok(ValueStep::Value(sub)) => sub,
        other => panic!("{:?}", other),
    };
    assert_eq!(sub.bytes, &bytes[3..]);
    assert_eq!(sub.ctxt.position, 3);
    assert_eq!(sub.sig_parser.signature.as_bytes(), b"u");
    assert_eq!(sub.deserialize_u32(), Ok(7));
    assert_eq!(sub.pos, 5);
    assert_eq!(access.advance(&mut de, sub.pos), Ok(()));
    assert_eq!(de.pos, 8);
    assert!(matches!(access.next_element(&de), Ok(ValueStep::Done)));
    assert_eq!(access.stage, ValueParseStage::Done);
}

#[test]
fn entering_an_array_reads_its_header() {
    let sig = Signature::try_from_bytes(b"at").unwrap();
    let bytes = [0, 0, 0, 0, 0, 0, 0, 0];
    let mut de = Deserializer::new(&bytes, None, &sig, le());
    assert_eq!(de.sig_parser.skip_char(), Ok(()));
    let access = ArrayDeserializer::new(&mut de).unwrap();
    assert_eq!(access.len, 0);
    assert_eq!(access.start, 8);
    assert_eq!(access.element_alignment, 8);
    assert!(access.done(&de));
}
