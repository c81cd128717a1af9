use zvariant::error::Error;
use zvariant::signature::{
    alignment_for_signature, is_basic, measure_complete_type, measure_fields, Signature,
};
use zvariant::signature_parser::SignatureParser;

fn valid(s: &[u8]) -> bool {
    Signature::try_from_bytes(s).is_ok()
}

#[test]
fn well_formed_signatures() {
    for s in [
        &b""[..],
        b"y",
        b"ybnqiuxtdsogh",
        b"v",
        b"ai",
        b"aai",
        b"a{sv}",
        b"a{s(ii)}",
        b"a{sa{sv}}",
        b"(i)",
        b"(isx)",
        b"((y)(y))",
        b"a(yy)",
        b"(a{sv}ai)v",
    ] {
        assert!(valid(s), "{:?}", s);
    }
}

#[test]
fn malformed_signatures() {
    for s in [
        &b"z"[..],
        b"a",
        b"aa",
        b"(",
        b")",
        b"()",
        b"(i",
        b"i)",
        b"{sv}",
        b"a{sv",
        b"a{s}",
        b"a{svv}",
        b"a{vs}",
        b"a{(i)s}",
        b"a{}",
        b"(a{sv)}",
        b"y z",
        b"Y",
    ] {
        assert_eq!(Signature::try_from_bytes(s).unwrap_err(), Error::IncorrectType, "{:?}", s);
    }
}

#[test]
fn signature_length_limit() {
    let long = vec![b'y'; 255];
    assert!(valid(&long));
    let too_long = vec![b'y'; 256];
    assert_eq!(Signature::try_from_bytes(&too_long).unwrap_err(), Error::InvalidLength);
}

#[test]
fn signature_accessors() {
    let s = Signature::try_from_bytes(b"ai").unwrap();
    assert_eq!(s.as_bytes(), b"ai");
    assert_eq!(s.len(), 2);
    assert!(!s.is_empty());
    assert!(Signature::try_from_bytes(b"").unwrap().is_empty());
}

#[test]
fn basic_codes() {
    for c in b"ybnqiuxtdsogh" {
        assert!(is_basic(*c));
    }
    for c in b"va(){}z " {
        assert!(!is_basic(*c));
    }
}

#[test]
fn measuring_complete_types() {
    let s = b"a{s(ii)}y";
    assert_eq!(measure_complete_type(s, 0, false), Some(8));
    assert_eq!(measure_complete_type(s, 1, true), Some(7));
    // A dict entry is a type only as the element of an array.
    assert_eq!(measure_complete_type(s, 1, false), None);
    assert_eq!(measure_complete_type(s, 2, false), Some(1));
    assert_eq!(measure_complete_type(s, 3, false), Some(4));
    assert_eq!(measure_complete_type(s, 8, false), Some(1));
    assert_eq!(measure_complete_type(s, 9, false), None);
    assert_eq!(measure_complete_type(s, 7, false), None);
    assert_eq!(measure_fields(s, 4), Some(2));
    assert_eq!(measure_fields(s, 6), Some(0));
    assert_eq!(measure_fields(s, 8), None);
}

#[test]
fn alignments() {
    let table: [(&[u8], usize); 18] = [
        (b"y", 1),
        (b"b", 4),
        (b"n", 2),
        (b"q", 2),
        (b"i", 4),
        (b"u", 4),
        (b"h", 4),
        (b"x", 8),
        (b"t", 8),
        (b"d", 8),
        (b"s", 4),
        (b"o", 4),
        (b"g", 1),
        (b"v", 1),
        (b"ay", 4),
        (b"(y)", 8),
        (b"{yy}", 8),
        (b"", 1),
    ];
    for (s, align) in table {
        assert_eq!(alignment_for_signature(&Signature { bytes: s }), align, "{:?}", s);
    }
}

#[test]
fn cursor_walks_the_signature() {
    let sig = Signature::try_from_bytes(b"a{sv}i").unwrap();
    let mut p = SignatureParser::new(sig);
    assert_eq!(p.next_char(), Ok(b'a'));
    assert!(!p.done());
    assert_eq!(p.next_signature().unwrap().as_bytes(), b"a{sv}");
    // Looking does not move the cursor.
    assert_eq!(p.pos, 0);
    assert_eq!(p.skip_char(), Ok(()));
    assert_eq!(p.next_char(), Ok(b'{'));
    assert_eq!(p.next_signature().unwrap().as_bytes(), b"{sv}");
    assert_eq!(p.skip_chars(4), Ok(()));
    assert_eq!(p.next_char(), Ok(b'i'));
    assert_eq!(p.next_signature().unwrap().as_bytes(), b"i");
    assert_eq!(p.skip_chars(2), Err(Error::IncorrectType));
    assert_eq!(p.pos, 5);
    assert_eq!(p.skip_char(), Ok(()));
    assert!(p.done());
    assert_eq!(p.next_char(), Err(Error::IncorrectType));
    assert_eq!(p.next_signature().unwrap_err(), Error::IncorrectType);
    assert_eq!(p.skip_char(), Err(Error::IncorrectType));
    assert_eq!(p.skip_chars(0), Ok(()));
    assert_eq!(p.pos, 6);
}

#[test]
fn cursor_on_a_closing_bracket_has_no_type() {
    let sig = Signature::try_from_bytes(b"(y)").unwrap();
    let mut p = SignatureParser::new(sig);
    assert_eq!(p.skip_chars(2), Ok(()));
    assert_eq!(p.next_char(), Ok(b')'));
    assert_eq!(p.next_signature().unwrap_err(), Error::IncorrectType);
}

#[test]
fn advancing_a_clone_leaves_the_cursor_it_was_made_from() {
    let sig = Signature::try_from_bytes(b"(isx)").unwrap();
    let mut first = SignatureParser::new(sig);
    assert_eq!(first.skip_char(), Ok(()));
    let mut clone = first.clone();
    assert_eq!(clone.skip_chars(3), Ok(()));
    assert_eq!(clone.next_char(), Ok(b')'));
    drop(clone);
    assert_eq!(first.pos, 1);
    assert_eq!(first.next_char(), Ok(b'i'));
    assert_eq!(first.signature.as_bytes(), b"(isx)");
}
