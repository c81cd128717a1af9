//! UTF-8 validation, done by the standard library.

use vstd::prelude::*;
use vstd::string::StringSliceAdditionalSpecFns;
use crate::signature::{lemma_complete_types_are_ascii, valid_signature};
use vstd::utf8::{encode_utf8, encode_utf8_valid_utf8, is_ascii_chars, is_ascii_chars_encode_utf8, valid_utf8};

verus! {

/// What `core::str::from_utf8` reports for bytes that are not UTF-8.
pub uninterp spec fn utf8_error(bytes: Seq<u8>) -> core::str::Utf8Error;

/// `core::str::from_utf8`: the string whose UTF-8 encoding is `bytes`, or,
/// if `bytes` is not UTF-8, the error that says where it stops being so.
#[verifier::external_body]
pub(crate) fn from_utf8<'a>(bytes: &'a [u8]) -> (r: Result<&'a str, core::str::Utf8Error>)
    ensures
        match r {
            Ok(s) => valid_utf8(bytes@) && s.spec_bytes() == bytes@,
            Err(e) => !valid_utf8(bytes@) && e == utf8_error(bytes@),
        },
{
    core::str::from_utf8(bytes)
}

/// Bytes that are all ASCII are UTF-8.
pub proof fn lemma_ascii_is_utf8(bytes: Seq<u8>)
    requires
        forall|i: int| 0 <= i < bytes.len() ==> bytes[i] < 128,
    ensures
        valid_utf8(bytes),
{
    let chars = Seq::new(bytes.len(), |i: int| bytes[i] as char);
    assert(is_ascii_chars(chars));
    is_ascii_chars_encode_utf8(chars);
    assert(encode_utf8(chars) =~= bytes);
    encode_utf8_valid_utf8(chars);
}

/// A well-formed signature is UTF-8.
pub proof fn lemma_signature_is_utf8(bytes: Seq<u8>)
    requires
        valid_signature(bytes),
    ensures
        valid_utf8(bytes),
{
    lemma_complete_types_are_ascii(bytes, 0);
    lemma_ascii_is_utf8(bytes);
}

} // verus!
