//! The mathematical model of the D-Bus wire format.
//!
//! Every function here reads from a sequence of bytes `s` whose first byte
//! stands at the absolute offset `abs` of the stream, and says what is read and
//! how many bytes of `s` that takes. The executable decoder is specified
//! against these functions.

use crate::encoding::ByteOrder;
use crate::endian::{signed16, signed32, signed64, u16_at, u32_at, u64_at};
use crate::error::Error;
use crate::signature::{
    alignment_of_code, complete_type_len, is_basic_code, lemma_complete_type_len_bounds,
    valid_signature, ARRAY_SIGNATURE_CHAR, BOOL_CODE, BYTE_CODE, DICT_ENTRY_SIG_START_CHAR,
    DOUBLE_CODE, FD_CODE, INT16_CODE, INT32_CODE, INT64_CODE, OBJECT_PATH_CODE, SIGNATURE_CODE,
    STRING_CODE, STRUCT_SIG_END_CHAR, STRUCT_SIG_START_CHAR, UINT16_CODE, UINT32_CODE,
    UINT64_CODE, VARIANT_SIGNATURE_CHAR,
};
use crate::text::utf8_error;
use vstd::prelude::*;
use vstd::utf8::valid_utf8;

verus! {

/// A decoded value, as mathematics sees it.
pub enum SpecValue {
    /// A byte, `y`.
    U8(u8),
    /// A boolean, `b`.
    Bool(bool),
    /// A signed 16-bit integer, `n`.
    I16(i16),
    /// An unsigned 16-bit integer, `q`.
    U16(u16),
    /// A signed 32-bit integer, `i`.
    I32(i32),
    /// An unsigned 32-bit integer, `u`.
    U32(u32),
    /// A signed 64-bit integer, `x`.
    I64(i64),
    /// An unsigned 64-bit integer, `t`.
    U64(u64),
    /// A double, `d`, as its IEEE 754 bit pattern.
    F64(u64),
    /// A string, as its UTF-8 bytes.
    Str(Seq<u8>),
    /// An object path, as its UTF-8 bytes.
    ObjectPath(Seq<u8>),
    /// A signature, as its bytes.
    Signature(Seq<u8>),
    /// A file descriptor, already looked up in the table.
    Fd(i32),
    /// The elements of an array; those of an array of dict entries are
    /// `DictEntry` values.
    Array(Seq<SpecValue>),
    /// A key and its value.
    DictEntry(Box<SpecValue>, Box<SpecValue>),
    /// The fields of a structure.
    Structure(Seq<SpecValue>),
    /// A variant: the signature it carries, and the value of that type.
    Variant(Seq<u8>, Box<SpecValue>),
}

/// The number of padding bytes in front of a field that must start at a
/// multiple of `align`, when the next byte stands at offset `abs`.
pub open spec fn padding_for(abs: int, align: int) -> int {
    (align - abs % align) % align
}

/// Whether `i` is the index of the first byte among the first `n` of `s` that
/// is not zero.
pub open spec fn is_first_nonzero(s: Seq<u8>, n: int, i: int) -> bool {
    &&& 0 <= i < n
    &&& i < s.len()
    &&& s[i] != 0
    &&& forall|j: int| 0 <= j < i ==> s[j] == 0
}

/// Skips the padding in front of a field aligned to `align`. The padding
/// bytes are read in order: the first one that is not zero is an error, and
/// so is the end of the bytes.
pub open spec fn decode_padding(s: Seq<u8>, abs: int, align: int) -> Result<int, Error> {
    let need = padding_for(abs, align);
    if exists|i: int| is_first_nonzero(s, need, i) {
        Err(Error::PaddingNot0(s[choose|i: int| is_first_nonzero(s, need, i)]))
    } else if need > s.len() {
        Err(Error::Eof)
    } else {
        Ok(need)
    }
}

/// Reads a field of `size` bytes that is aligned to its size: the padding,
/// then the bytes of the field.
pub open spec fn decode_fixed(s: Seq<u8>, abs: int, size: int) -> Result<(Seq<u8>, int), Error> {
    match decode_padding(s, abs, size) {
        Err(e) => Err(e),
        Ok(p) => if s.len() - p < size {
            Err(Error::Eof)
        } else {
            Ok((s.subrange(p, p + size), p + size))
        },
    }
}

/// Reads a boolean: an unsigned 32-bit integer that is 0 or 1.
pub open spec fn decode_bool(s: Seq<u8>, abs: int, order: ByteOrder) -> Result<(bool, int), Error> {
    match decode_fixed(s, abs, 4) {
        Err(e) => Err(e),
        Ok((b, n)) => if u32_at(order, b) == 0 {
            Ok((false, n))
        } else if u32_at(order, b) == 1 {
            Ok((true, n))
        } else {
            Err(Error::InvalidValue)
        },
    }
}

/// Reads a file descriptor: an unsigned 32-bit index into the table `fds`.
pub open spec fn decode_fd(s: Seq<u8>, abs: int, order: ByteOrder, fds: Option<Seq<i32>>) -> Result<
    (i32, int),
    Error,
> {
    match decode_fixed(s, abs, 4) {
        Err(e) => Err(e),
        Ok((b, n)) => match fds {
            Some(table) => if u32_at(order, b) < table.len() {
                Ok((table[u32_at(order, b) as int], n))
            } else {
                Err(Error::UnknownFd)
            },
            None => Err(Error::UnknownFd),
        },
    }
}

/// Reads the bytes of a string that its length prefix says is `len` bytes
/// long: the bytes themselves and the byte that ends them, which is not looked
/// at. A length that is more than the bytes that are left is an
/// `InvalidLength`.
pub open spec fn decode_str_body(s: Seq<u8>, len: int) -> Result<(Seq<u8>, int), Error> {
    if s.len() < len {
        Err(Error::InvalidLength)
    } else if s.len() < len + 1 {
        Err(Error::Eof)
    } else {
        Ok((s.take(len), len + 1))
    }
}

/// Reads a string or an object path: a 32-bit length aligned to 4, that many
/// bytes of UTF-8, and one more byte.
pub open spec fn decode_string(s: Seq<u8>, abs: int, order: ByteOrder) -> Result<
    (Seq<u8>, int),
    Error,
> {
    match decode_fixed(s, abs, 4) {
        Err(e) => Err(e),
        Ok((b, n)) => match decode_str_body(s.skip(n), u32_at(order, b) as int) {
            Err(e) => Err(e),
            Ok((bytes, m)) => if valid_utf8(bytes) {
                Ok((bytes, n + m))
            } else {
                Err(Error::Utf8(utf8_error(bytes)))
            },
        },
    }
}

/// Reads a signature: a length of one byte, that many bytes that form a
/// well-formed signature, and one more byte.
pub open spec fn decode_signature(s: Seq<u8>) -> Result<(Seq<u8>, int), Error> {
    if s.len() < 1 {
        Err(Error::Eof)
    } else {
        match decode_str_body(s.skip(1), s[0] as int) {
            Err(e) => Err(e),
            Ok((bytes, m)) => if !valid_signature(bytes) {
                Err(Error::IncorrectType)
            } else {
                Ok((bytes, 1 + m))
            },
        }
    }
}

/// Reads the string-like value that the code `c` announces: a string or an
/// object path for `s` and `o`, a signature for `g` and for the signature
/// that a variant starts with.
pub open spec fn decode_str(c: u8, s: Seq<u8>, abs: int, order: ByteOrder) -> Result<
    (Seq<u8>, int),
    Error,
> {
    if c == SIGNATURE_CODE || c == VARIANT_SIGNATURE_CHAR {
        decode_signature(s)
    } else {
        decode_string(s, abs, order)
    }
}

/// Reads the value of the basic type with code `c`.
pub open spec fn decode_basic(c: u8, s: Seq<u8>, abs: int, order: ByteOrder, fds: Option<Seq<i32>>) -> Result<
    (SpecValue, int),
    Error,
> {
    if c == BYTE_CODE {
        match decode_fixed(s, abs, 1) {
            Ok((b, n)) => Ok((SpecValue::U8(b[0]), n)),
            Err(e) => Err(e),
        }
    } else if c == BOOL_CODE {
        match decode_bool(s, abs, order) {
            Ok((v, n)) => Ok((SpecValue::Bool(v), n)),
            Err(e) => Err(e),
        }
    } else if c == INT16_CODE {
        match decode_fixed(s, abs, 2) {
            Ok((b, n)) => Ok((SpecValue::I16(signed16(u16_at(order, b))), n)),
            Err(e) => Err(e),
        }
    } else if c == UINT16_CODE {
        match decode_fixed(s, abs, 2) {
            Ok((b, n)) => Ok((SpecValue::U16(u16_at(order, b)), n)),
            Err(e) => Err(e),
        }
    } else if c == INT32_CODE {
        match decode_fixed(s, abs, 4) {
            Ok((b, n)) => Ok((SpecValue::I32(signed32(u32_at(order, b))), n)),
            Err(e) => Err(e),
        }
    } else if c == UINT32_CODE {
        match decode_fixed(s, abs, 4) {
            Ok((b, n)) => Ok((SpecValue::U32(u32_at(order, b)), n)),
            Err(e) => Err(e),
        }
    } else if c == INT64_CODE {
        match decode_fixed(s, abs, 8) {
            Ok((b, n)) => Ok((SpecValue::I64(signed64(u64_at(order, b))), n)),
            Err(e) => Err(e),
        }
    } else if c == UINT64_CODE {
        match decode_fixed(s, abs, 8) {
            Ok((b, n)) => Ok((SpecValue::U64(u64_at(order, b)), n)),
            Err(e) => Err(e),
        }
    } else if c == DOUBLE_CODE {
        match decode_fixed(s, abs, 8) {
            Ok((b, n)) => Ok((SpecValue::F64(u64_at(order, b)), n)),
            Err(e) => Err(e),
        }
    } else if c == FD_CODE {
        match decode_fd(s, abs, order, fds) {
            Ok((v, n)) => Ok((SpecValue::Fd(v), n)),
            Err(e) => Err(e),
        }
    } else if c == STRING_CODE {
        match decode_string(s, abs, order) {
            Ok((b, n)) => Ok((SpecValue::Str(b), n)),
            Err(e) => Err(e),
        }
    } else if c == OBJECT_PATH_CODE {
        match decode_string(s, abs, order) {
            Ok((b, n)) => Ok((SpecValue::ObjectPath(b), n)),
            Err(e) => Err(e),
        }
    } else {
        match decode_signature(s) {
            Ok((b, n)) => Ok((SpecValue::Signature(b), n)),
            Err(e) => Err(e),
        }
    }
}

/// What stands in front of the elements of an array whose element type
/// starts at index `esp` of `sig`: the byte length `len` of the elements,
/// aligned to 4, and the padding up to the alignment of the element type,
/// which is there even if the array is empty. A length that is more than the
/// bytes that are left behind the padding is an `InvalidLength`. The result
/// is `len`, the length of the element's signature, and the number of bytes
/// read.
pub open spec fn decode_array_header(s: Seq<u8>, abs: int, sig: Seq<u8>, esp: int, order: ByteOrder) -> Result<
    (u32, nat, int),
    Error,
> {
    match decode_fixed(s, abs, 4) {
        Err(e) => Err(e),
        Ok((b, n)) => match complete_type_len(sig, esp, true) {
            None => Err(Error::IncorrectType),
            Some(m) => match decode_padding(s.skip(n), abs + n, alignment_of_code(sig[esp]) as int) {
                Err(e) => Err(e),
                Ok(p) => if u32_at(order, b) > s.len() - (n + p) {
                    Err(Error::InvalidLength)
                } else {
                    Ok((u32_at(order, b), m, n + p))
                },
            },
        },
    }
}

/// Reads the value whose complete type starts at index `sp` of `sig`.
#[verifier::opaque]
pub open spec fn decode_value(
    s: Seq<u8>,
    abs: int,
    sig: Seq<u8>,
    sp: int,
    order: ByteOrder,
    fds: Option<Seq<i32>>,
) -> Result<(SpecValue, int), Error>
    decreases s.len(), sig.len() - sp, 0int, 0int,
{
    if sp < 0 || sp >= sig.len() {
        Err(Error::IncorrectType)
    } else if is_basic_code(sig[sp]) {
        decode_basic(sig[sp], s, abs, order, fds)
    } else if sig[sp] == VARIANT_SIGNATURE_CHAR {
        match decode_signature(s) {
            Err(e) => Err(e),
            Ok((inner, n)) => match decode_value(s.skip(n), abs + n, inner, 0, order, fds) {
                Err(e) => Err(e),
                Ok((v, m)) => Ok((SpecValue::Variant(inner, Box::new(v)), n + m)),
            },
        }
    } else if sig[sp] == ARRAY_SIGNATURE_CHAR {
        match decode_array_header(s, abs, sig, sp + 1, order) {
            Err(e) => Err(e),
            Ok((len, _, n)) => match decode_elements(
                s.skip(n),
                abs + n,
                0,
                len as int,
                sig,
                sp + 1,
                order,
                fds,
            ) {
                Err(e) => Err(e),
                Ok(elements) => Ok((SpecValue::Array(elements), n + len)),
            },
        }
    } else if sig[sp] == STRUCT_SIG_START_CHAR {
        match complete_type_len(sig, sp, false) {
            None => Err(Error::IncorrectType),
            Some(_) => match decode_padding(s, abs, 8) {
                Err(e) => Err(e),
                Ok(p) => match decode_fields(s, abs, p, sig, sp + 1, order, fds) {
                    Err(e) => Err(e),
                    Ok((fields, n)) => Ok((SpecValue::Structure(fields), n)),
                },
            },
        }
    } else {
        Err(Error::IncorrectType)
    }
}

/// Reads one element of an array from `s`, of which `limit` bytes belong to
/// the array: the padding up to the element's alignment, then the element.
/// For a dict entry the key and the value are read one after the other.
/// Whatever runs past `limit` is an error, be it the key or the value.
#[verifier::opaque]
pub open spec fn decode_element(
    s: Seq<u8>,
    abs: int,
    limit: int,
    sig: Seq<u8>,
    sp: int,
    order: ByteOrder,
    fds: Option<Seq<i32>>,
) -> Result<(SpecValue, int), Error>
    decreases s.len(), sig.len() - sp, 1int, 0int,
{
    if sp < 0 || sp >= sig.len() {
        Err(Error::IncorrectType)
    } else {
        match decode_padding(s, abs, alignment_of_code(sig[sp]) as int) {
            Err(e) => Err(e),
            Ok(p) => if sig[sp] != DICT_ENTRY_SIG_START_CHAR {
                match decode_value(s.skip(p), abs + p, sig, sp, order, fds) {
                    Err(e) => Err(e),
                    Ok((v, n)) => if p + n > limit {
                        Err(Error::InvalidLength)
                    } else {
                        Ok((v, p + n))
                    },
                }
            } else {
                match decode_value(s.skip(p), abs + p, sig, sp + 1, order, fds) {
                    Err(e) => Err(e),
                    Ok((key, n)) => if n < 0 || p + n > limit || p + n > s.len() {
                        Err(Error::InvalidLength)
                    } else if sp + 2 > sig.len() {
                        Err(Error::IncorrectType)
                    } else {
                        match decode_value(s.skip(p + n), abs + p + n, sig, sp + 2, order, fds) {
                            Err(e) => Err(e),
                            Ok((value, m)) => if p + n + m > limit {
                                Err(Error::InvalidLength)
                            } else {
                                Ok((SpecValue::DictEntry(Box::new(key), Box::new(value)), p + n + m))
                            },
                        }
                    },
                }
            },
        }
    }
}

/// Reads the elements of an array that stand between the offsets `off` and
/// `end` of `s`. An element is there as long as `off` has not reached `end`,
/// and it must end at or before `end`. (An element that took no bytes would
/// be refused as well. There is none: a value takes at least one byte.)
#[verifier::opaque]
pub open spec fn decode_elements(
    s: Seq<u8>,
    abs: int,
    off: int,
    end: int,
    sig: Seq<u8>,
    sp: int,
    order: ByteOrder,
    fds: Option<Seq<i32>>,
) -> Result<Seq<SpecValue>, Error>
    decreases s.len(), sig.len() - sp, 2int, end - off,
{
    if off >= end {
        Ok(Seq::empty())
    } else if off < 0 || off > s.len() {
        Err(Error::Eof)
    } else {
        match decode_element(s.skip(off), abs + off, end - off, sig, sp, order, fds) {
            Err(e) => Err(e),
            Ok((v, n)) => if n <= 0 || off + n > end {
                Err(Error::InvalidLength)
            } else {
                match decode_elements(s, abs, off + n, end, sig, sp, order, fds) {
                    Err(e) => Err(e),
                    Ok(rest) => Ok(seq![v] + rest),
                }
            },
        }
    }
}

/// Reads the fields of a structure, the first of which stands at offset `off`
/// of `s` and has its type at index `sp` of `sig`, up to the closing bracket.
/// The result is the fields and the offset behind the last of them.
#[verifier::opaque]
pub open spec fn decode_fields(
    s: Seq<u8>,
    abs: int,
    off: int,
    sig: Seq<u8>,
    sp: int,
    order: ByteOrder,
    fds: Option<Seq<i32>>,
) -> Result<(Seq<SpecValue>, int), Error>
    decreases s.len(), sig.len() - sp, 1int, 0int,
{
    if off < 0 || off > s.len() {
        Err(Error::Eof)
    } else {
        match complete_type_len(sig, sp, false) {
            None => Err(Error::IncorrectType),
            Some(m) => match decode_value(s.skip(off), abs + off, sig, sp, order, fds) {
                Err(e) => Err(e),
                Ok((v, n)) => {
                    proof {
                        lemma_complete_type_len_bounds(sig, sp, false);
                    }
                    if sp + m < sig.len() && sig[sp + m] == STRUCT_SIG_END_CHAR {
                        Ok((seq![v], off + n))
                    } else {
                        match decode_fields(s, abs, off + n, sig, sp + m, order, fds) {
                            Err(e) => Err(e),
                            Ok((rest, end)) => Ok((seq![v] + rest, end)),
                        }
                    }
                },
            },
        }
    }
}

/// The value of a basic type is read as `decode_basic` says.
pub proof fn lemma_value_basic(
    s: Seq<u8>,
    abs: int,
    sig: Seq<u8>,
    sp: int,
    order: ByteOrder,
    fds: Option<Seq<i32>>,
)
    requires
        0 <= sp < sig.len(),
        is_basic_code(sig[sp]),
    ensures
        decode_value(s, abs, sig, sp, order, fds) == decode_basic(sig[sp], s, abs, order, fds),
{
    reveal(decode_value);
}

/// A variant is its signature, then the value of that type, which is read
/// from the start of that signature.
pub proof fn lemma_value_variant(
    s: Seq<u8>,
    abs: int,
    sig: Seq<u8>,
    sp: int,
    order: ByteOrder,
    fds: Option<Seq<i32>>,
)
    requires
        0 <= sp < sig.len(),
        sig[sp] == VARIANT_SIGNATURE_CHAR,
    ensures
        decode_value(s, abs, sig, sp, order, fds) == (match decode_signature(s) {
            Err(e) => Err(e),
            Ok((inner, n)) => match decode_value(s.skip(n), abs + n, inner, 0, order, fds) {
                Err(e) => Err(e),
                Ok((v, m)) => Ok((SpecValue::Variant(inner, Box::new(v)), n + m)),
            },
        }),
{
    reveal(decode_value);
}

/// An array is what stands in front of its elements, then the elements,
/// which take exactly the bytes that the array declares.
pub proof fn lemma_value_array(
    s: Seq<u8>,
    abs: int,
    sig: Seq<u8>,
    sp: int,
    order: ByteOrder,
    fds: Option<Seq<i32>>,
)
    requires
        0 <= sp < sig.len(),
        sig[sp] == ARRAY_SIGNATURE_CHAR,
    ensures
        decode_value(s, abs, sig, sp, order, fds) == (match decode_array_header(
            s,
            abs,
            sig,
            sp + 1,
            order,
        ) {
            Err(e) => Err(e),
            Ok((len, _, n)) => match decode_elements(
                s.skip(n),
                abs + n,
                0,
                len as int,
                sig,
                sp + 1,
                order,
                fds,
            ) {
                Err(e) => Err(e),
                Ok(elements) => Ok((SpecValue::Array(elements), n + len)),
            },
        }),
{
    reveal(decode_value);
    reveal(decode_elements);
}

/// A structure, whose signature must be complete, is padding up to a
/// multiple of 8, then its fields.
pub proof fn lemma_value_structure(
    s: Seq<u8>,
    abs: int,
    sig: Seq<u8>,
    sp: int,
    order: ByteOrder,
    fds: Option<Seq<i32>>,
)
    requires
        0 <= sp < sig.len(),
        sig[sp] == STRUCT_SIG_START_CHAR,
    ensures
        decode_value(s, abs, sig, sp, order, fds) == (match complete_type_len(sig, sp, false) {
            None => Err(Error::IncorrectType),
            Some(_) => match decode_padding(s, abs, 8) {
                Err(e) => Err(e),
                Ok(p) => match decode_fields(s, abs, p, sig, sp + 1, order, fds) {
                    Err(e) => Err(e),
                    Ok((fields, n)) => Ok((SpecValue::Structure(fields), n)),
                },
            },
        }),
{
    reveal(decode_value);
    reveal(decode_fields);
}

/// No value is read where the signature has ended, or where no complete type
/// starts.
pub proof fn lemma_value_none(
    s: Seq<u8>,
    abs: int,
    sig: Seq<u8>,
    sp: int,
    order: ByteOrder,
    fds: Option<Seq<i32>>,
)
    requires
        sp < 0 || sp >= sig.len() || !(is_basic_code(sig[sp]) || sig[sp] == VARIANT_SIGNATURE_CHAR
            || sig[sp] == ARRAY_SIGNATURE_CHAR || sig[sp] == STRUCT_SIG_START_CHAR),
    ensures
        decode_value(s, abs, sig, sp, order, fds) == Err::<(SpecValue, int), Error>(
            Error::IncorrectType,
        ),
{
    reveal(decode_value);
}

/// One element of an array, by the definition of `decode_element`.
pub proof fn lemma_element_unfold(
    s: Seq<u8>,
    abs: int,
    limit: int,
    sig: Seq<u8>,
    sp: int,
    order: ByteOrder,
    fds: Option<Seq<i32>>,
)
    requires
        0 <= sp < sig.len(),
    ensures
        decode_element(s, abs, limit, sig, sp, order, fds) == (match decode_padding(
            s,
            abs,
            alignment_of_code(sig[sp]) as int,
        ) {
            Err(e) => Err(e),
            Ok(p) => if sig[sp] != DICT_ENTRY_SIG_START_CHAR {
                match decode_value(s.skip(p), abs + p, sig, sp, order, fds) {
                    Err(e) => Err(e),
                    Ok((v, n)) => if p + n > limit {
                        Err(Error::InvalidLength)
                    } else {
                        Ok((v, p + n))
                    },
                }
            } else {
                match decode_value(s.skip(p), abs + p, sig, sp + 1, order, fds) {
                    Err(e) => Err(e),
                    Ok((key, n)) => if n < 0 || p + n > limit || p + n > s.len() {
                        Err(Error::InvalidLength)
                    } else if sp + 2 > sig.len() {
                        Err(Error::IncorrectType)
                    } else {
                        match decode_value(s.skip(p + n), abs + p + n, sig, sp + 2, order, fds) {
                            Err(e) => Err(e),
                            Ok((value, m)) => if p + n + m > limit {
                                Err(Error::InvalidLength)
                            } else {
                                Ok((SpecValue::DictEntry(Box::new(key), Box::new(value)), p + n + m))
                            },
                        }
                    },
                }
            },
        }),
{
    reveal(decode_value);
    reveal(decode_element);
}

/// The elements of an array, by the definition of `decode_elements`.
pub proof fn lemma_elements_unfold(
    s: Seq<u8>,
    abs: int,
    off: int,
    end: int,
    sig: Seq<u8>,
    sp: int,
    order: ByteOrder,
    fds: Option<Seq<i32>>,
)
    ensures
        decode_elements(s, abs, off, end, sig, sp, order, fds) == (if off >= end {
            Ok(Seq::empty())
        } else if off < 0 || off > s.len() {
            Err(Error::Eof)
        } else {
            match decode_element(s.skip(off), abs + off, end - off, sig, sp, order, fds) {
                Err(e) => Err(e),
                Ok((v, n)) => if n <= 0 || off + n > end {
                    Err(Error::InvalidLength)
                } else {
                    match decode_elements(s, abs, off + n, end, sig, sp, order, fds) {
                        Err(e) => Err(e),
                        Ok(rest) => Ok(seq![v] + rest),
                    }
                },
            }
        }),
{
    reveal(decode_element);
    reveal(decode_elements);
}

/// The fields of a structure, by the definition of `decode_fields`.
pub proof fn lemma_fields_unfold(
    s: Seq<u8>,
    abs: int,
    off: int,
    sig: Seq<u8>,
    sp: int,
    order: ByteOrder,
    fds: Option<Seq<i32>>,
)
    ensures
        decode_fields(s, abs, off, sig, sp, order, fds) == (if off < 0 || off > s.len() {
            Err(Error::Eof)
        } else {
            match complete_type_len(sig, sp, false) {
                None => Err(Error::IncorrectType),
                Some(m) => match decode_value(s.skip(off), abs + off, sig, sp, order, fds) {
                    Err(e) => Err(e),
                    Ok((v, n)) => if sp + m < sig.len() && sig[sp + m] == STRUCT_SIG_END_CHAR {
                        Ok((seq![v], off + n))
                    } else {
                        match decode_fields(s, abs, off + n, sig, sp + m, order, fds) {
                            Err(e) => Err(e),
                            Ok((rest, end)) => Ok((seq![v] + rest, end)),
                        }
                    },
                },
            }
        }),
{
    reveal(decode_value);
    reveal(decode_fields);
}

} // verus!
