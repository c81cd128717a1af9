//! The encoding of a value: the bytes that the wire format writes for it.
//!
//! Nothing here runs. The encoding is the yardstick for the decoder: what it
//! reads back from these bytes, and how many of them it takes.

use crate::encoding::ByteOrder;
use crate::endian::{bytes_of_u16, bytes_of_u32, bytes_of_u64, unsigned16, unsigned32, unsigned64};
use crate::signature::{
    alignment_of_code, complete_type_len, is_basic_code, valid_signature, ARRAY_SIGNATURE_CHAR,
    BOOL_CODE, BYTE_CODE, DICT_ENTRY_SIG_START_CHAR, DOUBLE_CODE, FD_CODE, INT16_CODE,
    INT32_CODE, INT64_CODE, OBJECT_PATH_CODE, SIGNATURE_CODE, STRING_CODE, STRUCT_SIG_END_CHAR,
    STRUCT_SIG_START_CHAR, UINT16_CODE, UINT32_CODE, UINT64_CODE, VARIANT_SIGNATURE_CHAR,
};
use crate::wire::{padding_for, SpecValue};
use vstd::prelude::*;
use vstd::utf8::valid_utf8;

verus! {

/// `n` bytes that are zero.
pub open spec fn zeros(n: int) -> Seq<u8> {
    Seq::new(n as nat, |i: int| 0u8)
}

/// A field that is aligned to its size: padding, then the bytes of the
/// field.
pub open spec fn encode_fixed(abs: int, bytes: Seq<u8>) -> Seq<u8> {
    zeros(padding_for(abs, bytes.len() as int)) + bytes
}

/// A string or an object path: its length in 32 bits, its bytes, which must
/// be UTF-8, and a zero byte.
pub open spec fn encode_string(abs: int, order: ByteOrder, bytes: Seq<u8>) -> Option<Seq<u8>> {
    if bytes.len() <= u32::MAX && valid_utf8(bytes) {
        Some(encode_fixed(abs, bytes_of_u32(order, bytes.len() as u32)) + bytes + seq![0u8])
    } else {
        None
    }
}

/// A signature: its length in one byte, its bytes, which must form a
/// well-formed signature, and a zero byte.
pub open spec fn encode_signature(bytes: Seq<u8>) -> Option<Seq<u8>> {
    if valid_signature(bytes) {
        Some(seq![bytes.len() as u8] + bytes + seq![0u8])
    } else {
        None
    }
}

/// Whether the table `fds` holds the file descriptor `fd` at index `i`.
pub open spec fn has_fd(fds: Option<Seq<i32>>, fd: i32, i: int) -> bool {
    fds matches Some(table) && 0 <= i < table.len() && i <= u32::MAX && table[i] == fd
}

/// The encoding of `v` as a value of the basic type with code `c`, if `v` is
/// one. A file descriptor is written as an index at which the table holds
/// it.
pub open spec fn encode_basic(c: u8, v: SpecValue, abs: int, order: ByteOrder, fds: Option<Seq<i32>>) -> Option<
    Seq<u8>,
> {
    match v {
        SpecValue::U8(x) => if c == BYTE_CODE {
            Some(seq![x])
        } else {
            None
        },
        SpecValue::Bool(x) => if c == BOOL_CODE {
            Some(
                encode_fixed(
                    abs,
                    bytes_of_u32(
                        order,
                        if x {
                            1u32
                        } else {
                            0u32
                        },
                    ),
                ),
            )
        } else {
            None
        },
        SpecValue::I16(x) => if c == INT16_CODE {
            Some(encode_fixed(abs, bytes_of_u16(order, unsigned16(x))))
        } else {
            None
        },
        SpecValue::U16(x) => if c == UINT16_CODE {
            Some(encode_fixed(abs, bytes_of_u16(order, x)))
        } else {
            None
        },
        SpecValue::I32(x) => if c == INT32_CODE {
            Some(encode_fixed(abs, bytes_of_u32(order, unsigned32(x))))
        } else {
            None
        },
        SpecValue::U32(x) => if c == UINT32_CODE {
            Some(encode_fixed(abs, bytes_of_u32(order, x)))
        } else {
            None
        },
        SpecValue::I64(x) => if c == INT64_CODE {
            Some(encode_fixed(abs, bytes_of_u64(order, unsigned64(x))))
        } else {
            None
        },
        SpecValue::U64(x) => if c == UINT64_CODE {
            Some(encode_fixed(abs, bytes_of_u64(order, x)))
        } else {
            None
        },
        SpecValue::F64(x) => if c == DOUBLE_CODE {
            Some(encode_fixed(abs, bytes_of_u64(order, x)))
        } else {
            None
        },
        SpecValue::Str(b) => if c == STRING_CODE {
            encode_string(abs, order, b)
        } else {
            None
        },
        SpecValue::ObjectPath(b) => if c == OBJECT_PATH_CODE {
            encode_string(abs, order, b)
        } else {
            None
        },
        SpecValue::Signature(b) => if c == SIGNATURE_CODE {
            encode_signature(b)
        } else {
            None
        },
        SpecValue::Fd(fd) => if c == FD_CODE && exists|i: int| has_fd(fds, fd, i) {
            Some(encode_fixed(abs, bytes_of_u32(order, (choose|i: int| has_fd(fds, fd, i)) as u32)))
        } else {
            None
        },
        _ => None,
    }
}

/// The encoding of `v` as a value of the complete type that starts at index
/// `sp` of `sig`, where the first byte is written at offset `abs`; `None`
/// if `v` is no value of that type.
#[verifier::opaque]
pub open spec fn encode_value(
    v: SpecValue,
    abs: int,
    sig: Seq<u8>,
    sp: int,
    order: ByteOrder,
    fds: Option<Seq<i32>>,
) -> Option<Seq<u8>>
    decreases v, 0int,
{
    if sp < 0 || sp >= sig.len() {
        None
    } else if is_basic_code(sig[sp]) {
        encode_basic(sig[sp], v, abs, order, fds)
    } else if sig[sp] == VARIANT_SIGNATURE_CHAR {
        match v {
            SpecValue::Variant(inner, value) => match encode_signature(inner) {
                None => None,
                Some(head) => match encode_value(*value, abs + head.len(), inner, 0, order, fds) {
                    None => None,
                    Some(body) => Some(head + body),
                },
            },
            _ => None,
        }
    } else if sig[sp] == ARRAY_SIGNATURE_CHAR {
        match v {
            SpecValue::Array(elements) => match complete_type_len(sig, sp + 1, true) {
                None => None,
                Some(_) => {
                    let lead = padding_for(abs, 4) + 4;
                    let gap = padding_for(abs + lead, alignment_of_code(sig[sp + 1]) as int);
                    match encode_elements(elements, abs + lead + gap, sig, sp + 1, order, fds) {
                        None => None,
                        Some(payload) => if payload.len() <= u32::MAX {
                            Some(
                                encode_fixed(abs, bytes_of_u32(order, payload.len() as u32))
                                    + zeros(gap) + payload,
                            )
                        } else {
                            None
                        },
                    }
                },
            },
            _ => None,
        }
    } else if sig[sp] == STRUCT_SIG_START_CHAR {
        match v {
            SpecValue::Structure(fields) => match complete_type_len(sig, sp, false) {
                None => None,
                Some(_) => match encode_fields(
                    fields,
                    abs + padding_for(abs, 8),
                    sig,
                    sp + 1,
                    order,
                    fds,
                ) {
                    None => None,
                    Some(body) => Some(zeros(padding_for(abs, 8)) + body),
                },
            },
            _ => None,
        }
    } else {
        None
    }
}

/// The encoding of `e` as an element of an array whose element type starts
/// at index `sp` of `sig`: padding up to the alignment of the element, then
/// the element, which for a dict entry is the key and then the value.
#[verifier::opaque]
pub open spec fn encode_element(
    e: SpecValue,
    abs: int,
    sig: Seq<u8>,
    sp: int,
    order: ByteOrder,
    fds: Option<Seq<i32>>,
) -> Option<Seq<u8>>
    decreases e, 1int,
{
    if sp < 0 || sp >= sig.len() {
        None
    } else {
        let p = padding_for(abs, alignment_of_code(sig[sp]) as int);
        if sig[sp] != DICT_ENTRY_SIG_START_CHAR {
            match encode_value(e, abs + p, sig, sp, order, fds) {
                None => None,
                Some(body) => Some(zeros(p) + body),
            }
        } else {
            match e {
                SpecValue::DictEntry(key, value) => match encode_value(
                    *key,
                    abs + p,
                    sig,
                    sp + 1,
                    order,
                    fds,
                ) {
                    None => None,
                    Some(kb) => match encode_value(
                        *value,
                        abs + p + kb.len(),
                        sig,
                        sp + 2,
                        order,
                        fds,
                    ) {
                        None => None,
                        Some(vb) => Some(zeros(p) + kb + vb),
                    },
                },
                _ => None,
            }
        }
    }
}

/// The encoding of the elements of an array, one after the other.
#[verifier::opaque]
pub open spec fn encode_elements(
    elements: Seq<SpecValue>,
    abs: int,
    sig: Seq<u8>,
    sp: int,
    order: ByteOrder,
    fds: Option<Seq<i32>>,
) -> Option<Seq<u8>>
    decreases elements, 2int,
{
    if elements.len() == 0 {
        Some(Seq::empty())
    } else {
        match encode_element(elements[0], abs, sig, sp, order, fds) {
            None => None,
            Some(first) => match encode_elements(
                elements.drop_first(),
                abs + first.len(),
                sig,
                sp,
                order,
                fds,
            ) {
                None => None,
                Some(rest) => Some(first + rest),
            },
        }
    }
}

/// The encoding of the fields of a structure, the type of the first of which
/// starts at index `sp` of `sig`. There is a field for every type up to the
/// closing bracket, and no other.
#[verifier::opaque]
pub open spec fn encode_fields(
    fields: Seq<SpecValue>,
    abs: int,
    sig: Seq<u8>,
    sp: int,
    order: ByteOrder,
    fds: Option<Seq<i32>>,
) -> Option<Seq<u8>>
    decreases fields, 2int,
{
    if fields.len() == 0 {
        None
    } else {
        match complete_type_len(sig, sp, false) {
            None => None,
            Some(m) => match encode_value(fields[0], abs, sig, sp, order, fds) {
                None => None,
                Some(first) => if sp + m < sig.len() && sig[sp + m] == STRUCT_SIG_END_CHAR {
                    if fields.len() == 1 {
                        Some(first)
                    } else {
                        None
                    }
                } else {
                    match encode_fields(
                        fields.drop_first(),
                        abs + first.len(),
                        sig,
                        sp + m,
                        order,
                        fds,
                    ) {
                        None => None,
                        Some(rest) => Some(first + rest),
                    }
                },
            },
        }
    }
}

/// The encoding of a value, by the definition of `encode_value`.
pub proof fn lemma_encode_value_unfold(
    v: SpecValue,
    abs: int,
    sig: Seq<u8>,
    sp: int,
    order: ByteOrder,
    fds: Option<Seq<i32>>,
)
    ensures
        encode_value(v, abs, sig, sp, order, fds) == ({
            if sp < 0 || sp >= sig.len() {
                None
            } else if is_basic_code(sig[sp]) {
                encode_basic(sig[sp], v, abs, order, fds)
            } else if sig[sp] == VARIANT_SIGNATURE_CHAR {
                match v {
                    SpecValue::Variant(inner, value) => match encode_signature(inner) {
                        None => None,
                        Some(head) => match encode_value(*value, abs + head.len(), inner, 0, order, fds) {
                            None => None,
                            Some(body) => Some(head + body),
                        },
                    },
                    _ => None,
                }
            } else if sig[sp] == ARRAY_SIGNATURE_CHAR {
                match v {
                    SpecValue::Array(elements) => match complete_type_len(sig, sp + 1, true) {
                        None => None,
                        Some(_) => {
                            let lead = padding_for(abs, 4) + 4;
                            let gap = padding_for(abs + lead, alignment_of_code(sig[sp + 1]) as int);
                            match encode_elements(elements, abs + lead + gap, sig, sp + 1, order, fds) {
                                None => None,
                                Some(payload) => if payload.len() <= u32::MAX {
                                    Some(
                                        encode_fixed(abs, bytes_of_u32(order, payload.len() as u32))
                                            + zeros(gap) + payload,
                                    )
                                } else {
                                    None
                                },
                            }
                        },
                    },
                    _ => None,
                }
            } else if sig[sp] == STRUCT_SIG_START_CHAR {
                match v {
                    SpecValue::Structure(fields) => match complete_type_len(sig, sp, false) {
                        None => None,
                        Some(_) => match encode_fields(
                            fields,
                            abs + padding_for(abs, 8),
                            sig,
                            sp + 1,
                            order,
                            fds,
                        ) {
                            None => None,
                            Some(body) => Some(zeros(padding_for(abs, 8)) + body),
                        },
                    },
                    _ => None,
                }
            } else {
                None
            }
        }),
{
    reveal(encode_value);
    reveal(encode_element);
    reveal(encode_elements);
    reveal(encode_fields);
}

/// The encoding of an element, by the definition of `encode_element`.
pub proof fn lemma_encode_element_unfold(
    e: SpecValue,
    abs: int,
    sig: Seq<u8>,
    sp: int,
    order: ByteOrder,
    fds: Option<Seq<i32>>,
)
    ensures
        encode_element(e, abs, sig, sp, order, fds) == ({
            if sp < 0 || sp >= sig.len() {
                None
            } else {
                let p = padding_for(abs, alignment_of_code(sig[sp]) as int);
                if sig[sp] != DICT_ENTRY_SIG_START_CHAR {
                    match encode_value(e, abs + p, sig, sp, order, fds) {
                        None => None,
                        Some(body) => Some(zeros(p) + body),
                    }
                } else {
                    match e {
                        SpecValue::DictEntry(key, value) => match encode_value(
                            *key,
                            abs + p,
                            sig,
                            sp + 1,
                            order,
                            fds,
                        ) {
                            None => None,
                            Some(kb) => match encode_value(
                                *value,
                                abs + p + kb.len(),
                                sig,
                                sp + 2,
                                order,
                                fds,
                            ) {
                                None => None,
                                Some(vb) => Some(zeros(p) + kb + vb),
                            },
                        },
                        _ => None,
                    }
                }
            }
        }),
{
    reveal(encode_value);
    reveal(encode_element);
    reveal(encode_elements);
    reveal(encode_fields);
}

/// The encoding of the elements of an array, by the definition of `encode_elements`.
pub proof fn lemma_encode_elements_unfold(
    elements: Seq<SpecValue>,
    abs: int,
    sig: Seq<u8>,
    sp: int,
    order: ByteOrder,
    fds: Option<Seq<i32>>,
)
    ensures
        encode_elements(elements, abs, sig, sp, order, fds) == ({
            if elements.len() == 0 {
                Some(Seq::empty())
            } else {
                match encode_element(elements[0], abs, sig, sp, order, fds) {
                    None => None,
                    Some(first) => match encode_elements(
                        elements.drop_first(),
                        abs + first.len(),
                        sig,
                        sp,
                        order,
                        fds,
                    ) {
                        None => None,
                        Some(rest) => Some(first + rest),
                    },
                }
            }
        }),
{
    reveal(encode_value);
    reveal(encode_element);
    reveal(encode_elements);
    reveal(encode_fields);
}

/// The encoding of the fields of a structure, by the definition of `encode_fields`.
pub proof fn lemma_encode_fields_unfold(
    fields: Seq<SpecValue>,
    abs: int,
    sig: Seq<u8>,
    sp: int,
    order: ByteOrder,
    fds: Option<Seq<i32>>,
)
    ensures
        encode_fields(fields, abs, sig, sp, order, fds) == ({
            if fields.len() == 0 {
                None
            } else {
                match complete_type_len(sig, sp, false) {
                    None => None,
                    Some(m) => match encode_value(fields[0], abs, sig, sp, order, fds) {
                        None => None,
                        Some(first) => if sp + m < sig.len() && sig[sp + m] == STRUCT_SIG_END_CHAR {
                            if fields.len() == 1 {
                                Some(first)
                            } else {
                                None
                            }
                        } else {
                            match encode_fields(
                                fields.drop_first(),
                                abs + first.len(),
                                sig,
                                sp + m,
                                order,
                                fds,
                            ) {
                                None => None,
                                Some(rest) => Some(first + rest),
                            }
                        },
                    },
                }
            }
        }),
{
    reveal(encode_value);
    reveal(encode_element);
    reveal(encode_elements);
    reveal(encode_fields);
}

} // verus!
