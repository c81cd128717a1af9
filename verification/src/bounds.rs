//! How many bytes a read takes: never more than there are, and at least one
//! for a value.

use crate::encoding::ByteOrder;
use crate::signature::{
    alignment_of_code, complete_type_len, is_basic_code,
    lemma_complete_type_len_bounds, ARRAY_SIGNATURE_CHAR, DICT_ENTRY_SIG_START_CHAR,
    STRUCT_SIG_END_CHAR, STRUCT_SIG_START_CHAR, VARIANT_SIGNATURE_CHAR,
};
use crate::wire::{
    decode_array_header, decode_basic, decode_element, decode_elements, decode_fields,
    decode_fixed, decode_padding, decode_signature, decode_value,
    lemma_element_unfold, lemma_elements_unfold, lemma_fields_unfold, lemma_value_array,
    lemma_value_basic, lemma_value_none, lemma_value_structure, lemma_value_variant,
    padding_for,
};
use vstd::prelude::*;

verus! {

/// Padding is shorter than the alignment, and where it is read, it is there.
pub proof fn lemma_padding_bounds(s: Seq<u8>, abs: int, align: int)
    requires
        align > 0,
    ensures
        0 <= padding_for(abs, align) < align,
        (abs + padding_for(abs, align)) % align == 0,
        decode_padding(s, abs, align) matches Ok(p) ==> p == padding_for(abs, align) && p
            <= s.len(),
{
    let r = abs % align;
    assert(0 <= r < align);
    if r == 0 {
        assert((align - r) % align == 0) by (nonlinear_arith)
            requires
                r == 0,
                align > 0,
        ;
    } else {
        assert((align - r) % align == align - r) by (nonlinear_arith)
            requires
                0 < r < align,
        ;
        assert((abs + (align - r)) % align == 0) by (nonlinear_arith)
            requires
                r == abs % align,
                align > 0,
        ;
    }
}

/// A field of fixed size takes its padding and its size.
pub proof fn lemma_fixed_bounds(s: Seq<u8>, abs: int, size: int)
    requires
        size > 0,
    ensures
        decode_fixed(s, abs, size) matches Ok((b, n)) ==> size <= n <= s.len() && n
            == padding_for(abs, size) + size && b.len() == size,
{
    lemma_padding_bounds(s, abs, size);
}

/// A value of a basic type takes at least one byte, and no more than there
/// are.
pub proof fn lemma_basic_consumes(c: u8, s: Seq<u8>, abs: int, order: ByteOrder, fds: Option<Seq<i32>>)
    ensures
        decode_basic(c, s, abs, order, fds) matches Ok((v, n)) ==> 1 <= n <= s.len(),
{
    lemma_fixed_bounds(s, abs, 1);
    lemma_fixed_bounds(s, abs, 2);
    lemma_fixed_bounds(s, abs, 4);
    lemma_fixed_bounds(s, abs, 8);
}

/// What stands in front of the elements of an array takes at least four
/// bytes, and the element type is complete.
pub proof fn lemma_array_header_bounds(s: Seq<u8>, abs: int, sig: Seq<u8>, esp: int, order: ByteOrder)
    ensures
        decode_array_header(s, abs, sig, esp, order) matches Ok((len, m, n)) ==> 4 <= n && n
            + len <= s.len() && complete_type_len(sig, esp, true) == Some(m) && 0 <= esp
            < sig.len(),
{
    lemma_fixed_bounds(s, abs, 4);
    lemma_complete_type_len_bounds(sig, esp, true);
    match decode_fixed(s, abs, 4) {
        Ok((b, n)) => {
            if 0 <= esp < sig.len() {
                lemma_padding_bounds(s.skip(n), abs + n, alignment_of_code(sig[esp]) as int);
            }
        },
        Err(_) => {},
    }
}

/// A value takes at least one byte, and no more than there are; and where a
/// value is read, a complete type starts under the cursor.
pub proof fn lemma_value_consumes(
    s: Seq<u8>,
    abs: int,
    sig: Seq<u8>,
    sp: int,
    order: ByteOrder,
    fds: Option<Seq<i32>>,
)
    ensures
        decode_value(s, abs, sig, sp, order, fds) matches Ok((v, n)) ==> 1 <= n <= s.len()
            && complete_type_len(sig, sp, false) is Some && 0 <= sp < sig.len(),
    decreases s.len(), sig.len() - sp, 0int, 0int,
{
    if sp < 0 || sp >= sig.len() {
        lemma_value_none(s, abs, sig, sp, order, fds);
    } else if is_basic_code(sig[sp]) {
        lemma_value_basic(s, abs, sig, sp, order, fds);
        lemma_basic_consumes(sig[sp], s, abs, order, fds);
    } else if sig[sp] == VARIANT_SIGNATURE_CHAR {
        lemma_value_variant(s, abs, sig, sp, order, fds);
        match decode_signature(s) {
            Ok((inner, n)) => {
                lemma_value_consumes(s.skip(n), abs + n, inner, 0, order, fds);
            },
            Err(_) => {},
        }
    } else if sig[sp] == ARRAY_SIGNATURE_CHAR {
        lemma_value_array(s, abs, sig, sp, order, fds);
        lemma_array_header_bounds(s, abs, sig, sp + 1, order);
        match decode_array_header(s, abs, sig, sp + 1, order) {
            Ok((len, _, n)) => {
                lemma_elements_consume(s.skip(n), abs + n, 0, len as int, sig, sp + 1, order, fds);
            },
            Err(_) => {},
        }
    } else if sig[sp] == STRUCT_SIG_START_CHAR {
        lemma_value_structure(s, abs, sig, sp, order, fds);
        lemma_padding_bounds(s, abs, 8);
        match decode_padding(s, abs, 8) {
            Ok(p) => {
                if complete_type_len(sig, sp, false) is Some {
                    lemma_fields_consume(s, abs, p, sig, sp + 1, order, fds);
                }
            },
            Err(_) => {},
        }
    } else {
        lemma_value_none(s, abs, sig, sp, order, fds);
    }
}

/// An element of an array takes at least one byte, no more than there are,
/// and no more than the array has left.
pub proof fn lemma_element_consumes(
    s: Seq<u8>,
    abs: int,
    limit: int,
    sig: Seq<u8>,
    sp: int,
    order: ByteOrder,
    fds: Option<Seq<i32>>,
)
    ensures
        decode_element(s, abs, limit, sig, sp, order, fds) matches Ok((v, n)) ==> 1 <= n
            <= s.len() && n <= limit,
    decreases s.len(), sig.len() - sp, 1int, 0int,
{
    reveal(decode_element);
    if 0 <= sp < sig.len() {
        lemma_element_unfold(s, abs, limit, sig, sp, order, fds);
        lemma_padding_bounds(s, abs, alignment_of_code(sig[sp]) as int);
        match decode_padding(s, abs, alignment_of_code(sig[sp]) as int) {
            Ok(p) => {
                if sig[sp] != DICT_ENTRY_SIG_START_CHAR {
                    lemma_value_consumes(s.skip(p), abs + p, sig, sp, order, fds);
                } else {
                    lemma_value_consumes(s.skip(p), abs + p, sig, sp + 1, order, fds);
                    match decode_value(s.skip(p), abs + p, sig, sp + 1, order, fds) {
                        Ok((key, n)) => {
                            if !(n < 0 || p + n > limit || p + n > s.len()) && sp + 2
                                <= sig.len() {
                                lemma_value_consumes(
                                    s.skip(p + n),
                                    abs + p + n,
                                    sig,
                                    sp + 2,
                                    order,
                                    fds,
                                );
                            }
                        },
                        Err(_) => {},
                    }
                }
            },
            Err(_) => {},
        }
    }
}

/// Where the elements of an array are read, the bytes that the array
/// declares are there.
pub proof fn lemma_elements_consume(
    s: Seq<u8>,
    abs: int,
    off: int,
    end: int,
    sig: Seq<u8>,
    sp: int,
    order: ByteOrder,
    fds: Option<Seq<i32>>,
)
    ensures
        decode_elements(s, abs, off, end, sig, sp, order, fds) is Ok ==> off >= end || end
            <= s.len(),
    decreases s.len(), sig.len() - sp, 2int, end - off,
{
    lemma_elements_unfold(s, abs, off, end, sig, sp, order, fds);
    if off < end && 0 <= off <= s.len() {
        lemma_element_consumes(s.skip(off), abs + off, end - off, sig, sp, order, fds);
        match decode_element(s.skip(off), abs + off, end - off, sig, sp, order, fds) {
            Ok((v, n)) => {
                if !(n <= 0 || off + n > end) {
                    lemma_elements_consume(s, abs, off + n, end, sig, sp, order, fds);
                }
            },
            Err(_) => {},
        }
    }
}

/// The fields of a structure take at least one byte, and end within the
/// bytes; there is at least one field.
pub proof fn lemma_fields_consume(
    s: Seq<u8>,
    abs: int,
    off: int,
    sig: Seq<u8>,
    sp: int,
    order: ByteOrder,
    fds: Option<Seq<i32>>,
)
    ensures
        decode_fields(s, abs, off, sig, sp, order, fds) matches Ok((fields, end)) ==> 0 <= off
            < end <= s.len() && fields.len() >= 1,
    decreases s.len(), sig.len() - sp, 1int, 0int,
{
    lemma_fields_unfold(s, abs, off, sig, sp, order, fds);
    if 0 <= off <= s.len() {
        lemma_complete_type_len_bounds(sig, sp, false);
        match complete_type_len(sig, sp, false) {
            Some(m) => {
                lemma_value_consumes(s.skip(off), abs + off, sig, sp, order, fds);
                match decode_value(s.skip(off), abs + off, sig, sp, order, fds) {
                    Ok((v, n)) => {
                        if !(sp + m < sig.len() && sig[sp + m] == STRUCT_SIG_END_CHAR) {
                            lemma_fields_consume(s, abs, off + n, sig, sp + m, order, fds);
                        }
                    },
                    Err(_) => {},
                }
            },
            None => {},
        }
    }
}

} // verus!
