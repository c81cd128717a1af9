//! Padding must be zero, wherever in a value it stands.

use crate::bounds::{lemma_element_consumes, lemma_padding_bounds};
use crate::encode::{
    encode_element, encode_elements, encode_fields, encode_fixed, encode_signature, encode_value,
    lemma_encode_element_unfold, lemma_encode_elements_unfold, lemma_encode_fields_unfold,
    lemma_encode_value_unfold, zeros,
};
use crate::encoding::ByteOrder;
use crate::endian::{bytes_of_u32, lemma_u32_round_trip};
use crate::error::Error;
use crate::laws::{
    begins_with, lemma_alignment_zero_check, lemma_begins_split,
    lemma_encoding_starts_with_padding, lemma_fixed_round_trip, lemma_padding_not_zero,
    lemma_padding_round_trip, lemma_round_trip, lemma_round_trip_element,
    lemma_signature_round_trip,
};
use crate::signature::{
    alignment_of_code, complete_type_len, is_basic_code, ARRAY_SIGNATURE_CHAR,
    DICT_ENTRY_SIG_START_CHAR, STRUCT_SIG_END_CHAR, STRUCT_SIG_START_CHAR,
    VARIANT_SIGNATURE_CHAR,
};
use crate::wire::{
    decode_element, decode_elements, decode_fields, decode_value, is_first_nonzero,
    lemma_element_unfold, lemma_elements_unfold, lemma_fields_unfold, lemma_value_array,
    lemma_value_structure, lemma_value_variant, padding_for, SpecValue,
};
use vstd::prelude::*;

verus! {

/// Whether byte `i` of the encoding of `v` is a padding byte: one in front
/// of `v` itself, or one in front of anything that `v` holds.
pub open spec fn is_padding(
    v: SpecValue,
    abs: int,
    sig: Seq<u8>,
    sp: int,
    order: ByteOrder,
    fds: Option<Seq<i32>>,
    i: int,
) -> bool
    decreases v, 0int,
{
    if sp < 0 || sp >= sig.len() {
        false
    } else if is_basic_code(sig[sp]) {
        0 <= i < padding_for(abs, alignment_of_code(sig[sp]) as int)
    } else if sig[sp] == VARIANT_SIGNATURE_CHAR {
        match v {
            SpecValue::Variant(inner, value) => i >= inner.len() + 2 && is_padding(
                *value,
                abs + inner.len() + 2,
                inner,
                0,
                order,
                fds,
                i - (inner.len() + 2),
            ),
            _ => false,
        }
    } else if sig[sp] == ARRAY_SIGNATURE_CHAR {
        match v {
            SpecValue::Array(elements) => {
                let lead = padding_for(abs, 4) + 4;
                let gap = padding_for(abs + lead, alignment_of_code(sig[sp + 1]) as int);
                (0 <= i < padding_for(abs, 4)) || (lead <= i < lead + gap) || (i >= lead + gap
                    && is_padding_in_elements(
                    elements,
                    abs + lead + gap,
                    sig,
                    sp + 1,
                    order,
                    fds,
                    i - (lead + gap),
                ))
            },
            _ => false,
        }
    } else if sig[sp] == STRUCT_SIG_START_CHAR {
        match v {
            SpecValue::Structure(fields) => {
                let p = padding_for(abs, 8);
                (0 <= i < p) || (i >= p && is_padding_in_fields(
                    fields,
                    abs + p,
                    sig,
                    sp + 1,
                    order,
                    fds,
                    i - p,
                ))
            },
            _ => false,
        }
    } else {
        false
    }
}

/// Whether byte `i` of the encoding of the element `e` of an array is a
/// padding byte.
pub open spec fn is_padding_in_element(
    e: SpecValue,
    abs: int,
    sig: Seq<u8>,
    sp: int,
    order: ByteOrder,
    fds: Option<Seq<i32>>,
    i: int,
) -> bool
    decreases e, 1int,
{
    if sp < 0 || sp >= sig.len() {
        false
    } else {
        let p = padding_for(abs, alignment_of_code(sig[sp]) as int);
        if 0 <= i < p {
            true
        } else if i < p {
            false
        } else if sig[sp] != DICT_ENTRY_SIG_START_CHAR {
            is_padding(e, abs + p, sig, sp, order, fds, i - p)
        } else {
            match e {
                SpecValue::DictEntry(key, value) => match encode_value(
                    *key,
                    abs + p,
                    sig,
                    sp + 1,
                    order,
                    fds,
                ) {
                    Some(kb) => if i - p < kb.len() {
                        is_padding(*key, abs + p, sig, sp + 1, order, fds, i - p)
                    } else {
                        is_padding(
                            *value,
                            abs + p + kb.len(),
                            sig,
                            sp + 2,
                            order,
                            fds,
                            i - p - kb.len(),
                        )
                    },
                    None => false,
                },
                _ => false,
            }
        }
    }
}

/// Whether byte `i` of the encoding of the elements of an array is a padding
/// byte.
pub open spec fn is_padding_in_elements(
    elements: Seq<SpecValue>,
    abs: int,
    sig: Seq<u8>,
    sp: int,
    order: ByteOrder,
    fds: Option<Seq<i32>>,
    i: int,
) -> bool
    decreases elements, 2int,
{
    if elements.len() == 0 {
        false
    } else {
        match encode_element(elements[0], abs, sig, sp, order, fds) {
            Some(first) => if i < first.len() {
                is_padding_in_element(elements[0], abs, sig, sp, order, fds, i)
            } else {
                is_padding_in_elements(
                    elements.drop_first(),
                    abs + first.len(),
                    sig,
                    sp,
                    order,
                    fds,
                    i - first.len(),
                )
            },
            None => false,
        }
    }
}

/// Whether byte `i` of the encoding of the fields of a structure is a
/// padding byte.
pub open spec fn is_padding_in_fields(
    fields: Seq<SpecValue>,
    abs: int,
    sig: Seq<u8>,
    sp: int,
    order: ByteOrder,
    fds: Option<Seq<i32>>,
    i: int,
) -> bool
    decreases fields, 2int,
{
    if fields.len() == 0 {
        false
    } else {
        match (complete_type_len(sig, sp, false), encode_value(fields[0], abs, sig, sp, order, fds)) {
            (Some(m), Some(first)) => if i < first.len() {
                is_padding(fields[0], abs, sig, sp, order, fds, i)
            } else {
                is_padding_in_fields(
                    fields.drop_first(),
                    abs + first.len(),
                    sig,
                    sp + m,
                    order,
                    fds,
                    i - first.len(),
                )
            },
            _ => false,
        }
    }
}

/// Whether `s` starts with the bytes `b`, but for byte `i`, which is `x`.
pub open spec fn corrupted(s: Seq<u8>, b: Seq<u8>, i: int, x: u8) -> bool {
    &&& b.len() <= s.len()
    &&& 0 <= i < b.len()
    &&& s[i] == x
    &&& forall|j: int| 0 <= j < b.len() && j != i ==> s[j] == b[j]
}

/// Of two runs of bytes one of which is corrupted, either the first is, and
/// the second follows untouched, or the first is untouched, and the second
/// is.
pub proof fn lemma_corrupted_split(s: Seq<u8>, a: Seq<u8>, b: Seq<u8>, i: int, x: u8)
    requires
        corrupted(s, a + b, i, x),
    ensures
        i < a.len() ==> corrupted(s, a, i, x) && begins_with(s.skip(a.len() as int), b),
        i >= a.len() ==> begins_with(s, a) && corrupted(s.skip(a.len() as int), b, i - a.len(), x),
{
    assert forall|j: int| 0 <= j < a.len() && j != i implies s[j] == a[j] by {
        assert((a + b)[j] == a[j]);
    }
    assert forall|j: int| 0 <= j < b.len() && a.len() + j != i implies s.skip(a.len() as int)[j]
        == b[j] by {
        assert((a + b)[a.len() + j] == b[j]);
    }
}

/// Padding one byte of which is not zero is refused with that byte.
pub proof fn lemma_corrupted_zeros(s: Seq<u8>, abs: int, align: int, i: int, x: u8)
    requires
        align > 0,
        corrupted(s, zeros(padding_for(abs, align)), i, x),
        x != 0,
    ensures
        crate::wire::decode_padding(s, abs, align) == Err::<int, Error>(Error::PaddingNot0(x)),
{
    let p = padding_for(abs, align);
    assert(is_first_nonzero(s, p, i)) by {
        assert forall|j: int| 0 <= j < i implies s[j] == 0 by {
            assert(zeros(p)[j] == 0);
        }
    }
    lemma_padding_not_zero(s, abs, align, i);
}

/// Alignment zero-check, for every padding byte: once any padding byte of
/// the encoding of a value, however deep in the value, is set to something
/// that is not zero, the value is refused with `PaddingNot0` and that byte.
pub proof fn lemma_padding_must_be_zero(
    v: SpecValue,
    s: Seq<u8>,
    abs: int,
    sig: Seq<u8>,
    sp: int,
    order: ByteOrder,
    fds: Option<Seq<i32>>,
    i: int,
    x: u8,
)
    requires
        encode_value(v, abs, sig, sp, order, fds) matches Some(b) && corrupted(s, b, i, x),
        is_padding(v, abs, sig, sp, order, fds, i),
        x != 0,
    ensures
        decode_value(s, abs, sig, sp, order, fds) == Err::<(SpecValue, int), Error>(
            Error::PaddingNot0(x),
        ),
    decreases v, 1int,
{
    lemma_encode_value_unfold(v, abs, sig, sp, order, fds);
    let b = encode_value(v, abs, sig, sp, order, fds)->Some_0;
    if is_basic_code(sig[sp]) {
        let p = padding_for(abs, alignment_of_code(sig[sp]) as int);
        lemma_encoding_starts_with_padding(v, abs, sig, sp, order, fds);
        assert(is_first_nonzero(s, p, i)) by {
            assert forall|j: int| 0 <= j < i implies s[j] == 0 by {
                assert(zeros(p)[j] == 0);
            }
        }
        lemma_alignment_zero_check(s, abs, sig, sp, order, fds, i);
    } else if sig[sp] == VARIANT_SIGNATURE_CHAR {
        lemma_variant_padding(v, s, abs, sig, sp, order, fds, i, x);
    } else if sig[sp] == ARRAY_SIGNATURE_CHAR {
        lemma_array_padding(v, s, abs, sig, sp, order, fds, i, x);
    } else if sig[sp] == STRUCT_SIG_START_CHAR {
        lemma_structure_padding(v, s, abs, sig, sp, order, fds, i, x);
    }
}

/// A variant with a padding byte that is not zero is refused.
proof fn lemma_variant_padding(
    v: SpecValue,
    s: Seq<u8>,
    abs: int,
    sig: Seq<u8>,
    sp: int,
    order: ByteOrder,
    fds: Option<Seq<i32>>,
    i: int,
    x: u8,
)
    requires
        0 <= sp < sig.len(),
        sig[sp] == VARIANT_SIGNATURE_CHAR,
        encode_value(v, abs, sig, sp, order, fds) matches Some(b) && corrupted(s, b, i, x),
        is_padding(v, abs, sig, sp, order, fds, i),
        x != 0,
    ensures
        decode_value(s, abs, sig, sp, order, fds) == Err::<(SpecValue, int), Error>(
            Error::PaddingNot0(x),
        ),
    decreases v, 0int,
{
    lemma_encode_value_unfold(v, abs, sig, sp, order, fds);
    lemma_value_variant(s, abs, sig, sp, order, fds);
    match v {
        SpecValue::Variant(inner, value) => {
            let head = encode_signature(inner)->Some_0;
            let body = encode_value(*value, abs + head.len(), inner, 0, order, fds)->Some_0;
            assert(head.len() == inner.len() + 2);
            lemma_corrupted_split(s, head, body, i, x);
            lemma_signature_round_trip(s, inner);
            lemma_padding_must_be_zero(
                *value,
                s.skip(head.len() as int),
                abs + head.len(),
                inner,
                0,
                order,
                fds,
                i - head.len(),
                x,
            );
        },
        _ => {},
    }
}

/// An array with a padding byte that is not zero is refused.
proof fn lemma_array_padding(
    v: SpecValue,
    s: Seq<u8>,
    abs: int,
    sig: Seq<u8>,
    sp: int,
    order: ByteOrder,
    fds: Option<Seq<i32>>,
    i: int,
    x: u8,
)
    requires
        0 <= sp < sig.len(),
        sig[sp] == ARRAY_SIGNATURE_CHAR,
        encode_value(v, abs, sig, sp, order, fds) matches Some(b) && corrupted(s, b, i, x),
        is_padding(v, abs, sig, sp, order, fds, i),
        x != 0,
    ensures
        decode_value(s, abs, sig, sp, order, fds) == Err::<(SpecValue, int), Error>(
            Error::PaddingNot0(x),
        ),
    decreases v, 0int,
{
    lemma_encode_value_unfold(v, abs, sig, sp, order, fds);
    lemma_value_array(s, abs, sig, sp, order, fds);
    match v {
        SpecValue::Array(elements) => {
            let lead = padding_for(abs, 4) + 4;
            let align = alignment_of_code(sig[sp + 1]) as int;
            let gap = padding_for(abs + lead, align);
            let payload = encode_elements(elements, abs + lead + gap, sig, sp + 1, order, fds)->Some_0;
            let prefix = bytes_of_u32(order, payload.len() as u32);
            let head = encode_fixed(abs, prefix);
            lemma_u32_round_trip(order, payload.len() as u32);
            lemma_padding_bounds(s, abs, 4);
            lemma_padding_bounds(s, abs + lead, align);
            assert(head.len() == lead);
            lemma_corrupted_split(s, head + zeros(gap), payload, i, x);
            if i < padding_for(abs, 4) {
                lemma_corrupted_split(s, head, zeros(gap), i, x);
                lemma_corrupted_split(s, zeros(padding_for(abs, 4)), prefix, i, x);
                lemma_corrupted_zeros(s, abs, 4, i, x);
            } else if i < lead + gap {
                lemma_corrupted_split(s, head, zeros(gap), i, x);
                lemma_fixed_round_trip(s, abs, prefix);
                lemma_corrupted_zeros(s.skip(lead), abs + lead, align, i - lead, x);
            } else {
                lemma_begins_split(s, head, zeros(gap));
                lemma_fixed_round_trip(s, abs, prefix);
                lemma_padding_round_trip(s.skip(lead), abs + lead, align);
                let rest = s.skip(lead + gap);
                assert(rest.skip(0) =~= rest);
                lemma_elements_padding(
                    elements,
                    rest,
                    abs + lead + gap,
                    0,
                    payload.len() as int,
                    sig,
                    sp + 1,
                    order,
                    fds,
                    i - (lead + gap),
                    x,
                );
            }
        },
        _ => {},
    }
}

/// A structure with a padding byte that is not zero is refused.
proof fn lemma_structure_padding(
    v: SpecValue,
    s: Seq<u8>,
    abs: int,
    sig: Seq<u8>,
    sp: int,
    order: ByteOrder,
    fds: Option<Seq<i32>>,
    i: int,
    x: u8,
)
    requires
        0 <= sp < sig.len(),
        sig[sp] == STRUCT_SIG_START_CHAR,
        encode_value(v, abs, sig, sp, order, fds) matches Some(b) && corrupted(s, b, i, x),
        is_padding(v, abs, sig, sp, order, fds, i),
        x != 0,
    ensures
        decode_value(s, abs, sig, sp, order, fds) == Err::<(SpecValue, int), Error>(
            Error::PaddingNot0(x),
        ),
    decreases v, 0int,
{
    lemma_encode_value_unfold(v, abs, sig, sp, order, fds);
    lemma_value_structure(s, abs, sig, sp, order, fds);
    match v {
        SpecValue::Structure(fields) => {
            let p = padding_for(abs, 8);
            let body = encode_fields(fields, abs + p, sig, sp + 1, order, fds)->Some_0;
            lemma_padding_bounds(s, abs, 8);
            lemma_corrupted_split(s, zeros(p), body, i, x);
            if i < p {
                lemma_corrupted_zeros(s, abs, 8, i, x);
            } else {
                lemma_padding_round_trip(s, abs, 8);
                lemma_fields_padding(fields, s, abs, p, sig, sp + 1, order, fds, i - p, x);
            }
        },
        _ => {},
    }
}

/// An element of an array with a padding byte that is not zero is refused.
pub proof fn lemma_element_padding(
    e: SpecValue,
    s: Seq<u8>,
    abs: int,
    limit: int,
    sig: Seq<u8>,
    sp: int,
    order: ByteOrder,
    fds: Option<Seq<i32>>,
    i: int,
    x: u8,
)
    requires
        encode_element(e, abs, sig, sp, order, fds) matches Some(b) && corrupted(s, b, i, x)
            && b.len() <= limit,
        is_padding_in_element(e, abs, sig, sp, order, fds, i),
        x != 0,
    ensures
        decode_element(s, abs, limit, sig, sp, order, fds) == Err::<(SpecValue, int), Error>(
            Error::PaddingNot0(x),
        ),
    decreases e, 2int,
{
    lemma_encode_element_unfold(e, abs, sig, sp, order, fds);
    lemma_element_unfold(s, abs, limit, sig, sp, order, fds);
    let align = alignment_of_code(sig[sp]) as int;
    let p = padding_for(abs, align);
    lemma_padding_bounds(s, abs, align);
    if sig[sp] != DICT_ENTRY_SIG_START_CHAR {
        let body = encode_value(e, abs + p, sig, sp, order, fds)->Some_0;
        lemma_corrupted_split(s, zeros(p), body, i, x);
        if i < p {
            lemma_corrupted_zeros(s, abs, align, i, x);
        } else {
            lemma_padding_round_trip(s, abs, align);
            lemma_padding_must_be_zero(e, s.skip(p), abs + p, sig, sp, order, fds, i - p, x);
        }
    } else {
        match e {
            SpecValue::DictEntry(key, value) => {
                let kb = encode_value(*key, abs + p, sig, sp + 1, order, fds)->Some_0;
                let vb = encode_value(*value, abs + p + kb.len(), sig, sp + 2, order, fds)->Some_0;
                lemma_encode_value_unfold(*value, abs + p + kb.len(), sig, sp + 2, order, fds);
                lemma_corrupted_split(s, zeros(p) + kb, vb, i, x);
                if i < p {
                    lemma_corrupted_split(s, zeros(p), kb, i, x);
                    lemma_corrupted_zeros(s, abs, align, i, x);
                } else if i < p + kb.len() {
                    lemma_corrupted_split(s, zeros(p), kb, i, x);
                    lemma_padding_round_trip(s, abs, align);
                    lemma_padding_must_be_zero(
                        *key,
                        s.skip(p),
                        abs + p,
                        sig,
                        sp + 1,
                        order,
                        fds,
                        i - p,
                        x,
                    );
                } else {
                    lemma_begins_split(s, zeros(p), kb);
                    lemma_padding_round_trip(s, abs, align);
                    lemma_round_trip(*key, s.skip(p), abs + p, sig, sp + 1, order, fds);
                    lemma_padding_must_be_zero(
                        *value,
                        s.skip(p + kb.len()),
                        abs + p + kb.len(),
                        sig,
                        sp + 2,
                        order,
                        fds,
                        i - p - kb.len(),
                        x,
                    );
                }
            },
            _ => {},
        }
    }
}

/// The elements of an array with a padding byte that is not zero are
/// refused.
pub proof fn lemma_elements_padding(
    elements: Seq<SpecValue>,
    s: Seq<u8>,
    abs: int,
    off: int,
    end: int,
    sig: Seq<u8>,
    sp: int,
    order: ByteOrder,
    fds: Option<Seq<i32>>,
    i: int,
    x: u8,
)
    requires
        0 <= off <= s.len(),
        encode_elements(elements, abs + off, sig, sp, order, fds) matches Some(b) && corrupted(
            s.skip(off),
            b,
            i,
            x,
        ) && end == off + b.len(),
        is_padding_in_elements(elements, abs + off, sig, sp, order, fds, i),
        x != 0,
    ensures
        decode_elements(s, abs, off, end, sig, sp, order, fds) == Err::<Seq<SpecValue>, Error>(
            Error::PaddingNot0(x),
        ),
    decreases elements, 3int,
{
    lemma_encode_elements_unfold(elements, abs + off, sig, sp, order, fds);
    lemma_elements_unfold(s, abs, off, end, sig, sp, order, fds);
    let first = encode_element(elements[0], abs + off, sig, sp, order, fds)->Some_0;
    let rest = encode_elements(
        elements.drop_first(),
        abs + off + first.len(),
        sig,
        sp,
        order,
        fds,
    )->Some_0;
    lemma_corrupted_split(s.skip(off), first, rest, i, x);
    if i < first.len() {
        lemma_element_padding(
            elements[0],
            s.skip(off),
            abs + off,
            end - off,
            sig,
            sp,
            order,
            fds,
            i,
            x,
        );
    } else {
        lemma_round_trip_element(elements[0], s.skip(off), abs + off, end - off, sig, sp, order, fds);
        lemma_element_consumes(s.skip(off), abs + off, end - off, sig, sp, order, fds);
        assert(s.skip(off).skip(first.len() as int) =~= s.skip(off + first.len()));
        lemma_elements_padding(
            elements.drop_first(),
            s,
            abs,
            off + first.len(),
            end,
            sig,
            sp,
            order,
            fds,
            i - first.len(),
            x,
        );
    }
}

/// The fields of a structure with a padding byte that is not zero are
/// refused.
pub proof fn lemma_fields_padding(
    fields: Seq<SpecValue>,
    s: Seq<u8>,
    abs: int,
    off: int,
    sig: Seq<u8>,
    sp: int,
    order: ByteOrder,
    fds: Option<Seq<i32>>,
    i: int,
    x: u8,
)
    requires
        0 <= off <= s.len(),
        encode_fields(fields, abs + off, sig, sp, order, fds) matches Some(b) && corrupted(
            s.skip(off),
            b,
            i,
            x,
        ),
        is_padding_in_fields(fields, abs + off, sig, sp, order, fds, i),
        x != 0,
    ensures
        decode_fields(s, abs, off, sig, sp, order, fds) == Err::<(Seq<SpecValue>, int), Error>(
            Error::PaddingNot0(x),
        ),
    decreases fields, 3int,
{
    lemma_encode_fields_unfold(fields, abs + off, sig, sp, order, fds);
    lemma_fields_unfold(s, abs, off, sig, sp, order, fds);
    let m = complete_type_len(sig, sp, false)->Some_0;
    let first = encode_value(fields[0], abs + off, sig, sp, order, fds)->Some_0;
    if sp + m < sig.len() && sig[sp + m] == STRUCT_SIG_END_CHAR {
        lemma_padding_must_be_zero(fields[0], s.skip(off), abs + off, sig, sp, order, fds, i, x);
    } else {
        let rest = encode_fields(
            fields.drop_first(),
            abs + off + first.len(),
            sig,
            sp + m,
            order,
            fds,
        )->Some_0;
        lemma_corrupted_split(s.skip(off), first, rest, i, x);
        if i < first.len() {
            lemma_padding_must_be_zero(fields[0], s.skip(off), abs + off, sig, sp, order, fds, i, x);
        } else {
            lemma_round_trip(fields[0], s.skip(off), abs + off, sig, sp, order, fds);
            assert(s.skip(off).skip(first.len() as int) =~= s.skip(off + first.len()));
            lemma_fields_padding(
                fields.drop_first(),
                s,
                abs,
                off + first.len(),
                sig,
                sp + m,
                order,
                fds,
                i - first.len(),
                x,
            );
        }
    }
}

/// A padding byte of the encoding of a value is zero.
pub proof fn lemma_padding_is_zero(
    v: SpecValue,
    abs: int,
    sig: Seq<u8>,
    sp: int,
    order: ByteOrder,
    fds: Option<Seq<i32>>,
    i: int,
)
    requires
        encode_value(v, abs, sig, sp, order, fds) is Some,
        is_padding(v, abs, sig, sp, order, fds, i),
    ensures
        0 <= i < encode_value(v, abs, sig, sp, order, fds)->Some_0.len(),
        encode_value(v, abs, sig, sp, order, fds)->Some_0[i] == 0,
    decreases v, 0int,
{
    lemma_encode_value_unfold(v, abs, sig, sp, order, fds);
    let b = encode_value(v, abs, sig, sp, order, fds)->Some_0;
    if is_basic_code(sig[sp]) {
        let p = padding_for(abs, alignment_of_code(sig[sp]) as int);
        lemma_encoding_starts_with_padding(v, abs, sig, sp, order, fds);
        assert(zeros(p)[i] == 0);
    } else if sig[sp] == VARIANT_SIGNATURE_CHAR {
        match v {
            SpecValue::Variant(inner, value) => {
                let head = encode_signature(inner)->Some_0;
                let body = encode_value(*value, abs + head.len(), inner, 0, order, fds)->Some_0;
                assert(head.len() == inner.len() + 2);
                lemma_padding_is_zero(*value, abs + head.len(), inner, 0, order, fds, i - head.len());
                assert(b[i] == body[i - head.len()]);
            },
            _ => {},
        }
    } else if sig[sp] == ARRAY_SIGNATURE_CHAR {
        match v {
            SpecValue::Array(elements) => {
                let lead = padding_for(abs, 4) + 4;
                let align = alignment_of_code(sig[sp + 1]) as int;
                let gap = padding_for(abs + lead, align);
                let payload = encode_elements(elements, abs + lead + gap, sig, sp + 1, order, fds)->Some_0;
                let prefix = bytes_of_u32(order, payload.len() as u32);
                let head = encode_fixed(abs, prefix);
                lemma_u32_round_trip(order, payload.len() as u32);
                lemma_padding_bounds(b, abs, 4);
                lemma_padding_bounds(b, abs + lead, align);
                assert(head.len() == lead);
                if i < padding_for(abs, 4) {
                    assert(b[i] == zeros(padding_for(abs, 4))[i]);
                } else if i < lead + gap {
                    assert(b[i] == zeros(gap)[i - lead]);
                } else {
                    lemma_padding_in_elements_is_zero(
                        elements,
                        abs + lead + gap,
                        sig,
                        sp + 1,
                        order,
                        fds,
                        i - (lead + gap),
                    );
                    assert(b[i] == payload[i - (lead + gap)]);
                }
            },
            _ => {},
        }
    } else if sig[sp] == STRUCT_SIG_START_CHAR {
        match v {
            SpecValue::Structure(fields) => {
                let p = padding_for(abs, 8);
                let body = encode_fields(fields, abs + p, sig, sp + 1, order, fds)->Some_0;
                lemma_padding_bounds(b, abs, 8);
                if i < p {
                    assert(b[i] == zeros(p)[i]);
                } else {
                    lemma_padding_in_fields_is_zero(fields, abs + p, sig, sp + 1, order, fds, i - p);
                    assert(b[i] == body[i - p]);
                }
            },
            _ => {},
        }
    }
}

/// A padding byte of the encoding of an element is zero.
pub proof fn lemma_padding_in_element_is_zero(
    e: SpecValue,
    abs: int,
    sig: Seq<u8>,
    sp: int,
    order: ByteOrder,
    fds: Option<Seq<i32>>,
    i: int,
)
    requires
        encode_element(e, abs, sig, sp, order, fds) is Some,
        is_padding_in_element(e, abs, sig, sp, order, fds, i),
    ensures
        0 <= i < encode_element(e, abs, sig, sp, order, fds)->Some_0.len(),
        encode_element(e, abs, sig, sp, order, fds)->Some_0[i] == 0,
    decreases e, 1int,
{
    lemma_encode_element_unfold(e, abs, sig, sp, order, fds);
    let b = encode_element(e, abs, sig, sp, order, fds)->Some_0;
    let align = alignment_of_code(sig[sp]) as int;
    let p = padding_for(abs, align);
    lemma_padding_bounds(b, abs, align);
    if i < p {
        assert(b[i] == zeros(p)[i]);
    } else if sig[sp] != DICT_ENTRY_SIG_START_CHAR {
        let body = encode_value(e, abs + p, sig, sp, order, fds)->Some_0;
        lemma_padding_is_zero(e, abs + p, sig, sp, order, fds, i - p);
        assert(b[i] == body[i - p]);
    } else {
        match e {
            SpecValue::DictEntry(key, value) => {
                let kb = encode_value(*key, abs + p, sig, sp + 1, order, fds)->Some_0;
                let vb = encode_value(*value, abs + p + kb.len(), sig, sp + 2, order, fds)->Some_0;
                if i - p < kb.len() {
                    lemma_padding_is_zero(*key, abs + p, sig, sp + 1, order, fds, i - p);
                    assert(b[i] == kb[i - p]);
                } else {
                    lemma_padding_is_zero(
                        *value,
                        abs + p + kb.len(),
                        sig,
                        sp + 2,
                        order,
                        fds,
                        i - p - kb.len(),
                    );
                    assert(b[i] == vb[i - p - kb.len()]);
                }
            },
            _ => {},
        }
    }
}

/// A padding byte of the encoding of the elements of an array is zero.
pub proof fn lemma_padding_in_elements_is_zero(
    elements: Seq<SpecValue>,
    abs: int,
    sig: Seq<u8>,
    sp: int,
    order: ByteOrder,
    fds: Option<Seq<i32>>,
    i: int,
)
    requires
        encode_elements(elements, abs, sig, sp, order, fds) is Some,
        is_padding_in_elements(elements, abs, sig, sp, order, fds, i),
    ensures
        0 <= i < encode_elements(elements, abs, sig, sp, order, fds)->Some_0.len(),
        encode_elements(elements, abs, sig, sp, order, fds)->Some_0[i] == 0,
    decreases elements, 2int,
{
    lemma_encode_elements_unfold(elements, abs, sig, sp, order, fds);
    let b = encode_elements(elements, abs, sig, sp, order, fds)->Some_0;
    let first = encode_element(elements[0], abs, sig, sp, order, fds)->Some_0;
    let rest = encode_elements(elements.drop_first(), abs + first.len(), sig, sp, order, fds)->Some_0;
    if i < first.len() {
        lemma_padding_in_element_is_zero(elements[0], abs, sig, sp, order, fds, i);
        assert(b[i] == first[i]);
    } else {
        lemma_padding_in_elements_is_zero(
            elements.drop_first(),
            abs + first.len(),
            sig,
            sp,
            order,
            fds,
            i - first.len(),
        );
        assert(b[i] == rest[i - first.len()]);
    }
}

/// A padding byte of the encoding of the fields of a structure is zero.
pub proof fn lemma_padding_in_fields_is_zero(
    fields: Seq<SpecValue>,
    abs: int,
    sig: Seq<u8>,
    sp: int,
    order: ByteOrder,
    fds: Option<Seq<i32>>,
    i: int,
)
    requires
        encode_fields(fields, abs, sig, sp, order, fds) is Some,
        is_padding_in_fields(fields, abs, sig, sp, order, fds, i),
    ensures
        0 <= i < encode_fields(fields, abs, sig, sp, order, fds)->Some_0.len(),
        encode_fields(fields, abs, sig, sp, order, fds)->Some_0[i] == 0,
    decreases fields, 2int,
{
    lemma_encode_fields_unfold(fields, abs, sig, sp, order, fds);
    let b = encode_fields(fields, abs, sig, sp, order, fds)->Some_0;
    let m = complete_type_len(sig, sp, false)->Some_0;
    let first = encode_value(fields[0], abs, sig, sp, order, fds)->Some_0;
    if i < first.len() {
        lemma_padding_is_zero(fields[0], abs, sig, sp, order, fds, i);
        if !(sp + m < sig.len() && sig[sp + m] == STRUCT_SIG_END_CHAR) {
            assert(b[i] == first[i]);
        }
    } else if sp + m < sig.len() && sig[sp + m] == STRUCT_SIG_END_CHAR {
        assert(fields.drop_first().len() == 0);
        assert(!is_padding_in_fields(
            fields.drop_first(),
            abs + first.len(),
            sig,
            sp + m,
            order,
            fds,
            i - first.len(),
        ));
    } else {
        let rest = encode_fields(fields.drop_first(), abs + first.len(), sig, sp + m, order, fds)->Some_0;
        lemma_padding_in_fields_is_zero(
            fields.drop_first(),
            abs + first.len(),
            sig,
            sp + m,
            order,
            fds,
            i - first.len(),
        );
        assert(b[i] == rest[i - first.len()]);
    }
}

/// Alignment zero-check, on an encoding: once a padding byte of an encoded
/// value is set to something that is not zero, the value is refused with
/// `PaddingNot0` and that byte; set back to zero, it is accepted.
pub proof fn lemma_corrupted_padding(
    v: SpecValue,
    abs: int,
    sig: Seq<u8>,
    sp: int,
    order: ByteOrder,
    fds: Option<Seq<i32>>,
    i: int,
    x: u8,
)
    requires
        encode_value(v, abs, sig, sp, order, fds) is Some,
        is_padding(v, abs, sig, sp, order, fds, i),
        x != 0,
    ensures
        ({
            let b = encode_value(v, abs, sig, sp, order, fds)->Some_0;
            &&& decode_value(b.update(i, x), abs, sig, sp, order, fds) == Err::<
                (SpecValue, int),
                Error,
            >(Error::PaddingNot0(x))
            &&& decode_value(b.update(i, x).update(i, 0), abs, sig, sp, order, fds) == Ok::<
                (SpecValue, int),
                Error,
            >((v, b.len() as int))
        }),
{
    let b = encode_value(v, abs, sig, sp, order, fds)->Some_0;
    lemma_padding_is_zero(v, abs, sig, sp, order, fds, i);
    lemma_round_trip(v, b, abs, sig, sp, order, fds);
    let bad = b.update(i, x);
    assert(corrupted(bad, b, i, x));
    lemma_padding_must_be_zero(v, bad, abs, sig, sp, order, fds, i, x);
    assert(bad.update(i, 0) =~= b);
}

} // verus!
