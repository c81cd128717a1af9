//! What holds of the decoder on every input.

use crate::bounds::{
    lemma_element_consumes, lemma_fixed_bounds, lemma_padding_bounds, lemma_value_consumes,
};
use crate::encode::{
    encode_basic, encode_element, encode_elements, encode_fields, encode_fixed, encode_signature,
    encode_string, encode_value, has_fd, lemma_encode_element_unfold,
    lemma_encode_elements_unfold, lemma_encode_fields_unfold, lemma_encode_value_unfold, zeros,
};
use crate::de::Deserializer;
use crate::encoding::ByteOrder;
use crate::endian::{
    bytes_of_u16, bytes_of_u32, bytes_of_u64, lemma_signed_round_trip, lemma_u16_round_trip,
    lemma_u32_round_trip, lemma_u64_round_trip, unsigned16, unsigned32, unsigned64,
};
use crate::error::Error;
use crate::signature::{
    alignment_of_code, complete_type_len, is_basic_code, lemma_complete_type_len_bounds,
    ARRAY_SIGNATURE_CHAR, DICT_ENTRY_SIG_START_CHAR, STRUCT_SIG_END_CHAR, STRUCT_SIG_START_CHAR,
    VARIANT_SIGNATURE_CHAR,
};
use crate::wire::{
    decode_array_header, decode_basic, decode_element, decode_elements, decode_fields,
    decode_fixed, decode_padding, decode_signature, decode_string, decode_value,
    is_first_nonzero, lemma_element_unfold, lemma_elements_unfold, lemma_fields_unfold,
    lemma_value_array, lemma_value_basic, lemma_value_structure, lemma_value_variant,
    padding_for, SpecValue,
};
use vstd::prelude::*;

verus! {

/// Whether `s` starts with the bytes `b`.
pub open spec fn begins_with(s: Seq<u8>, b: Seq<u8>) -> bool {
    b.len() <= s.len() && forall|i: int| 0 <= i < b.len() ==> s[i] == b[i]
}

/// What starts with two runs of bytes starts with the first, and goes on
/// with the second.
pub proof fn lemma_begins_split(s: Seq<u8>, a: Seq<u8>, b: Seq<u8>)
    requires
        begins_with(s, a + b),
    ensures
        begins_with(s, a),
        begins_with(s.skip(a.len() as int), b),
{
    assert forall|i: int| 0 <= i < a.len() implies s[i] == a[i] by {
        assert((a + b)[i] == a[i]);
    }
    assert forall|i: int| 0 <= i < b.len() implies s.skip(a.len() as int)[i] == b[i] by {
        assert((a + b)[a.len() + i] == b[i]);
    }
}

/// Padding that is all zero is accepted.
pub proof fn lemma_padding_round_trip(s: Seq<u8>, abs: int, align: int)
    requires
        align > 0,
        begins_with(s, zeros(padding_for(abs, align))),
    ensures
        decode_padding(s, abs, align) == Ok::<int, Error>(padding_for(abs, align)),
{
    lemma_padding_bounds(s, abs, align);
    let need = padding_for(abs, align);
    assert forall|i: int| !is_first_nonzero(s, need, i) by {
        if 0 <= i < need {
            assert(zeros(need)[i] == 0);
        }
    }
}

/// A field that is aligned to its size is read back from its encoding.
pub proof fn lemma_fixed_round_trip(s: Seq<u8>, abs: int, bytes: Seq<u8>)
    requires
        bytes.len() > 0,
        begins_with(s, encode_fixed(abs, bytes)),
    ensures
        decode_fixed(s, abs, bytes.len() as int) == Ok::<(Seq<u8>, int), Error>(
            (bytes, (padding_for(abs, bytes.len() as int) + bytes.len()) as int),
        ),
        encode_fixed(abs, bytes).len() == padding_for(abs, bytes.len() as int) + bytes.len(),
{
    let size = bytes.len() as int;
    let p = padding_for(abs, size);
    lemma_padding_bounds(s, abs, size);
    lemma_begins_split(s, zeros(p), bytes);
    lemma_padding_round_trip(s, abs, size);
    assert(s.subrange(p, p + size) =~= bytes) by {
        assert forall|i: int| 0 <= i < size implies s.subrange(p, p + size)[i] == bytes[i] by {
            assert(s.skip(p)[i] == bytes[i]);
        }
    }
}

/// A string is read back from its encoding.
pub proof fn lemma_string_round_trip(s: Seq<u8>, abs: int, order: ByteOrder, bytes: Seq<u8>)
    requires
        encode_string(abs, order, bytes) matches Some(b) && begins_with(s, b),
    ensures
        decode_string(s, abs, order) == Ok::<(Seq<u8>, int), Error>(
            (bytes, encode_string(abs, order, bytes)->Some_0.len() as int),
        ),
{
    let prefix = bytes_of_u32(order, bytes.len() as u32);
    lemma_u32_round_trip(order, bytes.len() as u32);
    let head = encode_fixed(abs, prefix);
    lemma_padding_bounds(s, abs, 4);
    assert(head + bytes + seq![0u8] =~= head + (bytes + seq![0u8]));
    lemma_begins_split(s, head, bytes + seq![0u8]);
    lemma_fixed_round_trip(s, abs, prefix);
    let rest = s.skip(head.len() as int);
    assert(rest.take(bytes.len() as int) =~= bytes) by {
        assert forall|i: int| 0 <= i < bytes.len() implies rest[i] == bytes[i] by {
            assert((bytes + seq![0u8])[i] == bytes[i]);
        }
    }
}

/// A signature is read back from its encoding.
pub proof fn lemma_signature_round_trip(s: Seq<u8>, bytes: Seq<u8>)
    requires
        encode_signature(bytes) matches Some(b) && begins_with(s, b),
    ensures
        decode_signature(s) == Ok::<(Seq<u8>, int), Error>((bytes, (bytes.len() + 2) as int)),
        encode_signature(bytes)->Some_0.len() == bytes.len() + 2,
{
    let head = seq![bytes.len() as u8];
    assert(head + bytes + seq![0u8] =~= head + (bytes + seq![0u8]));
    lemma_begins_split(s, head, bytes + seq![0u8]);
    assert(s[0] == head[0]);
    let rest = s.skip(1);
    assert(rest.take(bytes.len() as int) =~= bytes) by {
        assert forall|i: int| 0 <= i < bytes.len() implies rest[i] == bytes[i] by {
            assert((bytes + seq![0u8])[i] == bytes[i]);
        }
    }
}

/// A value of a basic type is read back from its encoding.
pub proof fn lemma_basic_round_trip(
    c: u8,
    v: SpecValue,
    s: Seq<u8>,
    abs: int,
    order: ByteOrder,
    fds: Option<Seq<i32>>,
)
    requires
        is_basic_code(c),
        encode_basic(c, v, abs, order, fds) matches Some(b) && begins_with(s, b),
    ensures
        decode_basic(c, s, abs, order, fds) == Ok::<(SpecValue, int), Error>(
            (v, encode_basic(c, v, abs, order, fds)->Some_0.len() as int),
        ),
{
    match v {
        SpecValue::U8(x) => {
            lemma_padding_bounds(s, abs, 1);
            assert(encode_fixed(abs, seq![x]) =~= seq![x]);
            lemma_fixed_round_trip(s, abs, seq![x]);
        },
        SpecValue::Bool(x) => {
            let n: u32 = if x {
                1
            } else {
                0
            };
            lemma_u32_round_trip(order, n);
            lemma_fixed_round_trip(s, abs, bytes_of_u32(order, n));
        },
        SpecValue::I16(x) => {
            lemma_u16_round_trip(order, unsigned16(x));
            lemma_signed_round_trip(x, 0, 0, 0, 0, 0);
            lemma_fixed_round_trip(s, abs, bytes_of_u16(order, unsigned16(x)));
        },
        SpecValue::U16(x) => {
            lemma_u16_round_trip(order, x);
            lemma_fixed_round_trip(s, abs, bytes_of_u16(order, x));
        },
        SpecValue::I32(x) => {
            lemma_u32_round_trip(order, unsigned32(x));
            lemma_signed_round_trip(0, x, 0, 0, 0, 0);
            lemma_fixed_round_trip(s, abs, bytes_of_u32(order, unsigned32(x)));
        },
        SpecValue::U32(x) => {
            lemma_u32_round_trip(order, x);
            lemma_fixed_round_trip(s, abs, bytes_of_u32(order, x));
        },
        SpecValue::I64(x) => {
            lemma_u64_round_trip(order, unsigned64(x));
            lemma_signed_round_trip(0, 0, x, 0, 0, 0);
            lemma_fixed_round_trip(s, abs, bytes_of_u64(order, unsigned64(x)));
        },
        SpecValue::U64(x) => {
            lemma_u64_round_trip(order, x);
            lemma_fixed_round_trip(s, abs, bytes_of_u64(order, x));
        },
        SpecValue::F64(x) => {
            lemma_u64_round_trip(order, x);
            lemma_fixed_round_trip(s, abs, bytes_of_u64(order, x));
        },
        SpecValue::Str(b) => {
            lemma_string_round_trip(s, abs, order, b);
        },
        SpecValue::ObjectPath(b) => {
            lemma_string_round_trip(s, abs, order, b);
        },
        SpecValue::Signature(b) => {
            lemma_signature_round_trip(s, b);
        },
        SpecValue::Fd(fd) => {
            let i = choose|i: int| has_fd(fds, fd, i);
            lemma_u32_round_trip(order, i as u32);
            lemma_fixed_round_trip(s, abs, bytes_of_u32(order, i as u32));
        },
        _ => {},
    }
}

/// A variant is read back from its encoding.
proof fn lemma_round_trip_variant(
    v: SpecValue,
    s: Seq<u8>,
    abs: int,
    sig: Seq<u8>,
    sp: int,
    order: ByteOrder,
    fds: Option<Seq<i32>>,
)
    requires
        0 <= sp < sig.len(),
        sig[sp] == VARIANT_SIGNATURE_CHAR,
        encode_value(v, abs, sig, sp, order, fds) matches Some(b) && begins_with(s, b),
    ensures
        decode_value(s, abs, sig, sp, order, fds) == Ok::<(SpecValue, int), Error>(
            (v, encode_value(v, abs, sig, sp, order, fds)->Some_0.len() as int),
        ),
    decreases v, 0int,
{
    lemma_encode_value_unfold(v, abs, sig, sp, order, fds);
    lemma_value_variant(s, abs, sig, sp, order, fds);
    match v {
        SpecValue::Variant(inner, value) => {
            let head = encode_signature(inner)->Some_0;
            let body = encode_value(*value, abs + head.len(), inner, 0, order, fds)->Some_0;
            lemma_begins_split(s, head, body);
            lemma_signature_round_trip(s, inner);
            lemma_round_trip(*value, s.skip(head.len() as int), abs + head.len(), inner, 0, order, fds);
        },
        _ => {},
    }
}

/// An array is read back from its encoding.
proof fn lemma_round_trip_array(
    v: SpecValue,
    s: Seq<u8>,
    abs: int,
    sig: Seq<u8>,
    sp: int,
    order: ByteOrder,
    fds: Option<Seq<i32>>,
)
    requires
        0 <= sp < sig.len(),
        sig[sp] == ARRAY_SIGNATURE_CHAR,
        encode_value(v, abs, sig, sp, order, fds) matches Some(b) && begins_with(s, b),
    ensures
        decode_value(s, abs, sig, sp, order, fds) == Ok::<(SpecValue, int), Error>(
            (v, encode_value(v, abs, sig, sp, order, fds)->Some_0.len() as int),
        ),
    decreases v, 0int,
{
    lemma_encode_value_unfold(v, abs, sig, sp, order, fds);
    lemma_value_array(s, abs, sig, sp, order, fds);
    match v {
        SpecValue::Array(elements) => {
            let lead = padding_for(abs, 4) + 4;
            let align = alignment_of_code(sig[sp + 1]) as int;
            let gap = padding_for(abs + lead, align);
            let payload = encode_elements(elements, abs + lead + gap, sig, sp + 1, order, fds)->Some_0;
            let prefix = bytes_of_u32(order, payload.len() as u32);
            let head = encode_fixed(abs, prefix);
            lemma_u32_round_trip(order, payload.len() as u32);
            lemma_padding_bounds(s, abs, 4);
            lemma_padding_bounds(s, abs + lead, align);
            lemma_begins_split(s, head + zeros(gap), payload);
            lemma_begins_split(s, head, zeros(gap));
            lemma_fixed_round_trip(s, abs, prefix);
            lemma_padding_round_trip(s.skip(lead), abs + lead, align);
            let rest = s.skip(lead + gap);
            assert(rest.skip(0) =~= rest);
            lemma_round_trip_elements(
                elements,
                rest,
                abs + lead + gap,
                0,
                payload.len() as int,
                sig,
                sp + 1,
                order,
                fds,
            );
        },
        _ => {},
    }
}

/// A structure is read back from its encoding.
proof fn lemma_round_trip_structure(
    v: SpecValue,
    s: Seq<u8>,
    abs: int,
    sig: Seq<u8>,
    sp: int,
    order: ByteOrder,
    fds: Option<Seq<i32>>,
)
    requires
        0 <= sp < sig.len(),
        sig[sp] == STRUCT_SIG_START_CHAR,
        encode_value(v, abs, sig, sp, order, fds) matches Some(b) && begins_with(s, b),
    ensures
        decode_value(s, abs, sig, sp, order, fds) == Ok::<(SpecValue, int), Error>(
            (v, encode_value(v, abs, sig, sp, order, fds)->Some_0.len() as int),
        ),
    decreases v, 0int,
{
    lemma_encode_value_unfold(v, abs, sig, sp, order, fds);
    lemma_value_structure(s, abs, sig, sp, order, fds);
    match v {
        SpecValue::Structure(fields) => {
            let p = padding_for(abs, 8);
            let body = encode_fields(fields, abs + p, sig, sp + 1, order, fds)->Some_0;
            lemma_padding_bounds(s, abs, 8);
            lemma_begins_split(s, zeros(p), body);
            lemma_padding_round_trip(s, abs, 8);
            lemma_round_trip_fields(fields, s, abs, p, sig, sp + 1, order, fds);
        },
        _ => {},
    }
}

/// Round trip: a value is read back from its encoding, whatever follows the
/// encoding, and reading it takes exactly the bytes of the encoding.
pub proof fn lemma_round_trip(
    v: SpecValue,
    s: Seq<u8>,
    abs: int,
    sig: Seq<u8>,
    sp: int,
    order: ByteOrder,
    fds: Option<Seq<i32>>,
)
    requires
        encode_value(v, abs, sig, sp, order, fds) matches Some(b) && begins_with(s, b),
    ensures
        decode_value(s, abs, sig, sp, order, fds) == Ok::<(SpecValue, int), Error>(
            (v, encode_value(v, abs, sig, sp, order, fds)->Some_0.len() as int),
        ),
    decreases v, 1int,
{
    lemma_encode_value_unfold(v, abs, sig, sp, order, fds);
    if is_basic_code(sig[sp]) {
        lemma_value_basic(s, abs, sig, sp, order, fds);
        lemma_basic_round_trip(sig[sp], v, s, abs, order, fds);
    } else if sig[sp] == VARIANT_SIGNATURE_CHAR {
        lemma_round_trip_variant(v, s, abs, sig, sp, order, fds);
    } else if sig[sp] == ARRAY_SIGNATURE_CHAR {
        lemma_round_trip_array(v, s, abs, sig, sp, order, fds);
    } else if sig[sp] == STRUCT_SIG_START_CHAR {
        lemma_round_trip_structure(v, s, abs, sig, sp, order, fds);
    }
}

/// An element of an array is read back from its encoding, if the array has
/// room for it.
pub proof fn lemma_round_trip_element(
    e: SpecValue,
    s: Seq<u8>,
    abs: int,
    limit: int,
    sig: Seq<u8>,
    sp: int,
    order: ByteOrder,
    fds: Option<Seq<i32>>,
)
    requires
        encode_element(e, abs, sig, sp, order, fds) matches Some(b) && begins_with(s, b) && b.len()
            <= limit,
    ensures
        decode_element(s, abs, limit, sig, sp, order, fds) == Ok::<(SpecValue, int), Error>(
            (e, encode_element(e, abs, sig, sp, order, fds)->Some_0.len() as int),
        ),
    decreases e, 2int,
{
    lemma_encode_element_unfold(e, abs, sig, sp, order, fds);
    lemma_element_unfold(s, abs, limit, sig, sp, order, fds);
    let align = alignment_of_code(sig[sp]) as int;
    let p = padding_for(abs, align);
    lemma_padding_bounds(s, abs, align);
    if sig[sp] != DICT_ENTRY_SIG_START_CHAR {
        let body = encode_value(e, abs + p, sig, sp, order, fds)->Some_0;
        lemma_begins_split(s, zeros(p), body);
        lemma_padding_round_trip(s, abs, align);
        lemma_round_trip(e, s.skip(p), abs + p, sig, sp, order, fds);
    } else {
        match e {
            SpecValue::DictEntry(key, value) => {
                let kb = encode_value(*key, abs + p, sig, sp + 1, order, fds)->Some_0;
                let vb = encode_value(*value, abs + p + kb.len(), sig, sp + 2, order, fds)->Some_0;
                lemma_encode_value_unfold(*value, abs + p + kb.len(), sig, sp + 2, order, fds);
                lemma_begins_split(s, zeros(p) + kb, vb);
                lemma_begins_split(s, zeros(p), kb);
                lemma_padding_round_trip(s, abs, align);
                lemma_round_trip(*key, s.skip(p), abs + p, sig, sp + 1, order, fds);
                lemma_round_trip(
                    *value,
                    s.skip(p + kb.len()),
                    abs + p + kb.len(),
                    sig,
                    sp + 2,
                    order,
                    fds,
                );
            },
            _ => {},
        }
    }
}

/// The elements of an array are read back from their encoding, which stands
/// between the offsets `off` and `end` of `s`.
pub proof fn lemma_round_trip_elements(
    elements: Seq<SpecValue>,
    s: Seq<u8>,
    abs: int,
    off: int,
    end: int,
    sig: Seq<u8>,
    sp: int,
    order: ByteOrder,
    fds: Option<Seq<i32>>,
)
    requires
        0 <= off <= s.len(),
        encode_elements(elements, abs + off, sig, sp, order, fds) matches Some(b) && begins_with(
            s.skip(off),
            b,
        ) && end == off + b.len(),
    ensures
        decode_elements(s, abs, off, end, sig, sp, order, fds) == Ok::<Seq<SpecValue>, Error>(
            elements,
        ),
    decreases elements, 3int,
{
    lemma_encode_elements_unfold(elements, abs + off, sig, sp, order, fds);
    lemma_elements_unfold(s, abs, off, end, sig, sp, order, fds);
    if elements.len() == 0 {
        assert(elements =~= Seq::<SpecValue>::empty());
    } else {
        let first = encode_element(elements[0], abs + off, sig, sp, order, fds)->Some_0;
        let rest = encode_elements(
            elements.drop_first(),
            abs + off + first.len(),
            sig,
            sp,
            order,
            fds,
        )->Some_0;
        lemma_begins_split(s.skip(off), first, rest);
        lemma_round_trip_element(elements[0], s.skip(off), abs + off, end - off, sig, sp, order, fds);
        lemma_element_consumes(s.skip(off), abs + off, end - off, sig, sp, order, fds);
        assert(s.skip(off).skip(first.len() as int) =~= s.skip(off + first.len()));
        lemma_round_trip_elements(
            elements.drop_first(),
            s,
            abs,
            off + first.len(),
            end,
            sig,
            sp,
            order,
            fds,
        );
        assert(seq![elements[0]] + elements.drop_first() =~= elements);
    }
}

/// The fields of a structure are read back from their encoding, which starts
/// at offset `off` of `s`.
pub proof fn lemma_round_trip_fields(
    fields: Seq<SpecValue>,
    s: Seq<u8>,
    abs: int,
    off: int,
    sig: Seq<u8>,
    sp: int,
    order: ByteOrder,
    fds: Option<Seq<i32>>,
)
    requires
        0 <= off <= s.len(),
        encode_fields(fields, abs + off, sig, sp, order, fds) matches Some(b) && begins_with(
            s.skip(off),
            b,
        ),
    ensures
        decode_fields(s, abs, off, sig, sp, order, fds) == Ok::<(Seq<SpecValue>, int), Error>(
            (
                fields,
                (off + encode_fields(fields, abs + off, sig, sp, order, fds)->Some_0.len()) as int,
            ),
        ),
    decreases fields, 3int,
{
    lemma_encode_fields_unfold(fields, abs + off, sig, sp, order, fds);
    lemma_fields_unfold(s, abs, off, sig, sp, order, fds);
    let m = complete_type_len(sig, sp, false)->Some_0;
    let first = encode_value(fields[0], abs + off, sig, sp, order, fds)->Some_0;
    if sp + m < sig.len() && sig[sp + m] == STRUCT_SIG_END_CHAR {
        lemma_round_trip(fields[0], s.skip(off), abs + off, sig, sp, order, fds);
        assert(seq![fields[0]] =~= fields);
    } else {
        let rest = encode_fields(
            fields.drop_first(),
            abs + off + first.len(),
            sig,
            sp + m,
            order,
            fds,
        )->Some_0;
        lemma_begins_split(s.skip(off), first, rest);
        lemma_round_trip(fields[0], s.skip(off), abs + off, sig, sp, order, fds);
        assert(s.skip(off).skip(first.len() as int) =~= s.skip(off + first.len()));
        lemma_round_trip_fields(
            fields.drop_first(),
            s,
            abs,
            off + first.len(),
            sig,
            sp + m,
            order,
            fds,
        );
        assert(seq![fields[0]] + fields.drop_first() =~= fields);
    }
}

/// Reading a value of a basic type takes as many bytes as encoding what
/// was read.
pub proof fn lemma_basic_accounting(c: u8, s: Seq<u8>, abs: int, order: ByteOrder, fds: Option<Seq<i32>>)
    requires
        is_basic_code(c),
    ensures
        decode_basic(c, s, abs, order, fds) matches Ok((v, n)) ==> (encode_basic(
            c,
            v,
            abs,
            order,
            fds,
        ) matches Some(b) && b.len() == n),
{
    lemma_fixed_bounds(s, abs, 1);
    lemma_fixed_bounds(s, abs, 2);
    lemma_fixed_bounds(s, abs, 4);
    lemma_fixed_bounds(s, abs, 8);
    match decode_basic(c, s, abs, order, fds) {
        Ok((v, n)) => {
            match v {
                SpecValue::I16(x) => {
                    lemma_u16_round_trip(order, unsigned16(x));
                },
                SpecValue::U16(x) => {
                    lemma_u16_round_trip(order, x);
                },
                SpecValue::I32(x) => {
                    lemma_u32_round_trip(order, unsigned32(x));
                },
                SpecValue::U32(x) => {
                    lemma_u32_round_trip(order, x);
                },
                SpecValue::I64(x) => {
                    lemma_u64_round_trip(order, unsigned64(x));
                },
                SpecValue::U64(x) => {
                    lemma_u64_round_trip(order, x);
                },
                SpecValue::F64(x) => {
                    lemma_u64_round_trip(order, x);
                },
                SpecValue::Bool(x) => {
                    lemma_u32_round_trip(order, 0);
                    lemma_u32_round_trip(order, 1);
                },
                SpecValue::Str(b) => {
                    lemma_u32_round_trip(order, b.len() as u32);
                },
                SpecValue::ObjectPath(b) => {
                    lemma_u32_round_trip(order, b.len() as u32);
                },
                SpecValue::Fd(fd) => {
                    let bytes = decode_fixed(s, abs, 4)->Ok_0.0;
                    let idx = crate::endian::u32_at(order, bytes);
                    assert(has_fd(fds, fd, idx as int));
                    let i = choose|i: int| has_fd(fds, fd, i);
                    lemma_u32_round_trip(order, i as u32);
                },
                _ => {},
            }
        },
        Err(_) => {},
    }
}

/// Reading a variant takes as many bytes as encoding it.
proof fn lemma_variant_accounting(
    s: Seq<u8>,
    abs: int,
    sig: Seq<u8>,
    sp: int,
    order: ByteOrder,
    fds: Option<Seq<i32>>,
)
    requires
        0 <= sp < sig.len(),
        sig[sp] == VARIANT_SIGNATURE_CHAR,
    ensures
        decode_value(s, abs, sig, sp, order, fds) matches Ok((v, n)) ==> (encode_value(
            v,
            abs,
            sig,
            sp,
            order,
            fds,
        ) matches Some(b) && b.len() == n),
    decreases s.len(), sig.len() - sp, 0int, 0int,
{
    lemma_value_variant(s, abs, sig, sp, order, fds);
    if decode_value(s, abs, sig, sp, order, fds) is Ok {
        let (v, n) = decode_value(s, abs, sig, sp, order, fds)->Ok_0;
        let (inner, k) = decode_signature(s)->Ok_0;
        lemma_position_accounting(s.skip(k), abs + k, inner, 0, order, fds);
        lemma_encode_value_unfold(v, abs, sig, sp, order, fds);
    }
}

/// Reading an array takes as many bytes as encoding it.
proof fn lemma_array_accounting(
    s: Seq<u8>,
    abs: int,
    sig: Seq<u8>,
    sp: int,
    order: ByteOrder,
    fds: Option<Seq<i32>>,
)
    requires
        0 <= sp < sig.len(),
        sig[sp] == ARRAY_SIGNATURE_CHAR,
    ensures
        decode_value(s, abs, sig, sp, order, fds) matches Ok((v, n)) ==> (encode_value(
            v,
            abs,
            sig,
            sp,
            order,
            fds,
        ) matches Some(b) && b.len() == n),
    decreases s.len(), sig.len() - sp, 0int, 0int,
{
    lemma_value_array(s, abs, sig, sp, order, fds);
    if decode_value(s, abs, sig, sp, order, fds) is Ok {
        let (v, total) = decode_value(s, abs, sig, sp, order, fds)->Ok_0;
        let (len, m, n) = decode_array_header(s, abs, sig, sp + 1, order)->Ok_0;
        lemma_fixed_bounds(s, abs, 4);
        crate::bounds::lemma_array_header_bounds(s, abs, sig, sp + 1, order);
        let lead = padding_for(abs, 4) + 4;
        lemma_padding_bounds(s.skip(lead), abs + lead, alignment_of_code(sig[sp + 1]) as int);
        lemma_elements_accounting(s.skip(n), abs + n, 0, len as int, sig, sp + 1, order, fds);
        lemma_u32_round_trip(order, len);
        lemma_encode_value_unfold(v, abs, sig, sp, order, fds);
    }
}

/// Reading a structure takes as many bytes as encoding it.
proof fn lemma_structure_accounting(
    s: Seq<u8>,
    abs: int,
    sig: Seq<u8>,
    sp: int,
    order: ByteOrder,
    fds: Option<Seq<i32>>,
)
    requires
        0 <= sp < sig.len(),
        sig[sp] == STRUCT_SIG_START_CHAR,
    ensures
        decode_value(s, abs, sig, sp, order, fds) matches Ok((v, n)) ==> (encode_value(
            v,
            abs,
            sig,
            sp,
            order,
            fds,
        ) matches Some(b) && b.len() == n),
    decreases s.len(), sig.len() - sp, 0int, 0int,
{
    lemma_value_structure(s, abs, sig, sp, order, fds);
    if decode_value(s, abs, sig, sp, order, fds) is Ok {
        let (v, total) = decode_value(s, abs, sig, sp, order, fds)->Ok_0;
        lemma_padding_bounds(s, abs, 8);
        let p = decode_padding(s, abs, 8)->Ok_0;
        lemma_fields_accounting(s, abs, p, sig, sp + 1, order, fds);
        lemma_encode_value_unfold(v, abs, sig, sp, order, fds);
    }
}

/// Position accounting: reading a value takes exactly as many bytes as its
/// encoding is long. What was read can be encoded, and its encoding has the
/// length that was read.
pub proof fn lemma_position_accounting(
    s: Seq<u8>,
    abs: int,
    sig: Seq<u8>,
    sp: int,
    order: ByteOrder,
    fds: Option<Seq<i32>>,
)
    ensures
        decode_value(s, abs, sig, sp, order, fds) matches Ok((v, n)) ==> (encode_value(
            v,
            abs,
            sig,
            sp,
            order,
            fds,
        ) matches Some(b) && b.len() == n),
    decreases s.len(), sig.len() - sp, 0int, 1int,
{
    lemma_value_consumes(s, abs, sig, sp, order, fds);
    if decode_value(s, abs, sig, sp, order, fds) is Ok {
        if is_basic_code(sig[sp]) {
            let (v, n) = decode_value(s, abs, sig, sp, order, fds)->Ok_0;
            lemma_value_basic(s, abs, sig, sp, order, fds);
            lemma_basic_accounting(sig[sp], s, abs, order, fds);
            lemma_encode_value_unfold(v, abs, sig, sp, order, fds);
        } else if sig[sp] == VARIANT_SIGNATURE_CHAR {
            lemma_variant_accounting(s, abs, sig, sp, order, fds);
        } else if sig[sp] == ARRAY_SIGNATURE_CHAR {
            lemma_array_accounting(s, abs, sig, sp, order, fds);
        } else if sig[sp] == STRUCT_SIG_START_CHAR {
            lemma_structure_accounting(s, abs, sig, sp, order, fds);
        } else {
            crate::wire::lemma_value_none(s, abs, sig, sp, order, fds);
        }
    }
}

/// Reading an element of an array takes as many bytes as encoding it.
pub proof fn lemma_element_accounting(
    s: Seq<u8>,
    abs: int,
    limit: int,
    sig: Seq<u8>,
    sp: int,
    order: ByteOrder,
    fds: Option<Seq<i32>>,
)
    ensures
        decode_element(s, abs, limit, sig, sp, order, fds) matches Ok((e, n)) ==> (encode_element(
            e,
            abs,
            sig,
            sp,
            order,
            fds,
        ) matches Some(b) && b.len() == n),
    decreases s.len(), sig.len() - sp, 1int, 0int,
{
    if !(0 <= sp < sig.len()) {
        reveal(decode_element);
    } else {
        lemma_element_unfold(s, abs, limit, sig, sp, order, fds);
        let align = alignment_of_code(sig[sp]) as int;
        lemma_padding_bounds(s, abs, align);
        if decode_element(s, abs, limit, sig, sp, order, fds) is Ok {
            let p = decode_padding(s, abs, align)->Ok_0;
            let (e, total) = decode_element(s, abs, limit, sig, sp, order, fds)->Ok_0;
            lemma_encode_element_unfold(e, abs, sig, sp, order, fds);
            if sig[sp] != DICT_ENTRY_SIG_START_CHAR {
                lemma_position_accounting(s.skip(p), abs + p, sig, sp, order, fds);
            } else {
                lemma_value_consumes(s.skip(p), abs + p, sig, sp + 1, order, fds);
                lemma_position_accounting(s.skip(p), abs + p, sig, sp + 1, order, fds);
                let (key, n) = decode_value(s.skip(p), abs + p, sig, sp + 1, order, fds)->Ok_0;
                lemma_position_accounting(s.skip(p + n), abs + p + n, sig, sp + 2, order, fds);
            }
        }
    }
}

/// Reading the elements of an array takes exactly the bytes between `off`
/// and `end`: the encodings of the elements read fill them.
pub proof fn lemma_elements_accounting(
    s: Seq<u8>,
    abs: int,
    off: int,
    end: int,
    sig: Seq<u8>,
    sp: int,
    order: ByteOrder,
    fds: Option<Seq<i32>>,
)
    requires
        0 <= off <= end,
    ensures
        decode_elements(s, abs, off, end, sig, sp, order, fds) matches Ok(elements) ==> (
        encode_elements(elements, abs + off, sig, sp, order, fds) matches Some(b) && b.len() == end
            - off),
    decreases s.len(), sig.len() - sp, 2int, end - off,
{
    lemma_elements_unfold(s, abs, off, end, sig, sp, order, fds);
    if decode_elements(s, abs, off, end, sig, sp, order, fds) is Ok && off < end {
        lemma_element_accounting(s.skip(off), abs + off, end - off, sig, sp, order, fds);
        let (v, n) = decode_element(s.skip(off), abs + off, end - off, sig, sp, order, fds)->Ok_0;
        lemma_elements_accounting(s, abs, off + n, end, sig, sp, order, fds);
        let rest = decode_elements(s, abs, off + n, end, sig, sp, order, fds)->Ok_0;
        let elements = seq![v] + rest;
        assert(elements[0] == v);
        assert(elements.drop_first() =~= rest);
        lemma_encode_elements_unfold(elements, abs + off, sig, sp, order, fds);
    } else if off >= end {
        lemma_encode_elements_unfold(Seq::empty(), abs + off, sig, sp, order, fds);
    }
}

/// Reading the fields of a structure takes as many bytes as encoding them.
pub proof fn lemma_fields_accounting(
    s: Seq<u8>,
    abs: int,
    off: int,
    sig: Seq<u8>,
    sp: int,
    order: ByteOrder,
    fds: Option<Seq<i32>>,
)
    ensures
        decode_fields(s, abs, off, sig, sp, order, fds) matches Ok((fields, end)) ==> (
        encode_fields(fields, abs + off, sig, sp, order, fds) matches Some(b) && b.len() == end
            - off),
    decreases s.len(), sig.len() - sp, 1int, 0int,
{
    lemma_fields_unfold(s, abs, off, sig, sp, order, fds);
    if decode_fields(s, abs, off, sig, sp, order, fds) is Ok {
        lemma_complete_type_len_bounds(sig, sp, false);
        let m = complete_type_len(sig, sp, false)->Some_0;
        lemma_position_accounting(s.skip(off), abs + off, sig, sp, order, fds);
        lemma_value_consumes(s.skip(off), abs + off, sig, sp, order, fds);
        let (v, n) = decode_value(s.skip(off), abs + off, sig, sp, order, fds)->Ok_0;
        let fields = decode_fields(s, abs, off, sig, sp, order, fds)->Ok_0.0;
        lemma_encode_fields_unfold(fields, abs + off, sig, sp, order, fds);
        if sp + m < sig.len() && sig[sp + m] == STRUCT_SIG_END_CHAR {
            assert(seq![v][0] == v);
        } else {
            lemma_fields_accounting(s, abs, off + n, sig, sp + m, order, fds);
            let (rest, end) = decode_fields(s, abs, off + n, sig, sp + m, order, fds)->Ok_0;
            let fields = seq![v] + rest;
            assert(fields[0] == v);
            assert(fields.drop_first() =~= rest);
            crate::bounds::lemma_fields_consume(s, abs, off + n, sig, sp + m, order, fds);
        }
    }
}

/// Alignment zero-check, for the padding itself: where the first padding
/// byte that is not zero stands at index `i`, the padding is refused with that
/// byte.
pub proof fn lemma_padding_not_zero(s: Seq<u8>, abs: int, align: int, i: int)
    requires
        is_first_nonzero(s, padding_for(abs, align), i),
    ensures
        decode_padding(s, abs, align) == Err::<int, Error>(Error::PaddingNot0(s[i])),
{
    let need = padding_for(abs, align);
    let k = choose|k: int| is_first_nonzero(s, need, k);
    assert(k == i) by {
        if k < i {
            assert(s[k] == 0);
        }
        if i < k {
            assert(s[i] == 0);
        }
    }
}

/// What deciding on padding comes to: it is accepted if and only if all of
/// it is there and zero; it is refused with a byte that is not zero if and
/// only if there is one before the bytes end.
pub proof fn lemma_padding_decides(s: Seq<u8>, abs: int, align: int)
    requires
        align > 0,
    ensures
        match decode_padding(s, abs, align) {
            Ok(p) => p == padding_for(abs, align) && p <= s.len() && forall|j: int|
                0 <= j < p ==> s[j] == 0,
            Err(Error::PaddingNot0(b)) => b != 0 && exists|i: int|
                is_first_nonzero(s, padding_for(abs, align), i) && s[i] == b,
            Err(Error::Eof) => padding_for(abs, align) > s.len() && forall|j: int|
                0 <= j < s.len() ==> s[j] == 0,
            Err(_) => false,
        },
{
    lemma_padding_bounds(s, abs, align);
    let need = padding_for(abs, align);
    if exists|i: int| is_first_nonzero(s, need, i) {
        let k = choose|k: int| is_first_nonzero(s, need, k);
        assert(is_first_nonzero(s, need, k) && s[k] == s[k]);
    } else {
        let bound = if need <= s.len() {
            need
        } else {
            s.len() as int
        };
        lemma_no_first_nonzero(s, need, bound);
    }
}

/// Where no padding byte is the first that is not zero, all that are there
/// are zero.
proof fn lemma_no_first_nonzero(s: Seq<u8>, need: int, bound: int)
    requires
        forall|i: int| !is_first_nonzero(s, need, i),
        bound <= need,
        bound <= s.len(),
    ensures
        forall|j: int| 0 <= j < bound ==> s[j] == 0,
    decreases bound,
{
    if bound > 0 {
        lemma_no_first_nonzero(s, need, bound - 1);
        assert(!is_first_nonzero(s, need, bound - 1));
    }
}

/// Alignment zero-check: a value whose padding holds a byte that is not zero
/// is refused with `PaddingNot0` and the first such byte.
pub proof fn lemma_alignment_zero_check(
    s: Seq<u8>,
    abs: int,
    sig: Seq<u8>,
    sp: int,
    order: ByteOrder,
    fds: Option<Seq<i32>>,
    i: int,
)
    requires
        complete_type_len(sig, sp, false) is Some,
        is_first_nonzero(s, padding_for(abs, alignment_of_code(sig[sp]) as int), i),
    ensures
        decode_value(s, abs, sig, sp, order, fds) == Err::<(SpecValue, int), Error>(
            Error::PaddingNot0(s[i]),
        ),
{
    lemma_complete_type_len_bounds(sig, sp, false);
    let align = alignment_of_code(sig[sp]) as int;
    lemma_padding_bounds(s, abs, align);
    lemma_padding_not_zero(s, abs, align, i);
    if is_basic_code(sig[sp]) {
        lemma_value_basic(s, abs, sig, sp, order, fds);
    } else if sig[sp] == ARRAY_SIGNATURE_CHAR {
        lemma_value_array(s, abs, sig, sp, order, fds);
    } else if sig[sp] == STRUCT_SIG_START_CHAR {
        lemma_value_structure(s, abs, sig, sp, order, fds);
    }
}

/// The encoding of a value starts with its padding, all zero.
pub proof fn lemma_encoding_starts_with_padding(
    v: SpecValue,
    abs: int,
    sig: Seq<u8>,
    sp: int,
    order: ByteOrder,
    fds: Option<Seq<i32>>,
)
    requires
        encode_value(v, abs, sig, sp, order, fds) is Some,
    ensures
        begins_with(
            encode_value(v, abs, sig, sp, order, fds)->Some_0,
            zeros(padding_for(abs, alignment_of_code(sig[sp]) as int)),
        ),
{
    lemma_encode_value_unfold(v, abs, sig, sp, order, fds);
    let b = encode_value(v, abs, sig, sp, order, fds)->Some_0;
    let align = alignment_of_code(sig[sp]) as int;
    lemma_padding_bounds(b, abs, align);
    let p = padding_for(abs, align);
    lemma_u16_round_trip(order, 0);
    lemma_u32_round_trip(order, 0);
    lemma_u64_round_trip(order, 0);
    if is_basic_code(sig[sp]) {
        match v {
            SpecValue::I16(x) => {
                lemma_u16_round_trip(order, unsigned16(x));
            },
            SpecValue::U16(x) => {
                lemma_u16_round_trip(order, x);
            },
            SpecValue::I32(x) => {
                lemma_u32_round_trip(order, unsigned32(x));
            },
            SpecValue::U32(x) => {
                lemma_u32_round_trip(order, x);
            },
            SpecValue::I64(x) => {
                lemma_u64_round_trip(order, unsigned64(x));
            },
            SpecValue::U64(x) => {
                lemma_u64_round_trip(order, x);
            },
            SpecValue::F64(x) => {
                lemma_u64_round_trip(order, x);
            },
            SpecValue::Bool(x) => {
                lemma_u32_round_trip(order, 1);
            },
            SpecValue::Str(bytes) => {
                lemma_u32_round_trip(order, bytes.len() as u32);
            },
            SpecValue::ObjectPath(bytes) => {
                lemma_u32_round_trip(order, bytes.len() as u32);
            },
            SpecValue::Fd(fd) => {
                let i = choose|i: int| has_fd(fds, fd, i);
                lemma_u32_round_trip(order, i as u32);
            },
            _ => {},
        }
    } else if sig[sp] == ARRAY_SIGNATURE_CHAR {
        match v {
            SpecValue::Array(elements) => {
                let lead = padding_for(abs, 4) + 4;
                let gap = padding_for(abs + lead, alignment_of_code(sig[sp + 1]) as int);
                let payload = encode_elements(elements, abs + lead + gap, sig, sp + 1, order, fds)->Some_0;
                lemma_u32_round_trip(order, payload.len() as u32);
            },
            _ => {},
        }
    }
}

/// Array-length exactness, one way: where the elements of an array are
/// read, their encodings fill the declared byte length exactly.
pub proof fn lemma_array_length_exact(
    s: Seq<u8>,
    abs: int,
    end: int,
    sig: Seq<u8>,
    sp: int,
    order: ByteOrder,
    fds: Option<Seq<i32>>,
)
    requires
        0 <= end,
    ensures
        decode_elements(s, abs, 0, end, sig, sp, order, fds) matches Ok(elements) ==> (
        encode_elements(elements, abs, sig, sp, order, fds) matches Some(b) && b.len() == end),
{
    lemma_elements_accounting(s, abs, 0, end, sig, sp, order, fds);
}

/// Array-length exactness, for a length that is too large: an array that
/// declares more bytes than are left behind its padding is refused with
/// `InvalidLength`.
pub proof fn lemma_array_length_beyond(
    s: Seq<u8>,
    abs: int,
    sig: Seq<u8>,
    sp: int,
    order: ByteOrder,
    fds: Option<Seq<i32>>,
)
    requires
        0 <= sp < sig.len(),
        sig[sp] == ARRAY_SIGNATURE_CHAR,
        complete_type_len(sig, sp + 1, true) is Some,
        decode_fixed(s, abs, 4) matches Ok((b, n)) && (decode_padding(
            s.skip(n),
            abs + n,
            alignment_of_code(sig[sp + 1]) as int,
        ) matches Ok(p) && crate::endian::u32_at(order, b) > s.len() - (n + p)),
    ensures
        decode_value(s, abs, sig, sp, order, fds) == Err::<(SpecValue, int), Error>(
            Error::InvalidLength,
        ),
{
    lemma_value_array(s, abs, sig, sp, order, fds);
}

/// Whether the encodings of some of the first of `elements` are `k` bytes
/// long together: whether an array may end `k` bytes in.
pub open spec fn is_element_boundary(
    elements: Seq<SpecValue>,
    abs: int,
    sig: Seq<u8>,
    sp: int,
    order: ByteOrder,
    fds: Option<Seq<i32>>,
    k: int,
) -> bool
    decreases elements.len(),
{
    k == 0 || (elements.len() > 0 && (encode_element(elements[0], abs, sig, sp, order, fds) matches Some(
        first,
    ) && first.len() <= k && is_element_boundary(
        elements.drop_first(),
        abs + first.len(),
        sig,
        sp,
        order,
        fds,
        k - first.len(),
    )))
}

/// An element for which the array has too little room left is refused with
/// `InvalidLength`.
pub proof fn lemma_element_too_long(
    e: SpecValue,
    s: Seq<u8>,
    abs: int,
    limit: int,
    sig: Seq<u8>,
    sp: int,
    order: ByteOrder,
    fds: Option<Seq<i32>>,
)
    requires
        encode_element(e, abs, sig, sp, order, fds) matches Some(b) && begins_with(s, b) && limit
            < b.len(),
    ensures
        decode_element(s, abs, limit, sig, sp, order, fds) == Err::<(SpecValue, int), Error>(
            Error::InvalidLength,
        ),
{
    let b = encode_element(e, abs, sig, sp, order, fds)->Some_0;
    lemma_round_trip_element(e, s, abs, b.len() as int, sig, sp, order, fds);
    lemma_encode_element_unfold(e, abs, sig, sp, order, fds);
    lemma_element_unfold(s, abs, limit, sig, sp, order, fds);
    lemma_element_unfold(s, abs, b.len() as int, sig, sp, order, fds);
    let align = alignment_of_code(sig[sp]) as int;
    let p = padding_for(abs, align);
    lemma_padding_bounds(s, abs, align);
    if sig[sp] == DICT_ENTRY_SIG_START_CHAR {
        lemma_value_consumes(s.skip(p), abs + p, sig, sp + 1, order, fds);
    }
}

/// Array-length exactness, the other way: where the declared byte length of
/// an array ends in the middle of an element, the array is refused with
/// `InvalidLength`.
pub proof fn lemma_array_length_short(
    elements: Seq<SpecValue>,
    s: Seq<u8>,
    abs: int,
    off: int,
    end: int,
    sig: Seq<u8>,
    sp: int,
    order: ByteOrder,
    fds: Option<Seq<i32>>,
)
    requires
        0 <= off <= s.len(),
        encode_elements(elements, abs + off, sig, sp, order, fds) matches Some(b) && begins_with(
            s.skip(off),
            b,
        ) && off <= end < off + b.len(),
        !is_element_boundary(elements, abs + off, sig, sp, order, fds, end - off),
    ensures
        decode_elements(s, abs, off, end, sig, sp, order, fds) == Err::<Seq<SpecValue>, Error>(
            Error::InvalidLength,
        ),
    decreases elements.len(),
{
    lemma_encode_elements_unfold(elements, abs + off, sig, sp, order, fds);
    lemma_elements_unfold(s, abs, off, end, sig, sp, order, fds);
    let first = encode_element(elements[0], abs + off, sig, sp, order, fds)->Some_0;
    let rest = encode_elements(
        elements.drop_first(),
        abs + off + first.len(),
        sig,
        sp,
        order,
        fds,
    )->Some_0;
    lemma_begins_split(s.skip(off), first, rest);
    if first.len() > end - off {
        lemma_element_too_long(elements[0], s.skip(off), abs + off, end - off, sig, sp, order, fds);
    } else {
        lemma_round_trip_element(elements[0], s.skip(off), abs + off, end - off, sig, sp, order, fds);
        lemma_element_consumes(s.skip(off), abs + off, end - off, sig, sp, order, fds);
        assert(s.skip(off).skip(first.len() as int) =~= s.skip(off + first.len()));
        lemma_array_length_short(
            elements.drop_first(),
            s,
            abs,
            off + first.len(),
            end,
            sig,
            sp,
            order,
            fds,
        );
    }
}

/// Whether a value of a basic type can be encoded, and how long its
/// encoding is, does not depend on the byte order.
pub proof fn lemma_basic_order(
    c: u8,
    v: SpecValue,
    abs: int,
    one: ByteOrder,
    other: ByteOrder,
    fds: Option<Seq<i32>>,
)
    ensures
        match (encode_basic(c, v, abs, one, fds), encode_basic(c, v, abs, other, fds)) {
            (Some(a), Some(b)) => a.len() == b.len(),
            (None, None) => true,
            _ => false,
        },
{
    match v {
        SpecValue::I16(x) => {
            lemma_u16_round_trip(one, unsigned16(x));
            lemma_u16_round_trip(other, unsigned16(x));
        },
        SpecValue::U16(x) => {
            lemma_u16_round_trip(one, x);
            lemma_u16_round_trip(other, x);
        },
        SpecValue::I32(x) => {
            lemma_u32_round_trip(one, unsigned32(x));
            lemma_u32_round_trip(other, unsigned32(x));
        },
        SpecValue::U32(x) => {
            lemma_u32_round_trip(one, x);
            lemma_u32_round_trip(other, x);
        },
        SpecValue::I64(x) => {
            lemma_u64_round_trip(one, unsigned64(x));
            lemma_u64_round_trip(other, unsigned64(x));
        },
        SpecValue::U64(x) => {
            lemma_u64_round_trip(one, x);
            lemma_u64_round_trip(other, x);
        },
        SpecValue::F64(x) => {
            lemma_u64_round_trip(one, x);
            lemma_u64_round_trip(other, x);
        },
        SpecValue::Bool(x) => {
            lemma_u32_round_trip(one, 0);
            lemma_u32_round_trip(other, 0);
            lemma_u32_round_trip(one, 1);
            lemma_u32_round_trip(other, 1);
        },
        SpecValue::Str(bytes) => {
            lemma_u32_round_trip(one, bytes.len() as u32);
            lemma_u32_round_trip(other, bytes.len() as u32);
        },
        SpecValue::ObjectPath(bytes) => {
            lemma_u32_round_trip(one, bytes.len() as u32);
            lemma_u32_round_trip(other, bytes.len() as u32);
        },
        SpecValue::Fd(fd) => {
            let i = choose|i: int| has_fd(fds, fd, i);
            lemma_u32_round_trip(one, i as u32);
            lemma_u32_round_trip(other, i as u32);
        },
        _ => {},
    }
}

/// Whether a value can be encoded, and how long its encoding is, does not
/// depend on the byte order.
pub proof fn lemma_value_order(
    v: SpecValue,
    abs: int,
    sig: Seq<u8>,
    sp: int,
    one: ByteOrder,
    other: ByteOrder,
    fds: Option<Seq<i32>>,
)
    ensures
        match (encode_value(v, abs, sig, sp, one, fds), encode_value(v, abs, sig, sp, other, fds)) {
            (Some(a), Some(b)) => a.len() == b.len(),
            (None, None) => true,
            _ => false,
        },
    decreases v, 0int,
{
    lemma_encode_value_unfold(v, abs, sig, sp, one, fds);
    lemma_encode_value_unfold(v, abs, sig, sp, other, fds);
    if 0 <= sp < sig.len() {
        if is_basic_code(sig[sp]) {
            lemma_basic_order(sig[sp], v, abs, one, other, fds);
        } else if sig[sp] == VARIANT_SIGNATURE_CHAR {
            match v {
                SpecValue::Variant(inner, value) => {
                    if encode_signature(inner) is Some {
                        let head = encode_signature(inner)->Some_0;
                        lemma_value_order(*value, abs + head.len(), inner, 0, one, other, fds);
                    }
                },
                _ => {},
            }
        } else if sig[sp] == ARRAY_SIGNATURE_CHAR {
            match v {
                SpecValue::Array(elements) => {
                    let lead = padding_for(abs, 4) + 4;
                    let gap = padding_for(abs + lead, alignment_of_code(sig[sp + 1]) as int);
                    lemma_elements_order(elements, abs + lead + gap, sig, sp + 1, one, other, fds);
                    match encode_elements(elements, abs + lead + gap, sig, sp + 1, one, fds) {
                        Some(payload) => {
                            lemma_u32_round_trip(one, payload.len() as u32);
                            lemma_u32_round_trip(other, payload.len() as u32);
                        },
                        None => {},
                    }
                },
                _ => {},
            }
        } else if sig[sp] == STRUCT_SIG_START_CHAR {
            match v {
                SpecValue::Structure(fields) => {
                    lemma_fields_order(fields, abs + padding_for(abs, 8), sig, sp + 1, one, other, fds);
                },
                _ => {},
            }
        }
    }
}

/// Whether an element can be encoded, and how long its encoding is, does
/// not depend on the byte order.
pub proof fn lemma_element_order(
    e: SpecValue,
    abs: int,
    sig: Seq<u8>,
    sp: int,
    one: ByteOrder,
    other: ByteOrder,
    fds: Option<Seq<i32>>,
)
    ensures
        match (encode_element(e, abs, sig, sp, one, fds), encode_element(e, abs, sig, sp, other, fds)) {
            (Some(a), Some(b)) => a.len() == b.len(),
            (None, None) => true,
            _ => false,
        },
    decreases e, 1int,
{
    lemma_encode_element_unfold(e, abs, sig, sp, one, fds);
    lemma_encode_element_unfold(e, abs, sig, sp, other, fds);
    if 0 <= sp < sig.len() {
        let p = padding_for(abs, alignment_of_code(sig[sp]) as int);
        if sig[sp] != DICT_ENTRY_SIG_START_CHAR {
            lemma_value_order(e, abs + p, sig, sp, one, other, fds);
        } else {
            match e {
                SpecValue::DictEntry(key, value) => {
                    lemma_value_order(*key, abs + p, sig, sp + 1, one, other, fds);
                    match encode_value(*key, abs + p, sig, sp + 1, one, fds) {
                        Some(kb) => {
                            lemma_value_order(*value, abs + p + kb.len(), sig, sp + 2, one, other, fds);
                        },
                        None => {},
                    }
                },
                _ => {},
            }
        }
    }
}

/// Whether the elements of an array can be encoded, and how long their
/// encoding is, does not depend on the byte order.
pub proof fn lemma_elements_order(
    elements: Seq<SpecValue>,
    abs: int,
    sig: Seq<u8>,
    sp: int,
    one: ByteOrder,
    other: ByteOrder,
    fds: Option<Seq<i32>>,
)
    ensures
        match (encode_elements(elements, abs, sig, sp, one, fds), encode_elements(elements, abs, sig, sp, other, fds)) {
            (Some(a), Some(b)) => a.len() == b.len(),
            (None, None) => true,
            _ => false,
        },
    decreases elements, 2int,
{
    lemma_encode_elements_unfold(elements, abs, sig, sp, one, fds);
    lemma_encode_elements_unfold(elements, abs, sig, sp, other, fds);
    if elements.len() > 0 {
        lemma_element_order(elements[0], abs, sig, sp, one, other, fds);
        match encode_element(elements[0], abs, sig, sp, one, fds) {
            Some(first) => {
                lemma_elements_order(elements.drop_first(), abs + first.len(), sig, sp, one, other, fds);
            },
            None => {},
        }
    }
}

/// Whether the fields of a structure can be encoded, and how long their
/// encoding is, does not depend on the byte order.
pub proof fn lemma_fields_order(
    fields: Seq<SpecValue>,
    abs: int,
    sig: Seq<u8>,
    sp: int,
    one: ByteOrder,
    other: ByteOrder,
    fds: Option<Seq<i32>>,
)
    ensures
        match (encode_fields(fields, abs, sig, sp, one, fds), encode_fields(fields, abs, sig, sp, other, fds)) {
            (Some(a), Some(b)) => a.len() == b.len(),
            (None, None) => true,
            _ => false,
        },
    decreases fields, 2int,
{
    lemma_encode_fields_unfold(fields, abs, sig, sp, one, fds);
    lemma_encode_fields_unfold(fields, abs, sig, sp, other, fds);
    if fields.len() > 0 {
        match complete_type_len(sig, sp, false) {
            Some(m) => {
                lemma_value_order(fields[0], abs, sig, sp, one, other, fds);
                match encode_value(fields[0], abs, sig, sp, one, fds) {
                    Some(first) => {
                        if !(sp + m < sig.len() && sig[sp + m] == STRUCT_SIG_END_CHAR) {
                            lemma_fields_order(
                                fields.drop_first(),
                                abs + first.len(),
                                sig,
                                sp + m,
                                one,
                                other,
                                fds,
                            );
                        }
                    },
                    None => {},
                }
            },
            None => {},
        }
    }
}

/// Byte-order symmetry: a value that is encoded in one byte order and read
/// in that order, and the same value encoded and read in the other order,
/// come out the same, after the same number of bytes. The two encodings
/// differ only in that every scalar is written backwards.
pub proof fn lemma_byte_order_symmetry(
    v: SpecValue,
    abs: int,
    sig: Seq<u8>,
    sp: int,
    order: ByteOrder,
    fds: Option<Seq<i32>>,
)
    requires
        encode_value(v, abs, sig, sp, order, fds) is Some,
    ensures
        encode_value(v, abs, sig, sp, order.swapped(), fds) is Some,
        ({
            let b = encode_value(v, abs, sig, sp, order, fds)->Some_0;
            let c = encode_value(v, abs, sig, sp, order.swapped(), fds)->Some_0;
            &&& c.len() == b.len()
            &&& decode_value(c, abs, sig, sp, order.swapped(), fds) == decode_value(
                b,
                abs,
                sig,
                sp,
                order,
                fds,
            )
            &&& decode_value(b, abs, sig, sp, order, fds) == Ok::<(SpecValue, int), Error>(
                (v, b.len() as int),
            )
        }),
{
    lemma_value_order(v, abs, sig, sp, order, order.swapped(), fds);
    let b = encode_value(v, abs, sig, sp, order, fds)->Some_0;
    let c = encode_value(v, abs, sig, sp, order.swapped(), fds)->Some_0;
    lemma_round_trip(v, b, abs, sig, sp, order, fds);
    lemma_round_trip(v, c, abs, sig, sp, order.swapped(), fds);
}

/// Round trip, for a deserializer: where the bytes it has not read yet start
/// with the encoding of a value of the type under its cursor, reading the
/// value under the cursor yields that value, and takes exactly the bytes of
/// the encoding.
pub proof fn lemma_deserializer_reads_back(de: Deserializer, v: SpecValue)
    requires
        encode_value(v, de.abs(), de.sig(), de.sp(), de.order(), de.table()) matches Some(b)
            && begins_with(de.rest(), b),
    ensures
        de.any() == Ok::<(SpecValue, int), Error>(
            (v, encode_value(v, de.abs(), de.sig(), de.sp(), de.order(), de.table())->Some_0.len() as int),
        ),
{
    lemma_round_trip(v, de.rest(), de.abs(), de.sig(), de.sp(), de.order(), de.table());
}

/// Position accounting, for a deserializer: what reading the value under the
/// cursor yields can be encoded where it was read, and the encoding is as
/// long as the number of bytes that reading took. Read once more from its
/// encoding, the value comes out the same.
pub proof fn lemma_deserializer_accounts(de: Deserializer)
    ensures
        de.any() matches Ok((v, n)) ==> (encode_value(
            v,
            de.abs(),
            de.sig(),
            de.sp(),
            de.order(),
            de.table(),
        ) matches Some(b) && b.len() == n && 1 <= n <= de.rest().len() && decode_value(
            b,
            de.abs(),
            de.sig(),
            de.sp(),
            de.order(),
            de.table(),
        ) == de.any()),
{
    lemma_position_accounting(de.rest(), de.abs(), de.sig(), de.sp(), de.order(), de.table());
    lemma_value_consumes(de.rest(), de.abs(), de.sig(), de.sp(), de.order(), de.table());
    match de.any() {
        Ok((v, n)) => {
            let b = encode_value(v, de.abs(), de.sig(), de.sp(), de.order(), de.table())->Some_0;
            lemma_round_trip(v, b, de.abs(), de.sig(), de.sp(), de.order(), de.table());
        },
        Err(_) => {},
    }
}

} // verus!
