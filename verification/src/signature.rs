//! Signatures: strings of type codes that describe the layout of a value.
//!
//! A *complete type* is a basic code, `v`, an array `a` followed by its element
//! type, or a structure `(` ... `)` of one or more complete types. The element
//! of an array may also be a dict entry `{` key value `}`, whose key is a
//! basic code and whose value is one complete type.

use crate::error::Error;
use vstd::prelude::*;

verus! {

/// The code `y`.
pub const BYTE_CODE: u8 = 121;
/// The code `b`.
pub const BOOL_CODE: u8 = 98;
/// The code `n`.
pub const INT16_CODE: u8 = 110;
/// The code `q`.
pub const UINT16_CODE: u8 = 113;
/// The code `i`.
pub const INT32_CODE: u8 = 105;
/// The code `u`.
pub const UINT32_CODE: u8 = 117;
/// The code `x`.
pub const INT64_CODE: u8 = 120;
/// The code `t`.
pub const UINT64_CODE: u8 = 116;
/// The code `d`.
pub const DOUBLE_CODE: u8 = 100;
/// The code `s`.
pub const STRING_CODE: u8 = 115;
/// The code `o`.
pub const OBJECT_PATH_CODE: u8 = 111;
/// The code `g`.
pub const SIGNATURE_CODE: u8 = 103;
/// The code `h`.
pub const FD_CODE: u8 = 104;
/// The code `v`.
pub const VARIANT_SIGNATURE_CHAR: u8 = 118;
/// The code `a`.
pub const ARRAY_SIGNATURE_CHAR: u8 = 97;
/// The code `(`.
pub const STRUCT_SIG_START_CHAR: u8 = 40;
/// The code `)`.
pub const STRUCT_SIG_END_CHAR: u8 = 41;
/// The code `{`.
pub const DICT_ENTRY_SIG_START_CHAR: u8 = 123;
/// The code `}`.
pub const DICT_ENTRY_SIG_END_CHAR: u8 = 125;

/// The longest signature that the format allows, in bytes.
pub const MAX_SIGNATURE_LEN: usize = 255;

/// Whether `c` is the code of a basic type: a fixed-size scalar or one of the
/// string-like types.
pub open spec fn is_basic_code(c: u8) -> bool {
    c == BYTE_CODE || c == BOOL_CODE || c == INT16_CODE || c == UINT16_CODE || c == INT32_CODE
        || c == UINT32_CODE || c == INT64_CODE || c == UINT64_CODE || c == DOUBLE_CODE || c
        == STRING_CODE || c == OBJECT_PATH_CODE || c == SIGNATURE_CODE || c == FD_CODE
}

/// The length of the complete type that starts at index `i` of `sig`, or
/// `None` if no complete type starts there. With `entry_ok` a dict entry
/// counts as well, as it does for the element of an array.
pub open spec fn complete_type_len(sig: Seq<u8>, i: int, entry_ok: bool) -> Option<nat>
    decreases sig.len() - i, 0int,
{
    if i < 0 || i >= sig.len() {
        None
    } else if is_basic_code(sig[i]) || sig[i] == VARIANT_SIGNATURE_CHAR {
        Some(1)
    } else if sig[i] == ARRAY_SIGNATURE_CHAR {
        match complete_type_len(sig, i + 1, true) {
            Some(m) => Some(1 + m),
            None => None,
        }
    } else if sig[i] == STRUCT_SIG_START_CHAR {
        match fields_len(sig, i + 1) {
            Some(k) => if k > 0 {
                Some(2 + k)
            } else {
                None
            },
            None => None,
        }
    } else if sig[i] == DICT_ENTRY_SIG_START_CHAR && entry_ok {
        if i + 1 < sig.len() && is_basic_code(sig[i + 1]) {
            match complete_type_len(sig, i + 2, false) {
                Some(m) => if i + 2 + m < sig.len() && sig[i + 2 + m] == DICT_ENTRY_SIG_END_CHAR {
                    Some(3 + m)
                } else {
                    None
                },
                None => None,
            }
        } else {
            None
        }
    } else {
        None
    }
}

/// The total length of the complete types that run from index `i` of `sig` up
/// to the `)` that closes them, or `None` if the run is broken or never
/// closed.
pub open spec fn fields_len(sig: Seq<u8>, i: int) -> Option<nat>
    decreases sig.len() - i, 1int,
{
    if i < 0 || i >= sig.len() {
        None
    } else if sig[i] == STRUCT_SIG_END_CHAR {
        Some(0)
    } else {
        match complete_type_len(sig, i, false) {
            Some(m) => if 0 < m && i + m <= sig.len() {
                match fields_len(sig, i + m) {
                    Some(k) => Some(m + k),
                    None => None,
                }
            } else {
                None
            },
            None => None,
        }
    }
}

/// Whether `sig`, from index `i` on, is a run of complete types that ends
/// exactly where `sig` ends.
pub open spec fn complete_types_from(sig: Seq<u8>, i: int) -> bool
    decreases sig.len() - i,
{
    if i < 0 || i > sig.len() {
        false
    } else if i == sig.len() {
        true
    } else {
        match complete_type_len(sig, i, false) {
            Some(m) => 0 < m && i + m <= sig.len() && complete_types_from(sig, i + m),
            None => false,
        }
    }
}

/// Whether `sig` is a well-formed signature: at most 255 bytes that form a
/// run of complete types. Brackets are balanced, a dict entry stands only
/// directly behind `a`, and it holds a basic key and one value.
pub open spec fn valid_signature(sig: Seq<u8>) -> bool {
    sig.len() <= MAX_SIGNATURE_LEN && complete_types_from(sig, 0)
}

/// A complete type is at least one code long and lies within the signature.
pub proof fn lemma_complete_type_len_bounds(sig: Seq<u8>, i: int, entry_ok: bool)
    ensures
        complete_type_len(sig, i, entry_ok) matches Some(m) ==> 0 <= i && 1 <= m && i + m
            <= sig.len(),
    decreases sig.len() - i, 0int,
{
    if 0 <= i < sig.len() {
        if is_basic_code(sig[i]) || sig[i] == VARIANT_SIGNATURE_CHAR {
        } else if sig[i] == ARRAY_SIGNATURE_CHAR {
            lemma_complete_type_len_bounds(sig, i + 1, true);
        } else if sig[i] == STRUCT_SIG_START_CHAR {
            lemma_fields_len_bounds(sig, i + 1);
        } else if sig[i] == DICT_ENTRY_SIG_START_CHAR && entry_ok && i + 1 < sig.len() {
            lemma_complete_type_len_bounds(sig, i + 2, false);
        }
    }
}

/// A run of structure fields lies within the signature, and the code behind
/// it is the closing bracket.
pub proof fn lemma_fields_len_bounds(sig: Seq<u8>, i: int)
    ensures
        fields_len(sig, i) matches Some(k) ==> 0 <= i && i + k < sig.len() && sig[i + k]
            == STRUCT_SIG_END_CHAR,
    decreases sig.len() - i, 1int,
{
    if 0 <= i < sig.len() && sig[i] != STRUCT_SIG_END_CHAR {
        lemma_complete_type_len_bounds(sig, i, false);
        match complete_type_len(sig, i, false) {
            Some(m) => {
                lemma_fields_len_bounds(sig, i + m);
            },
            None => {},
        }
    }
}

/// The codes of a complete type are ASCII.
pub proof fn lemma_complete_type_is_ascii(sig: Seq<u8>, i: int, entry_ok: bool)
    ensures
        complete_type_len(sig, i, entry_ok) matches Some(m) ==> forall|j: int|
            i <= j < i + m ==> sig[j] < 128,
    decreases sig.len() - i, 0int,
{
    lemma_complete_type_len_bounds(sig, i, entry_ok);
    if 0 <= i < sig.len() {
        if is_basic_code(sig[i]) || sig[i] == VARIANT_SIGNATURE_CHAR {
        } else if sig[i] == ARRAY_SIGNATURE_CHAR {
            lemma_complete_type_is_ascii(sig, i + 1, true);
        } else if sig[i] == STRUCT_SIG_START_CHAR {
            lemma_fields_are_ascii(sig, i + 1);
            lemma_fields_len_bounds(sig, i + 1);
        } else if sig[i] == DICT_ENTRY_SIG_START_CHAR && entry_ok && i + 1 < sig.len() {
            lemma_complete_type_is_ascii(sig, i + 2, false);
        }
    }
}

/// The codes of a run of structure fields are ASCII.
pub proof fn lemma_fields_are_ascii(sig: Seq<u8>, i: int)
    ensures
        fields_len(sig, i) matches Some(k) ==> forall|j: int| i <= j < i + k ==> sig[j] < 128,
    decreases sig.len() - i, 1int,
{
    if 0 <= i < sig.len() && sig[i] != STRUCT_SIG_END_CHAR {
        lemma_complete_type_is_ascii(sig, i, false);
        lemma_complete_type_len_bounds(sig, i, false);
        match complete_type_len(sig, i, false) {
            Some(m) => {
                if 0 < m && i + m <= sig.len() {
                    lemma_fields_are_ascii(sig, i + m);
                }
            },
            None => {},
        }
    }
}

/// The codes of a run of complete types are ASCII.
pub proof fn lemma_complete_types_are_ascii(sig: Seq<u8>, i: int)
    requires
        complete_types_from(sig, i),
    ensures
        forall|j: int| i <= j < sig.len() ==> sig[j] < 128,
    decreases sig.len() - i,
{
    if i < sig.len() {
        lemma_complete_type_is_ascii(sig, i, false);
        let m = complete_type_len(sig, i, false)->Some_0;
        lemma_complete_types_are_ascii(sig, i + m);
    }
}

/// Whether `c` is the code of a basic type.
pub fn is_basic(c: u8) -> (r: bool)
    ensures
        r == is_basic_code(c),
{
    c == BYTE_CODE || c == BOOL_CODE || c == INT16_CODE || c == UINT16_CODE || c == INT32_CODE
        || c == UINT32_CODE || c == INT64_CODE || c == UINT64_CODE || c == DOUBLE_CODE || c
        == STRING_CODE || c == OBJECT_PATH_CODE || c == SIGNATURE_CODE || c == FD_CODE
}

/// Measures the complete type that starts at index `i` of `sig`.
pub fn measure_complete_type(sig: &[u8], i: usize, entry_ok: bool) -> (r: Option<usize>)
    ensures
        match r {
            Some(m) => complete_type_len(sig@, i as int, entry_ok) == Some(m as nat) && 1 <= m
                && i + m <= sig@.len() <= usize::MAX,
            None => complete_type_len(sig@, i as int, entry_ok) is None,
        },
    decreases sig@.len() - i, 0int,
{
    proof {
        lemma_complete_type_len_bounds(sig@, i as int, entry_ok);
    }
    if i >= sig.len() {
        return None;
    }
    let c: u8 = sig[i];
    if is_basic(c) || c == VARIANT_SIGNATURE_CHAR {
        Some(1)
    } else if c == ARRAY_SIGNATURE_CHAR {
        match measure_complete_type(sig, i + 1, true) {
            Some(m) => Some(1 + m),
            None => None,
        }
    } else if c == STRUCT_SIG_START_CHAR {
        match measure_fields(sig, i + 1) {
            Some(k) => if k > 0 {
                Some(2 + k)
            } else {
                None
            },
            None => None,
        }
    } else if c == DICT_ENTRY_SIG_START_CHAR && entry_ok {
        if i + 1 < sig.len() && is_basic(sig[i + 1]) {
            match measure_complete_type(sig, i + 2, false) {
                Some(m) => if i + 2 + m < sig.len() && sig[i + 2 + m] == DICT_ENTRY_SIG_END_CHAR {
                    Some(3 + m)
                } else {
                    None
                },
                None => None,
            }
        } else {
            None
        }
    } else {
        None
    }
}

/// Measures the run of structure fields that starts at index `i` of `sig`.
pub fn measure_fields(sig: &[u8], i: usize) -> (r: Option<usize>)
    ensures
        match r {
            Some(k) => fields_len(sig@, i as int) == Some(k as nat) && i + k < sig@.len(),
            None => fields_len(sig@, i as int) is None,
        },
    decreases sig@.len() - i, 1int,
{
    proof {
        lemma_fields_len_bounds(sig@, i as int);
    }
    if i >= sig.len() {
        return None;
    }
    let mut j: usize = i;
    while j < sig.len() && sig[j] != STRUCT_SIG_END_CHAR
        invariant
            i <= j <= sig@.len(),
            fields_len(sig@, j as int) matches Some(k) ==> fields_len(sig@, i as int) == Some(
                (k + j - i) as nat,
            ),
            fields_len(sig@, j as int) is None ==> fields_len(sig@, i as int) is None,
        decreases sig@.len() - j,
    {
        match measure_complete_type(sig, j, false) {
            Some(m) => {
                j = j + m;
            },
            None => {
                return None;
            },
        }
    }
    if j < sig.len() {
        Some(j - i)
    } else {
        None
    }
}

/// A signature, held as its bytes.
///
/// The type itself promises nothing about the bytes; `is_valid` says whether
/// they form a well-formed signature, and `try_from_bytes` admits no others.
#[derive(Clone, Copy, Debug)]
pub struct Signature<'a> {
    /// The type codes, one per byte.
    pub bytes: &'a [u8],
}

impl<'a> View for Signature<'a> {
    type V = Seq<u8>;

    open spec fn view(&self) -> Seq<u8> {
        self.bytes@
    }
}

impl<'a> Signature<'a> {
    /// Whether this is a well-formed signature.
    pub open spec fn is_valid(&self) -> bool {
        valid_signature(self@)
    }

    /// Checks `bytes` and wraps them. More than 255 bytes are refused with
    /// `InvalidLength`, bytes that are no run of complete types with
    /// `IncorrectType`.
    pub fn try_from_bytes(bytes: &'a [u8]) -> (r: Result<Signature<'a>, Error>)
        ensures
            match r {
                Ok(s) => valid_signature(bytes@) && s@ == bytes@,
                Err(Error::InvalidLength) => bytes@.len() > MAX_SIGNATURE_LEN,
                Err(Error::IncorrectType) => bytes@.len() <= MAX_SIGNATURE_LEN
                    && !complete_types_from(bytes@, 0),
                Err(_) => false,
            },
    {
        if bytes.len() > MAX_SIGNATURE_LEN {
            return Err(Error::InvalidLength);
        }
        let mut i: usize = 0;
        while i < bytes.len()
            invariant
                i <= bytes@.len() <= MAX_SIGNATURE_LEN,
                complete_types_from(bytes@, i as int) == complete_types_from(bytes@, 0),
            decreases bytes@.len() - i,
        {
            match measure_complete_type(bytes, i, false) {
                Some(m) => {
                    i = i + m;
                },
                None => {
                    return Err(Error::IncorrectType);
                },
            }
        }
        Ok(Signature { bytes })
    }

    /// The bytes of the signature.
    pub fn as_bytes(&self) -> (bytes: &'a [u8])
        ensures
            bytes@ == self@,
    {
        self.bytes
    }

    /// The number of bytes.
    pub fn len(&self) -> (n: usize)
        ensures
            n == self@.len(),
    {
        self.bytes.len()
    }

    /// Whether the signature holds no code at all.
    pub fn is_empty(&self) -> (b: bool)
        ensures
            b == (self@.len() == 0),
    {
        self.bytes.len() == 0
    }
}

/// The alignment that the D-Bus format gives to the type with code `c`.
pub open spec fn alignment_of_code(c: u8) -> nat {
    if c == INT16_CODE || c == UINT16_CODE {
        2
    } else if c == BOOL_CODE || c == INT32_CODE || c == UINT32_CODE || c == FD_CODE || c
        == STRING_CODE || c == OBJECT_PATH_CODE || c == ARRAY_SIGNATURE_CHAR {
        4
    } else if c == INT64_CODE || c == UINT64_CODE || c == DOUBLE_CODE || c
        == STRUCT_SIG_START_CHAR || c == DICT_ENTRY_SIG_START_CHAR {
        8
    } else {
        1
    }
}

/// The alignment of the type that `sig` begins with; 1 for the empty
/// signature.
pub open spec fn alignment_of(sig: Seq<u8>) -> nat {
    if sig.len() == 0 {
        1
    } else {
        alignment_of_code(sig[0])
    }
}

/// The alignment, in the D-Bus format, of the type that `signature` begins
/// with.
pub fn alignment_for_signature(signature: &Signature) -> (align: usize)
    ensures
        align == alignment_of(signature@),
        align == 1 || align == 2 || align == 4 || align == 8,
{
    if signature.len() == 0 {
        return 1;
    }
    let c: u8 = signature.bytes[0];
    if c == INT16_CODE || c == UINT16_CODE {
        2
    } else if c == BOOL_CODE || c == INT32_CODE || c == UINT32_CODE || c == FD_CODE || c
        == STRING_CODE || c == OBJECT_PATH_CODE || c == ARRAY_SIGNATURE_CHAR {
        4
    } else if c == INT64_CODE || c == UINT64_CODE || c == DOUBLE_CODE || c
        == STRUCT_SIG_START_CHAR || c == DICT_ENTRY_SIG_START_CHAR {
        8
    } else {
        1
    }
}

} // verus!
