//! Values of any type that the format knows.

use crate::wire::SpecValue;
use vstd::prelude::*;
use vstd::string::StringSliceAdditionalSpecFns;

verus! {

/// A decoded value of any type. Strings borrow from the bytes that were
/// decoded.
#[derive(Debug, PartialEq)]
pub enum Value<'a> {
    /// A byte, `y`.
    U8(u8),
    /// A boolean, `b`.
    Bool(bool),
    /// A signed 16-bit integer, `n`.
    I16(i16),
    /// An unsigned 16-bit integer, `q`.
    U16(u16),
    /// A signed 32-bit integer, `i`.
    I32(i32),
    /// An unsigned 32-bit integer, `u`.
    U32(u32),
    /// A signed 64-bit integer, `x`.
    I64(i64),
    /// An unsigned 64-bit integer, `t`.
    U64(u64),
    /// A double, `d`, as its IEEE 754 bit pattern.
    F64(u64),
    /// A string, `s`.
    Str(&'a str),
    /// An object path, `o`.
    ObjectPath(&'a str),
    /// A signature, `g`.
    Signature(&'a str),
    /// A file descriptor, already looked up in the table.
    Fd(i32),
    /// The elements of an array; those of an array of dict entries are
    /// `DictEntry` values.
    Array(Vec<Value<'a>>),
    /// A key and its value.
    DictEntry(Box<Value<'a>>, Box<Value<'a>>),
    /// The fields of a structure.
    Structure(Vec<Value<'a>>),
    /// A variant: the signature it carries, and the value of that type.
    Variant(&'a str, Box<Value<'a>>),
}

impl<'a> Value<'a> {
    /// The value as mathematics sees it: strings are their bytes, and
    /// vectors are sequences.
    pub open spec fn model(&self) -> SpecValue
        decreases self,
    {
        match self {
            Value::U8(v) => SpecValue::U8(*v),
            Value::Bool(v) => SpecValue::Bool(*v),
            Value::I16(v) => SpecValue::I16(*v),
            Value::U16(v) => SpecValue::U16(*v),
            Value::I32(v) => SpecValue::I32(*v),
            Value::U32(v) => SpecValue::U32(*v),
            Value::I64(v) => SpecValue::I64(*v),
            Value::U64(v) => SpecValue::U64(*v),
            Value::F64(v) => SpecValue::F64(*v),
            Value::Str(s) => SpecValue::Str(s.spec_bytes()),
            Value::ObjectPath(s) => SpecValue::ObjectPath(s.spec_bytes()),
            Value::Signature(s) => SpecValue::Signature(s.spec_bytes()),
            Value::Fd(v) => SpecValue::Fd(*v),
            Value::Array(elements) => SpecValue::Array(
                Seq::new(
                    elements@.len(),
                    |i: int|
                        if 0 <= i < elements@.len() {
                            elements@[i].model()
                        } else {
                            SpecValue::U8(0)
                        },
                ),
            ),
            Value::DictEntry(key, value) => SpecValue::DictEntry(
                Box::new(key.model()),
                Box::new(value.model()),
            ),
            Value::Structure(fields) => SpecValue::Structure(
                Seq::new(
                    fields@.len(),
                    |i: int|
                        if 0 <= i < fields@.len() {
                            fields@[i].model()
                        } else {
                            SpecValue::U8(0)
                        },
                ),
            ),
            Value::Variant(signature, value) => SpecValue::Variant(
                signature.spec_bytes(),
                Box::new(value.model()),
            ),
        }
    }
}

impl<'a> View for Value<'a> {
    type V = SpecValue;

    open spec fn view(&self) -> SpecValue {
        self.model()
    }
}

/// The views of a sequence of values.
pub open spec fn views(values: Seq<Value>) -> Seq<SpecValue> {
    Seq::new(values.len(), |i: int| values[i]@)
}

/// An array is viewed element by element.
pub proof fn lemma_view_array(elements: Vec<Value>)
    ensures
        Value::Array(elements)@ == SpecValue::Array(views(elements@)),
{
    assert(Value::Array(elements)@->Array_0 =~= views(elements@));
}

/// A structure is viewed field by field.
pub proof fn lemma_view_structure(fields: Vec<Value>)
    ensures
        Value::Structure(fields)@ == SpecValue::Structure(views(fields@)),
{
    assert(Value::Structure(fields)@->Structure_0 =~= views(fields@));
}

} // verus!
