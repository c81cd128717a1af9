//! Reading a value of whatever type the signature announces.

use crate::access::{ArrayDeserializer, SeqAccess, StructureDeserializer, ValueDeserializer, ValueStep};
use crate::de::Deserializer;
use crate::error::Error;
use crate::signature::{
    alignment_of_code, complete_type_len, fields_len, is_basic, is_basic_code, lemma_complete_type_len_bounds,
    lemma_fields_len_bounds, ARRAY_SIGNATURE_CHAR, BOOL_CODE, BYTE_CODE,
    DICT_ENTRY_SIG_START_CHAR, DOUBLE_CODE, FD_CODE, INT16_CODE, INT32_CODE, INT64_CODE,
    OBJECT_PATH_CODE, STRING_CODE, STRUCT_SIG_START_CHAR,
    UINT16_CODE, UINT32_CODE, UINT64_CODE, VARIANT_SIGNATURE_CHAR,
};
use crate::value::{lemma_view_array, lemma_view_structure, views, Value};
use crate::wire::{
    decode_element, decode_elements, decode_fields,
    decode_value, lemma_element_unfold, lemma_elements_unfold, lemma_fields_unfold,
    lemma_value_array, lemma_value_basic, lemma_value_none, lemma_value_structure,
    lemma_value_variant, SpecValue,
};
use vstd::prelude::*;

verus! {

/// What the elements read so far and the outcome of reading the rest make
/// together.
spec fn prepend(prefix: Seq<SpecValue>, rest: Result<Seq<SpecValue>, Error>) -> Result<
    Seq<SpecValue>,
    Error,
> {
    match rest {
        Ok(values) => Ok(prefix + values),
        Err(e) => Err(e),
    }
}

/// What the fields read so far and the outcome of reading the rest make
/// together.
spec fn prepend_fields(prefix: Seq<SpecValue>, rest: Result<(Seq<SpecValue>, int), Error>) -> Result<
    (Seq<SpecValue>, int),
    Error,
> {
    match rest {
        Ok((values, end)) => Ok((prefix + values, end)),
        Err(e) => Err(e),
    }
}

impl<'de, 'sig, 'f> Deserializer<'de, 'sig, 'f> {
    /// What reading the value under the cursor yields: the value and the
    /// number of bytes it takes.
    pub open spec fn any(&self) -> Result<(SpecValue, int), Error> {
        decode_value(self.rest(), self.abs(), self.sig(), self.sp(), self.order(), self.table())
    }

    /// Whether `r` is what reading the value under the cursor of `self`
    /// yields, and `after` the deserializer that this leaves: a value takes
    /// at least one byte, and the cursor steps over its complete type; an
    /// error leaves the deserializer as it was.
    pub open spec fn reads(self, after: Self, r: Result<Value<'de>, Error>) -> bool {
        match r {
            Ok(v) => self.any() == Ok::<(SpecValue, int), Error>((v@, after.pos - self.pos))
                && after.pos > self.pos && (complete_type_len(self.sig(), self.sp(), false) matches Some(
                m,
            ) && after == self.moved(after.pos - self.pos, m as int)),
            Err(e) => self.any() == Err::<(SpecValue, int), Error>(e) && after == self,
        }
    }

    /// The value of the basic type with the code `c`, on which the cursor
    /// stands.
    fn any_basic(&mut self, c: u8) -> (r: Result<Value<'de>, Error>)
        requires
            old(self).wf(),
            old(self).sig_parser.peek() == Ok::<u8, Error>(c),
            is_basic_code(c),
        ensures
            old(self).reads(*final(self), r),
            final(self).wf(),
    {
        proof {
            lemma_value_basic(
                self.rest(),
                self.abs(),
                self.sig(),
                self.sp(),
                self.order(),
                self.table(),
            );
        }
        if c == BYTE_CODE {
            match self.deserialize_u8() {
                Ok(v) => Ok(Value::U8(v)),
                Err(e) => Err(e),
            }
        } else if c == BOOL_CODE {
            match self.deserialize_bool() {
                Ok(v) => Ok(Value::Bool(v)),
                Err(e) => Err(e),
            }
        } else if c == INT16_CODE {
            match self.deserialize_i16() {
                Ok(v) => Ok(Value::I16(v)),
                Err(e) => Err(e),
            }
        } else if c == UINT16_CODE {
            match self.deserialize_u16() {
                Ok(v) => Ok(Value::U16(v)),
                Err(e) => Err(e),
            }
        } else if c == INT32_CODE {
            match self.deserialize_i32() {
                Ok(v) => Ok(Value::I32(v)),
                Err(e) => Err(e),
            }
        } else if c == FD_CODE {
            match self.deserialize_i32() {
                Ok(v) => Ok(Value::Fd(v)),
                Err(e) => Err(e),
            }
        } else if c == UINT32_CODE {
            match self.deserialize_u32() {
                Ok(v) => Ok(Value::U32(v)),
                Err(e) => Err(e),
            }
        } else if c == INT64_CODE {
            match self.deserialize_i64() {
                Ok(v) => Ok(Value::I64(v)),
                Err(e) => Err(e),
            }
        } else if c == UINT64_CODE {
            match self.deserialize_u64() {
                Ok(v) => Ok(Value::U64(v)),
                Err(e) => Err(e),
            }
        } else if c == DOUBLE_CODE {
            match self.deserialize_f64() {
                Ok(v) => Ok(Value::F64(v)),
                Err(e) => Err(e),
            }
        } else {
            match self.deserialize_str() {
                Ok(v) => if c == STRING_CODE {
                    Ok(Value::Str(v))
                } else if c == OBJECT_PATH_CODE {
                    Ok(Value::ObjectPath(v))
                } else {
                    Ok(Value::Signature(v))
                },
                Err(e) => Err(e),
            }
        }
    }

    /// The variant on which the cursor stands: the signature it carries,
    /// then the value of that type, read by a deserializer of its own.
    fn any_variant(&mut self, access: ValueDeserializer) -> (r: Result<Value<'de>, Error>)
        requires
            old(self).wf(),
            old(self).sig_parser.peek() == Ok::<u8, Error>(VARIANT_SIGNATURE_CHAR),
            access.stage == crate::access::ValueParseStage::Signature,
            access.sig_start == old(self).pos,
        ensures
            old(self).reads(*final(self), r),
            final(self).wf(),
        decreases old(self).rest().len(), old(self).sig().len() - old(self).sp(), 0int,
    {
        proof {
            lemma_value_variant(
                self.rest(),
                self.abs(),
                self.sig(),
                self.sp(),
                self.order(),
                self.table(),
            );
        }
        let pos: usize = self.pos;
        let parser = self.sig_parser;
        let mut access = access;
        let first = access.next_element(self);
        let signature: &'de str = match self.deserialize_str() {
            Err(e) => {
                return Err(e);
            },
            Ok(s) => s,
        };
        let ghost n = self.pos - pos;
        assert(old(self).rest().skip(n) =~= self.bytes@.skip(pos + n));
        assert(self.bytes@.skip(pos as int) == old(self).rest());
        let mut sub = match access.next_element(self) {
            Ok(ValueStep::Value(sub)) => sub,
            _ => {
                assert(false);
                return Err(Error::IncorrectType);
            },
        };
        assert(sub.rest() =~= old(self).rest().skip(n));
        let value = match sub.deserialize_any() {
            Err(e) => {
                self.pos = pos;
                self.sig_parser = parser;
                return Err(e);
            },
            Ok(v) => v,
        };
        match access.advance(self, sub.pos) {
            Err(e) => {
                assert(false);
                return Err(e);
            },
            Ok(()) => {},
        }
        Ok(Value::Variant(signature, Box::new(value)))
    }

    /// Whether `a` gives access to an array of `self`, of dict entries if
    /// `dict`, whose element type starts at index `esp` of the signature, and
    /// the cursor stands where the elements are read from.
    pub open spec fn within(&self, a: &ArrayDeserializer, dict: bool, esp: int) -> bool {
        &&& self.wf()
        &&& a.wf()
        &&& a.start <= self.pos <= a.start + a.len
        &&& 0 <= esp < self.sig().len()
        &&& self.sp() == esp + (if dict {
            1int
        } else {
            0int
        })
        &&& dict == (self.sig()[esp] == DICT_ENTRY_SIG_START_CHAR)
        &&& a.element_alignment == alignment_of_code(self.sig()[esp])
        &&& complete_type_len(self.sig(), esp, true) == Some(a.element_signature_len as nat)
    }

    /// The next element of an array that is no array of dict entries, if
    /// there is one.
    #[verifier::rlimit(50)]
    fn any_plain_element(&mut self, a: &ArrayDeserializer, Ghost(esp): Ghost<int>) -> (r: Result<
        Option<Value<'de>>,
        Error,
    >)
        requires
            old(self).within(a, false, esp),
        ensures
            match r {
                Ok(None) => old(self).pos == a.start + a.len && *final(self) == old(self).moved(
                    0,
                    a.element_signature_len - (old(self).sp() - esp),
                ),
                Ok(Some(v)) => old(self).pos < a.start + a.len && decode_element(
                    old(self).rest(),
                    old(self).abs(),
                    a.start + a.len - old(self).pos,
                    old(self).sig(),
                    esp,
                    old(self).order(),
                    old(self).table(),
                ) == Ok::<(SpecValue, int), Error>((v@, final(self).pos - old(self).pos))
                    && old(self).pos < final(self).pos <= a.start + a.len && *final(self) == old(
                    self,
                ).moved(final(self).pos - old(self).pos, 0),
                Err(e) => old(self).pos < a.start + a.len && decode_element(
                    old(self).rest(),
                    old(self).abs(),
                    a.start + a.len - old(self).pos,
                    old(self).sig(),
                    esp,
                    old(self).order(),
                    old(self).table(),
                ) == Err::<(SpecValue, int), Error>(e) && *final(self) == *old(self),
            },
            final(self).wf(),
        decreases old(self).rest().len(), old(self).sig().len() - old(self).sp(), 2int,
    {
        proof {
            lemma_element_unfold(
                self.rest(),
                self.abs(),
                a.start + a.len - self.pos,
                self.sig(),
                esp,
                self.order(),
                self.table(),
            );
            lemma_complete_type_len_bounds(self.sig(), esp, true);
        }
        let pos: usize = self.pos;
        let mut sub = match a.next_element(self) {
            Err(e) => {
                return Err(e);
            },
            Ok(None) => {
                return Ok(None);
            },
            Ok(Some(sub)) => sub,
        };
        let ghost p = self.pos - pos;
        assert(sub.rest() =~= old(self).rest().skip(p));
        let value = match sub.deserialize_any() {
            Err(e) => {
                self.pos = pos;
                return Err(e);
            },
            Ok(v) => v,
        };
        match a.advance(self, sub.pos) {
            Err(e) => {
                self.pos = pos;
                Err(e)
            },
            Ok(()) => Ok(Some(value)),
        }
    }

    /// The value of a dict entry whose key took the bytes from `start` up to
    /// where `self` stands, padding included.
    #[verifier::rlimit(50)]
    fn any_entry_value(&mut self, a: &ArrayDeserializer, start: usize, Ghost(esp): Ghost<int>) -> (r:
        Result<Value<'de>, Error>)
        requires
            old(self).within(a, true, esp),
            a.start <= start <= old(self).pos,
        ensures
            match r {
                Ok(v) => esp + 2 <= old(self).sig().len() && decode_value(
                    old(self).rest(),
                    old(self).abs(),
                    old(self).sig(),
                    esp + 2,
                    old(self).order(),
                    old(self).table(),
                ) == Ok::<(SpecValue, int), Error>((v@, final(self).pos - old(self).pos))
                    && old(self).pos < final(self).pos <= a.start + a.len && *final(self) == old(
                    self,
                ).moved(final(self).pos - old(self).pos, 0),
                Err(e) => *final(self) == *old(self) && (if esp + 2 > old(self).sig().len() {
                    e == Error::IncorrectType
                } else {
                    match decode_value(
                        old(self).rest(),
                        old(self).abs(),
                        old(self).sig(),
                        esp + 2,
                        old(self).order(),
                        old(self).table(),
                    ) {
                        Err(inner) => e == inner,
                        Ok((_, m)) => e == Error::InvalidLength && old(self).pos + m > a.start
                            + a.len,
                    }
                }),
            },
            final(self).wf(),
        decreases old(self).rest().len(), old(self).sig().len() - old(self).sp(), 1int,
    {
        let pos: usize = self.pos;
        let mut sub = match a.next_value(self) {
            Err(e) => {
                return Err(e);
            },
            Ok(sub) => sub,
        };
        assert(sub.rest() =~= old(self).rest());
        let value = match sub.deserialize_any() {
            Err(e) => {
                return Err(e);
            },
            Ok(v) => v,
        };
        match a.advance(self, sub.pos) {
            Err(e) => Err(e),
            Ok(()) => Ok(value),
        }
    }

    /// The next entry of an array of dict entries, if there is one.
    #[verifier::rlimit(50)]
    fn any_entry(&mut self, a: &ArrayDeserializer, Ghost(esp): Ghost<int>) -> (r: Result<
        Option<Value<'de>>,
        Error,
    >)
        requires
            old(self).within(a, true, esp),
        ensures
            match r {
                Ok(None) => old(self).pos == a.start + a.len && *final(self) == old(self).moved(
                    0,
                    a.element_signature_len - (old(self).sp() - esp),
                ),
                Ok(Some(v)) => old(self).pos < a.start + a.len && decode_element(
                    old(self).rest(),
                    old(self).abs(),
                    a.start + a.len - old(self).pos,
                    old(self).sig(),
                    esp,
                    old(self).order(),
                    old(self).table(),
                ) == Ok::<(SpecValue, int), Error>((v@, final(self).pos - old(self).pos))
                    && old(self).pos < final(self).pos <= a.start + a.len && *final(self) == old(
                    self,
                ).moved(final(self).pos - old(self).pos, 0),
                Err(e) => old(self).pos < a.start + a.len && decode_element(
                    old(self).rest(),
                    old(self).abs(),
                    a.start + a.len - old(self).pos,
                    old(self).sig(),
                    esp,
                    old(self).order(),
                    old(self).table(),
                ) == Err::<(SpecValue, int), Error>(e) && *final(self) == *old(self),
            },
            final(self).wf(),
        decreases old(self).rest().len(), old(self).sig().len() - old(self).sp(), 2int,
    {
        proof {
            lemma_element_unfold(
                self.rest(),
                self.abs(),
                a.start + a.len - self.pos,
                self.sig(),
                esp,
                self.order(),
                self.table(),
            );
            lemma_complete_type_len_bounds(self.sig(), esp, true);
        }
        let pos: usize = self.pos;
        let mut sub = match a.next_key(self) {
            Err(e) => {
                return Err(e);
            },
            Ok(None) => {
                return Ok(None);
            },
            Ok(Some(sub)) => sub,
        };
        let ghost p = self.pos - pos;
        assert(sub.rest() =~= old(self).rest().skip(p));
        let key = match sub.deserialize_any() {
            Err(e) => {
                self.pos = pos;
                return Err(e);
            },
            Ok(v) => v,
        };
        match a.advance(self, sub.pos) {
            Err(e) => {
                self.pos = pos;
                return Err(e);
            },
            Ok(()) => {},
        }
        let ghost n = self.pos - pos - p;
        assert(self.rest() =~= old(self).rest().skip(p + n));
        match self.any_entry_value(a, pos, Ghost(esp)) {
            Err(e) => {
                self.pos = pos;
                Err(e)
            },
            Ok(value) => Ok(Some(Value::DictEntry(Box::new(key), Box::new(value)))),
        }
    }

    /// The next element of the array that `a` gives access to, if there is
    /// one.
    fn any_element(&mut self, a: &ArrayDeserializer, dict: bool, Ghost(esp): Ghost<int>) -> (r:
        Result<Option<Value<'de>>, Error>)
        requires
            old(self).within(a, dict, esp),
        ensures
            match r {
                Ok(None) => old(self).pos == a.start + a.len && *final(self) == old(self).moved(
                    0,
                    a.element_signature_len - (old(self).sp() - esp),
                ),
                Ok(Some(v)) => old(self).pos < a.start + a.len && decode_element(
                    old(self).rest(),
                    old(self).abs(),
                    a.start + a.len - old(self).pos,
                    old(self).sig(),
                    esp,
                    old(self).order(),
                    old(self).table(),
                ) == Ok::<(SpecValue, int), Error>((v@, final(self).pos - old(self).pos))
                    && old(self).pos < final(self).pos <= a.start + a.len && *final(self) == old(
                    self,
                ).moved(final(self).pos - old(self).pos, 0),
                Err(e) => old(self).pos < a.start + a.len && decode_element(
                    old(self).rest(),
                    old(self).abs(),
                    a.start + a.len - old(self).pos,
                    old(self).sig(),
                    esp,
                    old(self).order(),
                    old(self).table(),
                ) == Err::<(SpecValue, int), Error>(e) && *final(self) == *old(self),
            },
            final(self).wf(),
        decreases old(self).rest().len(), old(self).sig().len() - old(self).sp(), 3int,
    {
        if dict {
            self.any_entry(a, Ghost(esp))
        } else {
            self.any_plain_element(a, Ghost(esp))
        }
    }

    /// The elements of the array that `a` gives access to, from the first
    /// on.
    fn any_elements(&mut self, a: &ArrayDeserializer, dict: bool, Ghost(esp): Ghost<int>) -> (r:
        Result<Vec<Value<'de>>, Error>)
        requires
            old(self).within(a, dict, esp),
            a.start == old(self).pos,
        ensures
            match r {
                Ok(values) => decode_elements(
                    old(self).rest(),
                    old(self).abs(),
                    0,
                    a.len as int,
                    old(self).sig(),
                    esp,
                    old(self).order(),
                    old(self).table(),
                ) == Ok::<Seq<SpecValue>, Error>(views(values@)) && final(self).pos == old(self).pos
                    + a.len && *final(self) == old(self).moved(
                    a.len as int,
                    a.element_signature_len - (old(self).sp() - esp),
                ),
                Err(e) => decode_elements(
                    old(self).rest(),
                    old(self).abs(),
                    0,
                    a.len as int,
                    old(self).sig(),
                    esp,
                    old(self).order(),
                    old(self).table(),
                ) == Err::<Seq<SpecValue>, Error>(e) && *final(self) == *old(self),
            },
            final(self).wf(),
        decreases old(self).rest().len(), old(self).sig().len() - old(self).sp(), 4int,
    {
        let pos: usize = self.pos;
        let ghost s = self.rest();
        let ghost abs = self.abs();
        let ghost whole = decode_elements(
            s,
            abs,
            0,
            a.len as int,
            self.sig(),
            esp,
            self.order(),
            self.table(),
        );
        let mut values: Vec<Value<'de>> = Vec::new();
        assert(views(values@) + Seq::<SpecValue>::empty() =~= Seq::<SpecValue>::empty());
        loop
            invariant_except_break
                self.within(a, dict, esp),
                prepend(
                    views(values@),
                    decode_elements(
                        s,
                        abs,
                        self.pos - pos,
                        a.len as int,
                        self.sig(),
                        esp,
                        self.order(),
                        self.table(),
                    ),
                ) == whole,
                *self == old(self).moved(self.pos - pos, 0),
            invariant
                old(self).within(a, dict, esp),
                a.start == pos == old(self).pos,
                s == old(self).rest(),
                abs == old(self).abs(),
                whole == decode_elements(
                    s,
                    abs,
                    0,
                    a.len as int,
                    old(self).sig(),
                    esp,
                    old(self).order(),
                    old(self).table(),
                ),
            ensures
                whole == Ok::<Seq<SpecValue>, Error>(views(values@)),
                self.pos == pos + a.len,
                *self == old(self).moved(
                    a.len as int,
                    a.element_signature_len - (old(self).sp() - esp),
                ),
                self.wf(),
            decreases a.start + a.len - self.pos,
        {
            proof {
                lemma_elements_unfold(
                    s,
                    abs,
                    self.pos - pos,
                    a.len as int,
                    self.sig(),
                    esp,
                    self.order(),
                    self.table(),
                );
                assert(s.skip(self.pos - pos) =~= self.rest());
            }
            let ghost before = *self;
            match self.any_element(a, dict, Ghost(esp)) {
                Err(e) => {
                    self.pos = pos;
                    return Err(e);
                },
                Ok(None) => {
                    assert(views(values@) + Seq::<SpecValue>::empty() =~= views(values@));
                    break ;
                },
                Ok(Some(v)) => {
                    let ghost prefix = views(values@);
                    values.push(v);
                    proof {
                        assert(views(values@) =~= prefix + seq![v@]);
                        let rest = decode_elements(
                            s,
                            abs,
                            self.pos - pos,
                            a.len as int,
                            self.sig(),
                            esp,
                            self.order(),
                            self.table(),
                        );
                        if rest is Ok {
                            assert(prefix + (seq![v@] + rest->Ok_0) =~= views(values@)
                                + rest->Ok_0);
                        }
                    }
                },
            }
        }
        Ok(values)
    }

    /// The array on which the cursor stands.
    fn any_array(&mut self) -> (r: Result<Value<'de>, Error>)
        requires
            old(self).wf(),
            old(self).sig_parser.peek() == Ok::<u8, Error>(ARRAY_SIGNATURE_CHAR),
        ensures
            old(self).reads(*final(self), r),
            final(self).wf(),
        decreases old(self).rest().len(), old(self).sig().len() - old(self).sp(), 0int,
    {
        proof {
            lemma_value_array(
                self.rest(),
                self.abs(),
                self.sig(),
                self.sp(),
                self.order(),
                self.table(),
            );
            lemma_complete_type_len_bounds(self.sig(), self.sp() + 1, true);
        }
        let pos: usize = self.pos;
        let parser = self.sig_parser;
        let (a, dict) = match self.deserialize_seq() {
            Err(e) => {
                return Err(e);
            },
            Ok(SeqAccess::Array(a)) => (a, false),
            Ok(SeqAccess::Dict(a)) => (a, true),
            Ok(_) => {
                assert(false);
                return Err(Error::IncorrectType);
            },
        };
        assert(self.rest() =~= old(self).rest().skip(self.pos - pos));
        match self.any_elements(&a, dict, Ghost(old(self).sp() + 1)) {
            Err(e) => {
                self.pos = pos;
                self.sig_parser = parser;
                Err(e)
            },
            Ok(values) => {
                proof {
                    lemma_view_array(values);
                }
                Ok(Value::Array(values))
            },
        }
    }

    /// The fields of a structure, from the one under the cursor up to the
    /// closing bracket, which the cursor steps over. The structure starts at
    /// position `base`, padding included.
    fn any_fields(&mut self, access: &StructureDeserializer, Ghost(base): Ghost<int>) -> (r: Result<
        Vec<Value<'de>>,
        Error,
    >)
        requires
            old(self).wf(),
            0 <= base <= old(self).pos,
            fields_len(old(self).sig(), old(self).sp()) matches Some(k) && k > 0,
        ensures
            match r {
                Ok(values) => decode_fields(
                    old(self).bytes@.skip(base),
                    old(self).ctxt.position + base,
                    old(self).pos - base,
                    old(self).sig(),
                    old(self).sp(),
                    old(self).order(),
                    old(self).table(),
                ) == Ok::<(Seq<SpecValue>, int), Error>((views(values@), final(self).pos - base))
                    && final(self).pos > old(self).pos && *final(self) == old(self).moved(
                    final(self).pos - old(self).pos,
                    (fields_len(old(self).sig(), old(self).sp())->Some_0 + 1) as int,
                ),
                Err(e) => decode_fields(
                    old(self).bytes@.skip(base),
                    old(self).ctxt.position + base,
                    old(self).pos - base,
                    old(self).sig(),
                    old(self).sp(),
                    old(self).order(),
                    old(self).table(),
                ) == Err::<(Seq<SpecValue>, int), Error>(e) && *final(self) == *old(self),
            },
            final(self).wf(),
        decreases old(self).rest().len(), old(self).sig().len() - old(self).sp(), 2int,
    {
        let pos: usize = self.pos;
        let parser = self.sig_parser;
        let ghost s = self.bytes@.skip(base);
        let ghost abs = self.ctxt.position + base;
        let ghost close = self.sp() + fields_len(self.sig(), self.sp())->Some_0;
        let ghost whole = decode_fields(
            s,
            abs,
            pos - base,
            self.sig(),
            self.sp(),
            self.order(),
            self.table(),
        );
        let mut values: Vec<Value<'de>> = Vec::new();
        loop
            invariant_except_break
                fields_len(self.sig(), self.sp()) matches Some(k) && k > 0 && self.sp() + k
                    == close,
                prepend_fields(
                    views(values@),
                    decode_fields(
                        s,
                        abs,
                        self.pos - base,
                        self.sig(),
                        self.sp(),
                        self.order(),
                        self.table(),
                    ),
                ) == whole,
                *self == old(self).moved(self.pos - pos, self.sp() - old(self).sp()),
                self.pos >= pos,
                self.sp() >= old(self).sp(),
                values@.len() > 0 ==> self.pos > pos,
            invariant
                self.wf(),
                old(self).wf(),
                0 <= base <= pos == old(self).pos,
                parser == old(self).sig_parser,
                s == old(self).bytes@.skip(base),
                abs == old(self).ctxt.position + base,
                close == old(self).sp() + fields_len(old(self).sig(), old(self).sp())->Some_0,
                whole == decode_fields(
                    s,
                    abs,
                    pos - base,
                    old(self).sig(),
                    old(self).sp(),
                    old(self).order(),
                    old(self).table(),
                ),
            ensures
                whole == Ok::<(Seq<SpecValue>, int), Error>((views(values@), self.pos - base)),
                self.pos > pos,
                *self == old(self).moved(self.pos - pos, close + 1 - old(self).sp()),
            decreases self.sig().len() - self.sp(),
        {
            proof {
                lemma_fields_unfold(
                    s,
                    abs,
                    self.pos - base,
                    self.sig(),
                    self.sp(),
                    self.order(),
                    self.table(),
                );
                lemma_complete_type_len_bounds(self.sig(), self.sp(), false);
                assert(s.skip(self.pos - base) =~= self.rest());
            }
            let ghost m = complete_type_len(self.sig(), self.sp(), false)->Some_0;
            match self.deserialize_any() {
                Err(e) => {
                    self.pos = pos;
                    self.sig_parser = parser;
                    return Err(e);
                },
                Ok(v) => {
                    let ghost prefix = views(values@);
                    values.push(v);
                    proof {
                        assert(views(values@) =~= prefix + seq![v@]);
                        lemma_fields_len_bounds(self.sig(), self.sp());
                    }
                    if access.end_element(self) {
                        break ;
                    }
                    proof {
                        let rest = decode_fields(
                            s,
                            abs,
                            self.pos - base,
                            self.sig(),
                            self.sp(),
                            self.order(),
                            self.table(),
                        );
                        if rest is Ok {
                            assert(prefix + (seq![v@] + rest->Ok_0.0) =~= views(values@)
                                + rest->Ok_0.0);
                        }
                    }
                },
            }
        }
        Ok(values)
    }

    /// The structure on which the cursor stands.
    fn any_structure(&mut self) -> (r: Result<Value<'de>, Error>)
        requires
            old(self).wf(),
            old(self).sig_parser.peek() == Ok::<u8, Error>(STRUCT_SIG_START_CHAR),
        ensures
            old(self).reads(*final(self), r),
            final(self).wf(),
        decreases old(self).rest().len(), old(self).sig().len() - old(self).sp(), 0int,
    {
        proof {
            lemma_value_structure(
                self.rest(),
                self.abs(),
                self.sig(),
                self.sp(),
                self.order(),
                self.table(),
            );
        }
        let pos: usize = self.pos;
        let parser = self.sig_parser;
        let access = match self.deserialize_seq() {
            Err(e) => {
                return Err(e);
            },
            Ok(SeqAccess::Structure(access)) => access,
            Ok(_) => {
                assert(false);
                return Err(Error::IncorrectType);
            },
        };
        assert(self.bytes@.skip(pos as int) == old(self).rest());
        match self.any_fields(&access, Ghost(pos as int)) {
            Err(e) => {
                self.pos = pos;
                self.sig_parser = parser;
                Err(e)
            },
            Ok(values) => {
                proof {
                    lemma_view_structure(values);
                }
                Ok(Value::Structure(values))
            },
        }
    }

    /// Reads the value under the cursor, of whatever type the signature
    /// gives it there.
    pub fn deserialize_any(&mut self) -> (r: Result<Value<'de>, Error>)
        requires
            old(self).wf(),
        ensures
            old(self).reads(*final(self), r),
            final(self).wf(),
        decreases old(self).rest().len(), old(self).sig().len() - old(self).sp(), 1int,
    {
        proof {
            let code = self.sig()[self.sp()];
            if self.sp() >= self.sig().len() || !(is_basic_code(code) || code
                == VARIANT_SIGNATURE_CHAR || code == ARRAY_SIGNATURE_CHAR || code
                == STRUCT_SIG_START_CHAR) {
                lemma_value_none(
                    self.rest(),
                    self.abs(),
                    self.sig(),
                    self.sp(),
                    self.order(),
                    self.table(),
                );
            }
        }
        let c: u8 = match self.sig_parser.next_char() {
            Err(e) => {
                return Err(e);
            },
            Ok(c) => c,
        };
        if is_basic(c) {
            self.any_basic(c)
        } else if c == VARIANT_SIGNATURE_CHAR {
            let access = ValueDeserializer::new(self);
            self.any_variant(access)
        } else if c == ARRAY_SIGNATURE_CHAR {
            self.any_array()
        } else if c == STRUCT_SIG_START_CHAR {
            self.any_structure()
        } else {
            Err(Error::IncorrectType)
        }
    }
}

} // verus!
