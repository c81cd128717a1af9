//! Access to the containers: arrays, dict entries, structures and variants.
//!
//! A container is read step by step. Each step tells the caller what to read
//! next, and where: from the deserializer itself or from a deserializer of
//! its own over the rest of the bytes. The caller reads the value, by
//! whatever type it expects there, and reports back how many bytes that
//! took.

use crate::de::{Deserializer, EXPECTED_SEQ};
use crate::encoding::{EncodingContext, EncodingFormat};
use crate::endian::read_u32;
use crate::error::Error;
use crate::signature::{
    alignment_for_signature, alignment_of_code, complete_type_len, Signature,
    ARRAY_SIGNATURE_CHAR, DICT_ENTRY_SIG_START_CHAR, STRUCT_SIG_END_CHAR,
    STRUCT_SIG_START_CHAR, VARIANT_SIGNATURE_CHAR,
};
use crate::signature_parser::SignatureParser;
use crate::wire::{decode_array_header, decode_padding, decode_signature};
use vstd::prelude::*;

verus! {

impl<'de, 'sig, 'f> Deserializer<'de, 'sig, 'f> {
    /// Whether `sub` is a deserializer over the bytes that `self` has not
    /// read yet, with the cursor `parser`: it starts at position 0, and its
    /// context places its first byte where the next byte of `self` stands.
    pub open spec fn hands_out(&self, sub: &Deserializer, parser: SignatureParser) -> bool {
        &&& sub.bytes@ == self.rest()
        &&& sub.pos == 0
        &&& sub.ctxt == (EncodingContext {
            format: EncodingFormat::DBus,
            byte_order: self.ctxt.byte_order,
            position: self.abs() as u64,
        })
        &&& sub.sig_parser == parser
        &&& sub.fds == self.fds
        &&& sub.wf()
    }

    /// A deserializer over the bytes from `from` on, with the cursor
    /// `parser`.
    pub(crate) fn sub_deserializer<'s>(&self, from: usize, parser: SignatureParser<'s>) -> (sub:
        Deserializer<'de, 's, 'f>)
        requires
            self.wf(),
            from <= self.bytes@.len(),
            parser.wf(),
        ensures
            sub.bytes@ == self.bytes@.skip(from as int),
            sub.pos == 0,
            sub.ctxt == (EncodingContext {
                format: EncodingFormat::DBus,
                byte_order: self.ctxt.byte_order,
                position: (self.ctxt.position + from) as u64,
            }),
            sub.sig_parser == parser,
            sub.fds == self.fds,
            sub.wf(),
    {
        let bytes: &'de [u8] = self.bytes;
        let rest: &'de [u8] = &bytes[from..bytes.len()];
        let ctxt = EncodingContext::new_dbus(self.ctxt.byte_order, self.ctxt.position + from as u64);
        Deserializer { ctxt, sig_parser: parser, bytes: rest, fds: self.fds, pos: 0 }
    }

    /// Steps `consumed` bytes on, after a deserializer over the rest of the
    /// bytes has read that many; `Eof` where so many are not there.
    pub(crate) fn consume(&mut self, consumed: usize) -> (r: Result<(), Error>)
        requires
            old(self).wf(),
        ensures
            match r {
                Ok(()) => consumed <= old(self).rest().len() && *final(self) == old(self).moved(
                    consumed as int,
                    0,
                ),
                Err(e) => e == Error::Eof && consumed > old(self).rest().len() && *final(self)
                    == *old(self),
            },
            final(self).wf(),
    {
        if consumed > self.bytes.len() - self.pos {
            return Err(Error::Eof);
        }
        self.pos = self.pos + consumed;
        Ok(())
    }
}

/// Access to the elements of an array.
#[derive(Clone, Copy, Debug)]
pub struct ArrayDeserializer {
    /// The byte length that the array declares.
    pub len: usize,
    /// The position of the first element.
    pub start: usize,
    /// The alignment of an element.
    pub element_alignment: usize,
    /// The length of the signature of an element.
    pub element_signature_len: usize,
}

impl ArrayDeserializer {
    /// The alignment and the signature length are those of some type.
    pub open spec fn wf(&self) -> bool {
        &&& self.element_alignment > 0
        &&& self.element_signature_len > 0
    }

    /// Enters an array whose element type the cursor of `de` stands on: reads
    /// the declared byte length and the padding in front of the first
    /// element, which is there even if the array is empty. An array that
    /// declares more bytes than are left is refused with `InvalidLength`.
    /// For an array of dict entries the cursor steps over the opening
    /// bracket.
    pub fn new(de: &mut Deserializer) -> (r: Result<ArrayDeserializer, Error>)
        requires
            old(de).wf(),
        ensures
            match r {
                Ok(a) => decode_array_header(
                    old(de).rest(),
                    old(de).abs(),
                    old(de).sig(),
                    old(de).sp(),
                    old(de).order(),
                ) == Ok::<(u32, nat, int), Error>(
                    (a.len as u32, a.element_signature_len as nat, final(de).pos - old(de).pos),
                ) && a.len <= u32::MAX && a.start == final(de).pos && a.element_alignment
                    == alignment_of_code(old(de).sig()[old(de).sp()]) && *final(de) == old(
                    de,
                ).moved(
                    final(de).pos - old(de).pos,
                    if old(de).sig()[old(de).sp()] == DICT_ENTRY_SIG_START_CHAR {
                        1
                    } else {
                        0
                    },
                ) && a.wf(),
                Err(e) => decode_array_header(
                    old(de).rest(),
                    old(de).abs(),
                    old(de).sig(),
                    old(de).sp(),
                    old(de).order(),
                ) == Err::<(u32, nat, int), Error>(e) && *final(de) == *old(de),
            },
            final(de).wf(),
    {
        let pos: usize = de.pos;
        let p: usize = match de.parse_padding(4) {
            Err(e) => {
                return Err(e);
            },
            Ok(p) => p,
        };
        let len: usize = match de.next_slice(4) {
            Err(e) => {
                de.pos = pos;
                return Err(e);
            },
            Ok(b) => {
                assert(b@ =~= old(de).rest().subrange(p as int, p + 4));
                read_u32(de.ctxt.byte_order, b) as usize
            },
        };
        assert(de.rest() =~= old(de).rest().skip(p + 4));
        let element_signature = match de.sig_parser.next_signature() {
            Err(e) => {
                de.pos = pos;
                return Err(e);
            },
            Ok(s) => s,
        };
        let element_alignment: usize = alignment_for_signature(&element_signature);
        let element_signature_len: usize = element_signature.len();
        match de.parse_padding(element_alignment) {
            Err(e) => {
                de.pos = pos;
                return Err(e);
            },
            Ok(_) => {},
        }
        if len > de.bytes.len() - de.pos {
            de.pos = pos;
            return Err(Error::InvalidLength);
        }
        let start: usize = de.pos;
        match de.sig_parser.next_char() {
            Ok(c) => if c == DICT_ENTRY_SIG_START_CHAR {
                let skipped = de.sig_parser.skip_char();
            },
            Err(_) => {},
        }
        Ok(ArrayDeserializer { len, start, element_alignment, element_signature_len })
    }

    /// Whether `de` has read all the bytes of the array.
    pub fn done(&self, de: &Deserializer) -> (b: bool)
        ensures
            b == (de.pos == self.start + self.len),
    {
        de.pos >= self.start && de.pos - self.start == self.len
    }

    /// The next step of reading the array. Where all its bytes have been
    /// read, the cursor of `de` steps over `skip` codes and there is no
    /// element. Else the padding in front of the element is skipped, and the
    /// element is to be read from the deserializer returned.
    fn next<'de, 'sig, 'f>(&self, de: &mut Deserializer<'de, 'sig, 'f>, skip: usize) -> (r: Result<
        Option<Deserializer<'de, 'sig, 'f>>,
        Error,
    >)
        requires
            old(de).wf(),
            self.wf(),
        ensures
            match r {
                Ok(None) => old(de).pos == self.start + self.len && old(de).sp() + skip <= old(
                    de,
                ).sig().len() && *final(de) == old(de).moved(0, skip as int),
                Ok(Some(sub)) => old(de).pos != self.start + self.len && decode_padding(
                    old(de).rest(),
                    old(de).abs(),
                    self.element_alignment as int,
                ) == Ok::<int, Error>(final(de).pos - old(de).pos) && *final(de) == old(de).moved(
                    final(de).pos - old(de).pos,
                    0,
                ) && final(de).hands_out(&sub, old(de).sig_parser),
                Err(e) => *final(de) == *old(de) && (if old(de).pos == self.start + self.len {
                    e == Error::IncorrectType && old(de).sp() + skip > old(de).sig().len()
                } else {
                    decode_padding(old(de).rest(), old(de).abs(), self.element_alignment as int)
                        == Err::<int, Error>(e)
                }),
            },
            final(de).wf(),
    {
        if self.done(de) {
            return match de.sig_parser.skip_chars(skip) {
                Err(e) => Err(e),
                Ok(()) => Ok(None),
            };
        }
        match de.parse_padding(self.element_alignment) {
            Err(e) => Err(e),
            Ok(_) => {
                let sub = de.sub_deserializer(de.pos, de.sig_parser);
                Ok(Some(sub))
            },
        }
    }

    /// The next element of an array that is no array of dict entries. Where
    /// all bytes of the array have been read, there is none, and the cursor
    /// of `de` steps over the element's signature. Else the padding in front
    /// of the element is skipped, and the element is to be read from the
    /// deserializer returned, whose cursor is a copy of that of `de`.
    pub fn next_element<'de, 'sig, 'f>(&self, de: &mut Deserializer<'de, 'sig, 'f>) -> (r: Result<
        Option<Deserializer<'de, 'sig, 'f>>,
        Error,
    >)
        requires
            old(de).wf(),
            self.wf(),
        ensures
            match r {
                Ok(None) => old(de).pos == self.start + self.len && old(de).sp()
                    + self.element_signature_len <= old(de).sig().len() && *final(de) == old(
                    de,
                ).moved(0, self.element_signature_len as int),
                Ok(Some(sub)) => old(de).pos != self.start + self.len && decode_padding(
                    old(de).rest(),
                    old(de).abs(),
                    self.element_alignment as int,
                ) == Ok::<int, Error>(final(de).pos - old(de).pos) && *final(de) == old(de).moved(
                    final(de).pos - old(de).pos,
                    0,
                ) && final(de).hands_out(&sub, old(de).sig_parser),
                Err(e) => *final(de) == *old(de) && (if old(de).pos == self.start + self.len {
                    e == Error::IncorrectType && old(de).sp() + self.element_signature_len > old(
                        de,
                    ).sig().len()
                } else {
                    decode_padding(old(de).rest(), old(de).abs(), self.element_alignment as int)
                        == Err::<int, Error>(e)
                }),
            },
            final(de).wf(),
    {
        self.next(de, self.element_signature_len)
    }

    /// The next key of an array of dict entries. Where all bytes of the
    /// array have been read, there is none, and the cursor of `de` steps over
    /// the rest of the entry's signature, whose opening bracket it has
    /// passed already. Else the padding in front of the entry is skipped, and
    /// the key is to be read from the deserializer returned, whose cursor is
    /// a copy of that of `de`.
    pub fn next_key<'de, 'sig, 'f>(&self, de: &mut Deserializer<'de, 'sig, 'f>) -> (r: Result<
        Option<Deserializer<'de, 'sig, 'f>>,
        Error,
    >)
        requires
            old(de).wf(),
            self.wf(),
        ensures
            match r {
                Ok(None) => old(de).pos == self.start + self.len && old(de).sp()
                    + self.element_signature_len - 1 <= old(de).sig().len() && *final(de) == old(
                    de,
                ).moved(0, self.element_signature_len - 1),
                Ok(Some(sub)) => old(de).pos != self.start + self.len && decode_padding(
                    old(de).rest(),
                    old(de).abs(),
                    self.element_alignment as int,
                ) == Ok::<int, Error>(final(de).pos - old(de).pos) && *final(de) == old(de).moved(
                    final(de).pos - old(de).pos,
                    0,
                ) && final(de).hands_out(&sub, old(de).sig_parser),
                Err(e) => *final(de) == *old(de) && (if old(de).pos == self.start + self.len {
                    e == Error::IncorrectType && old(de).sp() + self.element_signature_len - 1
                        > old(de).sig().len()
                } else {
                    decode_padding(old(de).rest(), old(de).abs(), self.element_alignment as int)
                        == Err::<int, Error>(e)
                }),
            },
            final(de).wf(),
    {
        self.next(de, self.element_signature_len - 1)
    }

    /// The value that belongs to the key just read. It is to be read from
    /// the deserializer returned, whose cursor is a copy of that of `de`,
    /// one code further on: the key's signature is always one code.
    pub fn next_value<'de, 'sig, 'f>(&self, de: &Deserializer<'de, 'sig, 'f>) -> (r: Result<
        Deserializer<'de, 'sig, 'f>,
        Error,
    >)
        requires
            de.wf(),
        ensures
            match r {
                Ok(sub) => de.sp() < de.sig().len() && de.hands_out(
                    &sub,
                    de.sig_parser.skipped(1),
                ),
                Err(e) => e == Error::IncorrectType && de.sp() >= de.sig().len(),
            },
    {
        let mut sig_parser = de.sig_parser;
        match sig_parser.skip_char() {
            Err(e) => Err(e),
            Ok(()) => Ok(de.sub_deserializer(de.pos, sig_parser)),
        }
    }

    /// Steps `de` over the `consumed` bytes that the deserializer of an
    /// element, a key or a value has read. Running past the byte length that
    /// the array declares is an `InvalidLength`.
    pub fn advance(&self, de: &mut Deserializer, consumed: usize) -> (r: Result<(), Error>)
        requires
            old(de).wf(),
        ensures
            match r {
                Ok(()) => consumed <= old(de).rest().len() && old(de).pos + consumed <= self.start
                    + self.len && *final(de) == old(de).moved(consumed as int, 0),
                Err(e) => *final(de) == *old(de) && (if consumed > old(de).rest().len() {
                    e == Error::Eof
                } else {
                    e == Error::InvalidLength && old(de).pos + consumed > self.start + self.len
                }),
            },
            final(de).wf(),
    {
        let pos: usize = de.pos;
        match de.consume(consumed) {
            Err(e) => Err(e),
            Ok(()) => if de.pos as u128 > self.start as u128 + self.len as u128 {
                de.pos = pos;
                Err(Error::InvalidLength)
            } else {
                Ok(())
            },
        }
    }
}

/// Access to the fields of a structure. The fields are read from the
/// deserializer itself, one after the other.
#[derive(Clone, Copy, Debug)]
pub struct StructureDeserializer {}

impl StructureDeserializer {
    /// Ends a field: where the cursor of `de` has reached the closing
    /// bracket, it steps over it and the structure is complete.
    pub fn end_element(&self, de: &mut Deserializer) -> (closed: bool)
        requires
            old(de).wf(),
        ensures
            closed == (old(de).sig_parser.peek() == Ok::<u8, Error>(STRUCT_SIG_END_CHAR)),
            *final(de) == (if closed {
                old(de).moved(0, 1)
            } else {
                *old(de)
            }),
            final(de).wf(),
    {
        match de.sig_parser.next_char() {
            Ok(c) => if c == STRUCT_SIG_END_CHAR {
                let skipped = de.sig_parser.skip_char();
                true
            } else {
                false
            },
            Err(_) => false,
        }
    }
}

/// How far a variant has been read.
#[derive(Clone, Copy, Debug, PartialEq, Eq, Structural)]
pub enum ValueParseStage {
    /// Nothing has been read; the signature comes next.
    Signature,
    /// The signature has been read; the value comes next.
    Value,
    /// Signature and value have been read.
    Done,
}

/// What to read next of a variant.
#[derive(Debug)]
pub enum ValueStep<'de, 'f> {
    /// The signature of the value, as a string, from the deserializer
    /// itself.
    Signature,
    /// The value, from this deserializer, whose signature is the one that
    /// the variant carries.
    Value(Deserializer<'de, 'de, 'f>),
    /// Nothing: the variant is complete.
    Done,
}

/// Access to a variant: the signature it carries, then the value.
#[derive(Clone, Copy, Debug)]
pub struct ValueDeserializer {
    /// How far the variant has been read.
    pub stage: ValueParseStage,
    /// The position at which the variant starts.
    pub sig_start: usize,
}

impl ValueDeserializer {
    /// Access to the variant at which `de` stands.
    pub fn new(de: &Deserializer) -> (access: Self)
        ensures
            access.stage == ValueParseStage::Signature,
            access.sig_start == de.pos,
    {
        ValueDeserializer { stage: ValueParseStage::Signature, sig_start: de.pos }
    }

    /// The next step of reading the variant. The signature comes first.
    /// For the value, the signature is read once more from where the variant
    /// starts, and the deserializer returned stands on the first byte behind
    /// it, at the start of that signature, with a context of its own that
    /// keeps the alignment of the value right.
    pub fn next_element<'de, 'sig, 'f>(&mut self, de: &Deserializer<'de, 'sig, 'f>) -> (r: Result<
        ValueStep<'de, 'f>,
        Error,
    >)
        requires
            de.wf(),
        ensures
            final(self).sig_start == old(self).sig_start,
            match old(self).stage {
                ValueParseStage::Signature => r matches Ok(ValueStep::Signature) && final(self).stage == ValueParseStage::Value,
                ValueParseStage::Done => r matches Ok(ValueStep::Done) && final(self).stage
                    == ValueParseStage::Done,
                ValueParseStage::Value => final(self).stage == ValueParseStage::Done && (
                if old(self).sig_start > de.bytes@.len() {
                    r matches Err(Error::Eof)
                } else {
                    match decode_signature(de.bytes@.skip(old(self).sig_start as int)) {
                        Err(e) => r matches Err(e2) && e2 == e,
                        Ok((inner, n)) => r matches Ok(ValueStep::Value(sub)) && sub.bytes@
                            == de.bytes@.skip(old(self).sig_start + n) && sub.pos == 0 && sub.ctxt
                            == (EncodingContext {
                            format: EncodingFormat::DBus,
                            byte_order: de.ctxt.byte_order,
                            position: (de.ctxt.position + old(self).sig_start + n) as u64,
                        }) && sub.sig() == inner && sub.sp() == 0 && sub.fds == de.fds && sub.wf(),
                    }
                }),
            },
    {
        match self.stage {
            ValueParseStage::Signature => {
                self.stage = ValueParseStage::Value;
                Ok(ValueStep::Signature)
            },
            ValueParseStage::Done => Ok(ValueStep::Done),
            ValueParseStage::Value => {
                self.stage = ValueParseStage::Done;
                let bytes: &'de [u8] = de.bytes;
                if self.sig_start >= bytes.len() {
                    return Err(Error::Eof);
                }
                let sig_len: usize = bytes[self.sig_start] as usize;
                // skip length byte
                let sig_start: usize = self.sig_start + 1;
                if sig_len > bytes.len() - sig_start {
                    return Err(Error::InvalidLength);
                }
                if sig_len == bytes.len() - sig_start {
                    return Err(Error::Eof);
                }
                let sig_end: usize = sig_start + sig_len;
                // skip trailing nul byte
                let value_start: usize = sig_end + 1;
                let slice: &'de [u8] = &bytes[sig_start..sig_end];
                assert(slice@ =~= de.bytes@.skip(self.sig_start as int).skip(1).take(
                    sig_len as int,
                ));
                let signature = match Signature::try_from_bytes(slice) {
                    Err(_) => {
                        return Err(Error::IncorrectType);
                    },
                    Ok(s) => s,
                };
                let sig_parser = SignatureParser::new(signature);
                Ok(ValueStep::Value(de.sub_deserializer(value_start, sig_parser)))
            },
        }
    }

    /// Steps `de` over the `consumed` bytes that the deserializer of the
    /// value has read.
    pub fn advance(&self, de: &mut Deserializer, consumed: usize) -> (r: Result<(), Error>)
        requires
            old(de).wf(),
        ensures
            match r {
                Ok(()) => consumed <= old(de).rest().len() && *final(de) == old(de).moved(
                    consumed as int,
                    0,
                ),
                Err(e) => e == Error::Eof && consumed > old(de).rest().len() && *final(de) == *old(
                    de,
                ),
            },
            final(de).wf(),
    {
        de.consume(consumed)
    }
}

/// The container that a request for a sequence has entered.
#[derive(Debug)]
pub enum SeqAccess {
    /// A variant.
    Variant(ValueDeserializer),
    /// An array that is no array of dict entries.
    Array(ArrayDeserializer),
    /// An array of dict entries.
    Dict(ArrayDeserializer),
    /// A structure.
    Structure(StructureDeserializer),
}

impl<'de, 'sig, 'f> Deserializer<'de, 'sig, 'f> {
    /// What entering the container under the cursor takes: the number of
    /// bytes read and the number of codes passed. Nothing is read of a
    /// variant. Of an array, the declared length and the padding in front of
    /// the first element are read, and the cursor passes the `a`, and the
    /// opening bracket of a dict entry. Of a structure, whose signature must
    /// be complete, the padding is read and the cursor passes the opening
    /// bracket.
    pub open spec fn enter_seq(&self) -> Result<(int, int), Error> {
        match self.expect(
            set![VARIANT_SIGNATURE_CHAR, ARRAY_SIGNATURE_CHAR, STRUCT_SIG_START_CHAR],
            EXPECTED_SEQ,
        ) {
            Err(e) => Err(e),
            Ok(c) => if c == VARIANT_SIGNATURE_CHAR {
                Ok((0, 0))
            } else if c == ARRAY_SIGNATURE_CHAR {
                match decode_array_header(
                    self.rest(),
                    self.abs(),
                    self.sig(),
                    self.sp() + 1,
                    self.order(),
                ) {
                    Err(e) => Err(e),
                    Ok((_, _, n)) => Ok(
                        (
                            n,
                            if self.sig()[self.sp() + 1] == DICT_ENTRY_SIG_START_CHAR {
                                2
                            } else {
                                1
                            },
                        ),
                    ),
                }
            } else {
                match complete_type_len(self.sig(), self.sp(), false) {
                    None => Err(Error::IncorrectType),
                    Some(_) => match decode_padding(self.rest(), self.abs(), 8) {
                        Err(e) => Err(e),
                        Ok(p) => Ok((p, 1)),
                    },
                }
            },
        }
    }

    /// Enters the container under the cursor: a variant, for the code `v`, an
    /// array, for `a`, or a structure, for `(`. What is returned gives
    /// access to what the container holds.
    pub fn deserialize_seq(&mut self) -> (r: Result<SeqAccess, Error>)
        requires
            old(self).wf(),
        ensures
            match r {
                Ok(access) => old(self).enter_seq() == Ok::<(int, int), Error>(
                    (final(self).pos - old(self).pos, final(self).sp() - old(self).sp()),
                ) && *final(self) == old(self).moved(
                    final(self).pos - old(self).pos,
                    final(self).sp() - old(self).sp(),
                ) && (match access {
                    SeqAccess::Variant(a) => old(self).sig()[old(self).sp()]
                        == VARIANT_SIGNATURE_CHAR && a.stage == ValueParseStage::Signature
                        && a.sig_start == old(self).pos,
                    SeqAccess::Array(a) => old(self).sig()[old(self).sp()] == ARRAY_SIGNATURE_CHAR
                        && old(self).sig()[old(self).sp() + 1] != DICT_ENTRY_SIG_START_CHAR
                        && old(self).enters(a, final(self).pos as int),
                    SeqAccess::Dict(a) => old(self).sig()[old(self).sp()] == ARRAY_SIGNATURE_CHAR
                        && old(self).sig()[old(self).sp() + 1] == DICT_ENTRY_SIG_START_CHAR
                        && old(self).enters(a, final(self).pos as int),
                    SeqAccess::Structure(_) => old(self).sig()[old(self).sp()]
                        == STRUCT_SIG_START_CHAR,
                }),
                Err(e) => old(self).enter_seq() == Err::<(int, int), Error>(e) && *final(self)
                    == *old(self),
            },
            final(self).wf(),
    {
        let parser = self.sig_parser;
        let c: u8 = match self.sig_parser.next_char() {
            Err(e) => {
                return Err(e);
            },
            Ok(c) => c,
        };
        if c == VARIANT_SIGNATURE_CHAR {
            Ok(SeqAccess::Variant(ValueDeserializer::new(self)))
        } else if c == ARRAY_SIGNATURE_CHAR {
            let skipped = self.sig_parser.skip_char();
            let next_signature_char = self.sig_parser.next_char();
            match ArrayDeserializer::new(self) {
                Err(e) => {
                    self.sig_parser = parser;
                    Err(e)
                },
                Ok(array_de) => match next_signature_char {
                    Ok(n) => if n == DICT_ENTRY_SIG_START_CHAR {
                        Ok(SeqAccess::Dict(array_de))
                    } else {
                        Ok(SeqAccess::Array(array_de))
                    },
                    Err(_) => Ok(SeqAccess::Array(array_de)),
                },
            }
        } else if c == STRUCT_SIG_START_CHAR {
            assert(complete_type_len(self.sig(), self.sp(), true) == complete_type_len(
                self.sig(),
                self.sp(),
                false,
            ));
            match self.sig_parser.next_signature() {
                Err(e) => Err(e),
                Ok(_) => match self.parse_padding(8) {
                    Err(e) => Err(e),
                    Ok(_) => {
                        let skipped = self.sig_parser.skip_char();
                        Ok(SeqAccess::Structure(StructureDeserializer {  }))
                    },
                },
            }
        } else {
            Err(Error::InvalidType(c as char, EXPECTED_SEQ))
        }
    }

    /// Whether `a` gives access to the array under the cursor, whose first
    /// element stands at position `start`.
    pub open spec fn enters(&self, a: ArrayDeserializer, start: int) -> bool {
        &&& decode_array_header(self.rest(), self.abs(), self.sig(), self.sp() + 1, self.order())
            == Ok::<(u32, nat, int), Error>(
            (a.len as u32, a.element_signature_len as nat, start - self.pos),
        )
        &&& a.len <= u32::MAX
        &&& a.start == start
        &&& a.element_alignment == alignment_of_code(self.sig()[self.sp() + 1])
        &&& a.wf()
    }
}

} // verus!
