//! The D-Bus deserializer.

use crate::encoding::{ByteOrder, EncodingContext, EncodingFormat};
use crate::endian::{read_i16, read_i32, read_i64, read_u16, read_u32, read_u64};
use crate::error::Error;
use crate::signature::{
    valid_signature, Signature, BOOL_CODE, BYTE_CODE, DOUBLE_CODE, FD_CODE, INT16_CODE,
    INT32_CODE, INT64_CODE, OBJECT_PATH_CODE, SIGNATURE_CODE, STRING_CODE, UINT16_CODE,
    UINT32_CODE, UINT64_CODE, VARIANT_SIGNATURE_CHAR,
};
use crate::signature_parser::SignatureParser;
use crate::text::{from_utf8, lemma_signature_is_utf8, utf8_error};
use crate::wire::{
    decode_basic, decode_fixed, decode_padding, decode_str, decode_str_body, is_first_nonzero,
    padding_for, SpecValue,
};
use vstd::prelude::*;
use vstd::string::StringSliceAdditionalSpecFns;
use vstd::utf8::valid_utf8;

verus! {

/// What a request for a byte accepts.
pub const EXPECTED_BYTE: &'static str = "`y`";

/// What a request for a boolean accepts.
pub const EXPECTED_BOOL: &'static str = "`b`";

/// What a request for a signed 16-bit integer accepts.
pub const EXPECTED_INT16: &'static str = "`n`";

/// What a request for an unsigned 16-bit integer accepts.
pub const EXPECTED_UINT16: &'static str = "`q`";

/// What a request for a signed 32-bit integer accepts.
pub const EXPECTED_INT32: &'static str = "`i` or `h`";

/// What a request for an unsigned 32-bit integer accepts.
pub const EXPECTED_UINT32: &'static str = "`u`";

/// What a request for a signed 64-bit integer accepts.
pub const EXPECTED_INT64: &'static str = "`x`";

/// What a request for an unsigned 64-bit integer accepts.
pub const EXPECTED_UINT64: &'static str = "`t`";

/// What a request for a double accepts.
pub const EXPECTED_DOUBLE: &'static str = "`d`";

/// What a request for a string accepts.
pub const EXPECTED_STR: &'static str = "`s`, `g`, `o` or `v`";

/// What a request for a sequence accepts.
pub const EXPECTED_SEQ: &'static str = "`v`, `a` or `(`";

/// The D-Bus deserializer: a byte slice, a table of file descriptors, a
/// cursor over the signature, and the position up to which the slice has been
/// read.
#[derive(Debug)]
pub struct Deserializer<'de, 'sig, 'f> {
    /// The byte order, and the absolute offset of the first of the bytes.
    pub ctxt: EncodingContext,
    /// The cursor over the signature, which stands on the type of the value
    /// that is read next.
    pub sig_parser: SignatureParser<'sig>,
    /// The bytes to read from.
    pub bytes: &'de [u8],
    /// The file descriptors that the bytes refer to by index.
    pub fds: Option<&'f [i32]>,
    /// The number of bytes read so far.
    pub pos: usize,
}

impl<'de, 'sig, 'f> Deserializer<'de, 'sig, 'f> {
    /// The position lies within the bytes, the cursor within the signature,
    /// the format is D-Bus, and the absolute offset of every byte fits in 64
    /// bits.
    pub open spec fn wf(&self) -> bool {
        &&& self.pos <= self.bytes@.len() <= usize::MAX
        &&& self.sig_parser.wf()
        &&& self.ctxt.format == EncodingFormat::DBus
        &&& self.ctxt.position + self.bytes@.len() <= u64::MAX
    }

    /// The bytes that have not been read yet.
    pub open spec fn rest(&self) -> Seq<u8> {
        self.bytes@.skip(self.pos as int)
    }

    /// The absolute offset of the next byte.
    pub open spec fn abs(&self) -> int {
        self.ctxt.position + self.pos
    }

    /// The signature that the cursor walks.
    pub open spec fn sig(&self) -> Seq<u8> {
        self.sig_parser.signature@
    }

    /// The index in the signature at which the cursor stands.
    pub open spec fn sp(&self) -> int {
        self.sig_parser.pos as int
    }

    /// The byte order of the context.
    pub open spec fn order(&self) -> ByteOrder {
        self.ctxt.byte_order
    }

    /// The table of file descriptors, if there is one.
    pub open spec fn table(&self) -> Option<Seq<i32>> {
        match self.fds {
            Some(t) => Some(t@),
            None => None,
        }
    }

    /// This deserializer after `n` more bytes and `k` more codes.
    pub open spec fn moved(self, n: int, k: int) -> Self {
        Deserializer {
            ctxt: self.ctxt,
            sig_parser: self.sig_parser.skipped(k),
            bytes: self.bytes,
            fds: self.fds,
            pos: (self.pos + n) as usize,
        }
    }

    /// Whether the code under the cursor is one of `accepted`: the code
    /// itself, `IncorrectType` where the signature has ended, `InvalidType`
    /// with the code found and `expected` for any other code.
    pub open spec fn expect(&self, accepted: Set<u8>, expected: &'static str) -> Result<u8, Error> {
        if self.sp() >= self.sig().len() {
            Err(Error::IncorrectType)
        } else if !accepted.contains(self.sig()[self.sp()]) {
            Err(Error::InvalidType(self.sig()[self.sp()] as char, expected))
        } else {
            Ok(self.sig()[self.sp()])
        }
    }

    /// What a request for a value of a basic type yields, where the request
    /// accepts the codes `accepted`: the value and the number of bytes it
    /// takes.
    pub open spec fn basic(&self, accepted: Set<u8>, expected: &'static str) -> Result<
        (SpecValue, int),
        Error,
    > {
        match self.expect(accepted, expected) {
            Err(e) => Err(e),
            Ok(c) => decode_basic(c, self.rest(), self.abs(), self.order(), self.table()),
        }
    }

    /// What a request for a string yields: its bytes and the number of bytes
    /// read.
    pub open spec fn string(&self) -> Result<(Seq<u8>, int), Error> {
        match self.expect(
            set![STRING_CODE, OBJECT_PATH_CODE, SIGNATURE_CODE, VARIANT_SIGNATURE_CHAR],
            EXPECTED_STR,
        ) {
            Err(e) => Err(e),
            Ok(c) => decode_str(c, self.rest(), self.abs(), self.order()),
        }
    }

    /// Create a Deserializer struct instance.
    pub fn new(
        bytes: &'de [u8],
        fds: Option<&'f [i32]>,
        signature: &Signature<'sig>,
        ctxt: EncodingContext,
    ) -> (de: Self)
        requires
            ctxt.format == EncodingFormat::DBus,
            ctxt.position + bytes@.len() <= u64::MAX,
        ensures
            de.wf(),
            de.ctxt == ctxt,
            de.sig_parser.signature == *signature,
            de.sig_parser.pos == 0,
            de.bytes == bytes,
            de.fds == fds,
            de.pos == 0,
    {
        let sig_parser = SignatureParser::new(*signature);
        assert(bytes@.len() == bytes.len());
        Deserializer { ctxt, sig_parser, bytes, fds, pos: 0 }
    }

    /// Skips the padding in front of a field aligned to `alignment`. Every
    /// padding byte must be there and be zero.
    pub fn parse_padding(&mut self, alignment: usize) -> (r: Result<usize, Error>)
        requires
            old(self).wf(),
            alignment > 0,
        ensures
            match r {
                Ok(p) => decode_padding(old(self).rest(), old(self).abs(), alignment as int) == Ok::<
                    int,
                    Error,
                >(p as int) && *final(self) == old(self).moved(p as int, 0),
                Err(e) => decode_padding(old(self).rest(), old(self).abs(), alignment as int)
                    == Err::<int, Error>(e) && *final(self) == *old(self),
            },
            final(self).wf(),
    {
        let abs: u64 = self.ctxt.position + self.pos as u64;
        let align: u64 = alignment as u64;
        let need: usize = ((align - abs % align) % align) as usize;
        let ghost s = self.rest();
        let mut i: usize = 0;
        while i < need
            invariant
                self.wf(),
                *self == *old(self),
                s == self.rest(),
                i <= need,
                i <= s.len(),
                need == padding_for(self.abs(), alignment as int),
                forall|j: int| 0 <= j < i ==> s[j] == 0,
            decreases need - i,
        {
            if i >= self.bytes.len() - self.pos {
                proof {
                    assert forall|k: int| !is_first_nonzero(s, need as int, k) by {}
                }
                return Err(Error::Eof);
            }
            let b: u8 = self.bytes[self.pos + i];
            if b != 0 {
                proof {
                    assert(is_first_nonzero(s, need as int, i as int));
                    let k = choose|k: int| is_first_nonzero(s, need as int, k);
                    assert(k == i);
                }
                return Err(Error::PaddingNot0(b));
            }
            i = i + 1;
        }
        proof {
            assert forall|k: int| !is_first_nonzero(s, need as int, k) by {}
        }
        self.pos = self.pos + need;
        Ok(need)
    }

    /// The next `len` bytes; `Eof` where fewer are left.
    pub fn next_slice(&mut self, len: usize) -> (r: Result<&'de [u8], Error>)
        requires
            old(self).wf(),
        ensures
            match r {
                Ok(b) => len <= old(self).rest().len() && b@ == old(self).rest().take(len as int)
                    && *final(self) == old(self).moved(len as int, 0),
                Err(e) => e == Error::Eof && len > old(self).rest().len() && *final(self) == *old(
                    self,
                ),
            },
            final(self).wf(),
    {
        if len > self.bytes.len() - self.pos {
            return Err(Error::Eof);
        }
        let bytes: &'de [u8] = self.bytes;
        let slice = &bytes[self.pos..self.pos + len];
        self.pos = self.pos + len;
        assert(slice@ =~= old(self).rest().take(len as int));
        Ok(slice)
    }

    /// The file descriptor that the table holds at index `idx`;
    /// `UnknownFd` where there is no table or no such index.
    pub fn get_fd(&self, idx: u32) -> (r: Result<i32, Error>)
        ensures
            r == (match self.table() {
                Some(t) => if idx < t.len() {
                    Ok(t[idx as int])
                } else {
                    Err(Error::UnknownFd)
                },
                None => Err(Error::UnknownFd),
            }),
    {
        match self.fds {
            Some(t) => if (idx as usize) < t.len() {
                Ok(t[idx as usize])
            } else {
                Err(Error::UnknownFd)
            },
            None => Err(Error::UnknownFd),
        }
    }

    /// Checks that the cursor stands on `code`.
    fn expect_code(&self, code: u8, expected: &'static str) -> (r: Result<(), Error>)
        ensures
            match r {
                Ok(()) => self.expect(set![code], expected) == Ok::<u8, Error>(code),
                Err(e) => self.expect(set![code], expected) == Err::<u8, Error>(e),
            },
    {
        match self.sig_parser.next_char() {
            Err(e) => Err(e),
            Ok(c) => if c == code {
                Ok(())
            } else {
                Err(Error::InvalidType(c as char, expected))
            },
        }
    }

    /// The bytes of a field of `size` bytes that is aligned to its size,
    /// where the cursor stands on a code that has been checked already. The
    /// cursor steps over that code.
    fn next_const_size_slice(&mut self, size: usize) -> (r: Result<&'de [u8], Error>)
        requires
            old(self).wf(),
            old(self).sp() < old(self).sig().len(),
            size > 0,
        ensures
            match r {
                Ok(b) => decode_fixed(old(self).rest(), old(self).abs(), size as int) == Ok::<
                    (Seq<u8>, int),
                    Error,
                >((b@, final(self).pos - old(self).pos)) && *final(self) == old(self).moved(
                    final(self).pos - old(self).pos,
                    1,
                ) && b@.len() == size,
                Err(e) => decode_fixed(old(self).rest(), old(self).abs(), size as int) == Err::<
                    (Seq<u8>, int),
                    Error,
                >(e) && *final(self) == *old(self),
            },
            final(self).wf(),
    {
        let start: usize = self.pos;
        match self.parse_padding(size) {
            Err(e) => Err(e),
            Ok(p) => match self.next_slice(size) {
                Err(e) => {
                    self.pos = start;
                    Err(e)
                },
                Ok(b) => {
                    let skipped = self.sig_parser.skip_char();
                    assert(b@ =~= old(self).rest().subrange(p as int, p + size));
                    Ok(b)
                },
            },
        }
    }

    /// The bytes of the fixed-size field that the code `code` announces: the
    /// cursor must stand on `code`, the field is aligned to its size, and
    /// the cursor steps over the code.
    fn fixed(&mut self, code: u8, expected: &'static str, size: usize) -> (r: Result<
        &'de [u8],
        Error,
    >)
        requires
            old(self).wf(),
            size > 0,
        ensures
            match r {
                Ok(b) => old(self).expect(set![code], expected) == Ok::<u8, Error>(code)
                    && decode_fixed(old(self).rest(), old(self).abs(), size as int) == Ok::<
                    (Seq<u8>, int),
                    Error,
                >((b@, final(self).pos - old(self).pos)) && *final(self) == old(self).moved(
                    final(self).pos - old(self).pos,
                    1,
                ) && b@.len() == size,
                Err(e) => *final(self) == *old(self) && (old(self).expect(set![code], expected)
                    == Err::<u8, Error>(e) || (old(self).expect(set![code], expected) == Ok::<
                    u8,
                    Error,
                >(code) && decode_fixed(old(self).rest(), old(self).abs(), size as int) == Err::<
                    (Seq<u8>, int),
                    Error,
                >(e))),
            },
            final(self).wf(),
    {
        match self.expect_code(code, expected) {
            Err(e) => Err(e),
            Ok(()) => self.next_const_size_slice(size),
        }
    }

    /// A byte, for the code `y`.
    pub fn deserialize_u8(&mut self) -> (r: Result<u8, Error>)
        requires
            old(self).wf(),
        ensures
            match r {
                Ok(v) => old(self).basic(set![BYTE_CODE], EXPECTED_BYTE) == Ok::<(SpecValue, int), Error>(
                    (SpecValue::U8(v), final(self).pos - old(self).pos),
                ) && *final(self) == old(self).moved(final(self).pos - old(self).pos, 1),
                Err(e) => old(self).basic(set![BYTE_CODE], EXPECTED_BYTE) == Err::<
                    (SpecValue, int),
                    Error,
                >(e) && *final(self) == *old(self),
            },
            final(self).wf(),
    {
        match self.fixed(BYTE_CODE, EXPECTED_BYTE, 1) {
            Err(e) => Err(e),
            Ok(b) => Ok(b[0]),
        }
    }

    /// A boolean, for the code `b`: an unsigned 32-bit integer that is 0 or
    /// 1. Any other number is an `InvalidValue`.
    pub fn deserialize_bool(&mut self) -> (r: Result<bool, Error>)
        requires
            old(self).wf(),
        ensures
            match r {
                Ok(v) => old(self).basic(set![BOOL_CODE], EXPECTED_BOOL) == Ok::<
                    (SpecValue, int),
                    Error,
                >((SpecValue::Bool(v), final(self).pos - old(self).pos)) && *final(self) == old(
                    self,
                ).moved(final(self).pos - old(self).pos, 1),
                Err(e) => old(self).basic(set![BOOL_CODE], EXPECTED_BOOL) == Err::<
                    (SpecValue, int),
                    Error,
                >(e) && *final(self) == *old(self),
            },
            final(self).wf(),
    {
        let pos: usize = self.pos;
        let parser = self.sig_parser;
        match self.fixed(BOOL_CODE, EXPECTED_BOOL, 4) {
            Err(e) => Err(e),
            Ok(b) => {
                let v: u32 = read_u32(self.ctxt.byte_order, b);
                if v == 1 {
                    Ok(true)
                } else if v == 0 {
                    Ok(false)
                } else {
                    self.pos = pos;
                    self.sig_parser = parser;
                    Err(Error::InvalidValue)
                }
            },
        }
    }

    /// A signed 8-bit integer. The format has none: the value travels as a
    /// signed 16-bit integer, for the code `n`.
    pub fn deserialize_i8(&mut self) -> (r: Result<i16, Error>)
        requires
            old(self).wf(),
        ensures
            match r {
                Ok(v) => old(self).basic(set![INT16_CODE], EXPECTED_INT16) == Ok::<
                    (SpecValue, int),
                    Error,
                >((SpecValue::I16(v), final(self).pos - old(self).pos)) && *final(self) == old(
                    self,
                ).moved(final(self).pos - old(self).pos, 1),
                Err(e) => old(self).basic(set![INT16_CODE], EXPECTED_INT16) == Err::<
                    (SpecValue, int),
                    Error,
                >(e) && *final(self) == *old(self),
            },
            final(self).wf(),
    {
        self.deserialize_i16()
    }

    /// A signed 16-bit integer, for the code `n`.
    pub fn deserialize_i16(&mut self) -> (r: Result<i16, Error>)
        requires
            old(self).wf(),
        ensures
            match r {
                Ok(v) => old(self).basic(set![INT16_CODE], EXPECTED_INT16) == Ok::<(SpecValue, int), Error>(
                    (SpecValue::I16(v), final(self).pos - old(self).pos),
                ) && *final(self) == old(self).moved(final(self).pos - old(self).pos, 1),
                Err(e) => old(self).basic(set![INT16_CODE], EXPECTED_INT16) == Err::<
                    (SpecValue, int),
                    Error,
                >(e) && *final(self) == *old(self),
            },
            final(self).wf(),
    {
        match self.fixed(INT16_CODE, EXPECTED_INT16, 2) {
            Err(e) => Err(e),
            Ok(b) => Ok(read_i16(self.ctxt.byte_order, b)),
        }
    }

    /// An unsigned 16-bit integer, for the code `q`.
    pub fn deserialize_u16(&mut self) -> (r: Result<u16, Error>)
        requires
            old(self).wf(),
        ensures
            match r {
                Ok(v) => old(self).basic(set![UINT16_CODE], EXPECTED_UINT16) == Ok::<(SpecValue, int), Error>(
                    (SpecValue::U16(v), final(self).pos - old(self).pos),
                ) && *final(self) == old(self).moved(final(self).pos - old(self).pos, 1),
                Err(e) => old(self).basic(set![UINT16_CODE], EXPECTED_UINT16) == Err::<
                    (SpecValue, int),
                    Error,
                >(e) && *final(self) == *old(self),
            },
            final(self).wf(),
    {
        match self.fixed(UINT16_CODE, EXPECTED_UINT16, 2) {
            Err(e) => Err(e),
            Ok(b) => Ok(read_u16(self.ctxt.byte_order, b)),
        }
    }

    /// An unsigned 32-bit integer, for the code `u`.
    pub fn deserialize_u32(&mut self) -> (r: Result<u32, Error>)
        requires
            old(self).wf(),
        ensures
            match r {
                Ok(v) => old(self).basic(set![UINT32_CODE], EXPECTED_UINT32) == Ok::<(SpecValue, int), Error>(
                    (SpecValue::U32(v), final(self).pos - old(self).pos),
                ) && *final(self) == old(self).moved(final(self).pos - old(self).pos, 1),
                Err(e) => old(self).basic(set![UINT32_CODE], EXPECTED_UINT32) == Err::<
                    (SpecValue, int),
                    Error,
                >(e) && *final(self) == *old(self),
            },
            final(self).wf(),
    {
        match self.fixed(UINT32_CODE, EXPECTED_UINT32, 4) {
            Err(e) => Err(e),
            Ok(b) => Ok(read_u32(self.ctxt.byte_order, b)),
        }
    }

    /// A signed 64-bit integer, for the code `x`.
    pub fn deserialize_i64(&mut self) -> (r: Result<i64, Error>)
        requires
            old(self).wf(),
        ensures
            match r {
                Ok(v) => old(self).basic(set![INT64_CODE], EXPECTED_INT64) == Ok::<(SpecValue, int), Error>(
                    (SpecValue::I64(v), final(self).pos - old(self).pos),
                ) && *final(self) == old(self).moved(final(self).pos - old(self).pos, 1),
                Err(e) => old(self).basic(set![INT64_CODE], EXPECTED_INT64) == Err::<
                    (SpecValue, int),
                    Error,
                >(e) && *final(self) == *old(self),
            },
            final(self).wf(),
    {
        match self.fixed(INT64_CODE, EXPECTED_INT64, 8) {
            Err(e) => Err(e),
            Ok(b) => Ok(read_i64(self.ctxt.byte_order, b)),
        }
    }

    /// An unsigned 64-bit integer, for the code `t`.
    pub fn deserialize_u64(&mut self) -> (r: Result<u64, Error>)
        requires
            old(self).wf(),
        ensures
            match r {
                Ok(v) => old(self).basic(set![UINT64_CODE], EXPECTED_UINT64) == Ok::<(SpecValue, int), Error>(
                    (SpecValue::U64(v), final(self).pos - old(self).pos),
                ) && *final(self) == old(self).moved(final(self).pos - old(self).pos, 1),
                Err(e) => old(self).basic(set![UINT64_CODE], EXPECTED_UINT64) == Err::<
                    (SpecValue, int),
                    Error,
                >(e) && *final(self) == *old(self),
            },
            final(self).wf(),
    {
        match self.fixed(UINT64_CODE, EXPECTED_UINT64, 8) {
            Err(e) => Err(e),
            Ok(b) => Ok(read_u64(self.ctxt.byte_order, b)),
        }
    }

    /// A double, for the code `d`, as its IEEE 754 bit pattern.
    pub fn deserialize_f64(&mut self) -> (r: Result<u64, Error>)
        requires
            old(self).wf(),
        ensures
            match r {
                Ok(v) => old(self).basic(set![DOUBLE_CODE], EXPECTED_DOUBLE) == Ok::<(SpecValue, int), Error>(
                    (SpecValue::F64(v), final(self).pos - old(self).pos),
                ) && *final(self) == old(self).moved(final(self).pos - old(self).pos, 1),
                Err(e) => old(self).basic(set![DOUBLE_CODE], EXPECTED_DOUBLE) == Err::<
                    (SpecValue, int),
                    Error,
                >(e) && *final(self) == *old(self),
            },
            final(self).wf(),
    {
        match self.fixed(DOUBLE_CODE, EXPECTED_DOUBLE, 8) {
            Err(e) => Err(e),
            Ok(b) => Ok(read_u64(self.ctxt.byte_order, b)),
        }
    }

    /// A signed 32-bit integer, for the code `i`, or a file descriptor, for
    /// the code `h`. A file descriptor travels as an unsigned 32-bit index
    /// into the table; what is returned is the descriptor found there.
    pub fn deserialize_i32(&mut self) -> (r: Result<i32, Error>)
        requires
            old(self).wf(),
        ensures
            match r {
                Ok(v) => old(self).basic(set![INT32_CODE, FD_CODE], EXPECTED_INT32) == Ok::<
                    (SpecValue, int),
                    Error,
                >(
                    (
                        if old(self).sig()[old(self).sp()] == FD_CODE {
                            SpecValue::Fd(v)
                        } else {
                            SpecValue::I32(v)
                        },
                        final(self).pos - old(self).pos,
                    ),
                ) && *final(self) == old(self).moved(final(self).pos - old(self).pos, 1),
                Err(e) => old(self).basic(set![INT32_CODE, FD_CODE], EXPECTED_INT32) == Err::<
                    (SpecValue, int),
                    Error,
                >(e) && *final(self) == *old(self),
            },
            final(self).wf(),
    {
        let pos: usize = self.pos;
        let parser = self.sig_parser;
        match self.sig_parser.next_char() {
            Err(e) => Err(e),
            Ok(c) => if c == FD_CODE {
                match self.fixed(FD_CODE, EXPECTED_INT32, 4) {
                    Err(e) => Err(e),
                    Ok(b) => {
                        let idx: u32 = read_u32(self.ctxt.byte_order, b);
                        match self.get_fd(idx) {
                            Ok(fd) => Ok(fd),
                            Err(e) => {
                                self.pos = pos;
                                self.sig_parser = parser;
                                Err(e)
                            },
                        }
                    },
                }
            } else {
                match self.fixed(INT32_CODE, EXPECTED_INT32, 4) {
                    Err(e) => Err(e),
                    Ok(b) => Ok(read_i32(self.ctxt.byte_order, b)),
                }
            },
        }
    }

    /// The bytes of a string of `len` bytes, and the byte behind them.
    fn str_body(&mut self, len: usize) -> (r: Result<&'de [u8], Error>)
        requires
            old(self).wf(),
        ensures
            match r {
                Ok(b) => decode_str_body(old(self).rest(), len as int) == Ok::<
                    (Seq<u8>, int),
                    Error,
                >((b@, len + 1)) && *final(self) == old(self).moved(len + 1, 0),
                Err(e) => decode_str_body(old(self).rest(), len as int) == Err::<
                    (Seq<u8>, int),
                    Error,
                >(e) && *final(self) == *old(self),
            },
            final(self).wf(),
    {
        let pos: usize = self.pos;
        match self.next_slice(len) {
            Err(_) => Err(Error::InvalidLength),
            Ok(b) => match self.next_slice(1) {
                Err(e) => {
                    self.pos = pos;
                    Err(e)
                },
                Ok(_) => Ok(b),
            },
        }
    }

    /// The length prefix of the string that the code `c` announces: one byte
    /// for a signature, a 32-bit integer aligned to 4 for a string.
    fn str_len(&mut self, c: u8) -> (r: Result<usize, Error>)
        requires
            old(self).wf(),
        ensures
            match r {
                Ok(len) => final(self).rest() == old(self).rest().skip(
                    final(self).pos - old(self).pos,
                ) && *final(self) == old(self).moved(final(self).pos - old(self).pos, 0) && (if c
                    == SIGNATURE_CODE || c == VARIANT_SIGNATURE_CHAR {
                    old(self).rest().len() >= 1 && len == old(self).rest()[0] && final(self).pos
                        == old(self).pos + 1
                } else {
                    decode_fixed(old(self).rest(), old(self).abs(), 4) matches Ok((b, n)) && len
                        == crate::endian::u32_at(old(self).order(), b) && n == final(self).pos
                        - old(self).pos
                }),
                Err(e) => *final(self) == *old(self) && (if c == SIGNATURE_CODE || c
                    == VARIANT_SIGNATURE_CHAR {
                    old(self).rest().len() < 1 && e == Error::Eof
                } else {
                    decode_fixed(old(self).rest(), old(self).abs(), 4) == Err::<
                        (Seq<u8>, int),
                        Error,
                    >(e)
                }),
            },
            final(self).wf(),
    {
        let pos: usize = self.pos;
        if c == SIGNATURE_CODE || c == VARIANT_SIGNATURE_CHAR {
            match self.next_slice(1) {
                Err(e) => Err(e),
                Ok(b) => {
                    assert(self.rest() =~= old(self).rest().skip(1));
                    Ok(b[0] as usize)
                },
            }
        } else {
            match self.parse_padding(4) {
                Err(e) => Err(e),
                Ok(p) => match self.next_slice(4) {
                    Err(e) => {
                        self.pos = pos;
                        Err(e)
                    },
                    Ok(b) => {
                        assert(b@ =~= old(self).rest().subrange(p as int, p + 4));
                        assert(self.rest() =~= old(self).rest().skip(p + 4));
                        Ok(read_u32(self.ctxt.byte_order, b) as usize)
                    },
                },
            }
        }
    }

    /// The string that `slice` holds: a well-formed signature where one is
    /// asked for, UTF-8 else.
    fn checked_str(slice: &'de [u8], is_signature: bool) -> (r: Result<&'de str, Error>)
        ensures
            match r {
                Ok(v) => v.spec_bytes() == slice@ && valid_utf8(slice@) && (is_signature
                    ==> valid_signature(slice@)),
                Err(e) => if is_signature {
                    !valid_signature(slice@) && e == Error::IncorrectType
                } else {
                    !valid_utf8(slice@) && e == Error::Utf8(utf8_error(slice@))
                },
            },
    {
        if is_signature {
            match Signature::try_from_bytes(slice) {
                Err(_) => {
                    return Err(Error::IncorrectType);
                },
                Ok(_) => {
                    proof {
                        lemma_signature_is_utf8(slice@);
                    }
                },
            }
        }
        match from_utf8(slice) {
            Err(e) => Err(Error::Utf8(e)),
            Ok(v) => Ok(v),
        }
    }

    /// A string, for the codes `s` and `o`, or a signature, for the code `g`
    /// and for the signature at the start of a variant, `v`. A string is a
    /// 32-bit length aligned to 4 and that many bytes of UTF-8; a signature
    /// is a length of one byte and that many bytes that form a well-formed
    /// signature. One more byte follows either, and is not looked at. A
    /// length that is more than the bytes that are left is an
    /// `InvalidLength`.
    #[verifier::rlimit(50)]
    pub fn deserialize_str(&mut self) -> (r: Result<&'de str, Error>)
        requires
            old(self).wf(),
        ensures
            match r {
                Ok(v) => old(self).string() == Ok::<(Seq<u8>, int), Error>(
                    (v.spec_bytes(), final(self).pos - old(self).pos),
                ) && *final(self) == old(self).moved(final(self).pos - old(self).pos, 1),
                Err(e) => old(self).string() == Err::<(Seq<u8>, int), Error>(e) && *final(self)
                    == *old(self),
            },
            final(self).wf(),
    {
        let pos: usize = self.pos;
        let c: u8 = match self.sig_parser.next_char() {
            Err(e) => {
                return Err(e);
            },
            Ok(c) => c,
        };
        let is_signature: bool = c == SIGNATURE_CODE || c == VARIANT_SIGNATURE_CHAR;
        if !is_signature && c != STRING_CODE && c != OBJECT_PATH_CODE {
            return Err(Error::InvalidType(c as char, EXPECTED_STR));
        }
        assert(self.expect(
            set![STRING_CODE, OBJECT_PATH_CODE, SIGNATURE_CODE, VARIANT_SIGNATURE_CHAR],
            EXPECTED_STR,
        ) == Ok::<u8, Error>(c));
        let len: usize = match self.str_len(c) {
            Err(e) => {
                return Err(e);
            },
            Ok(len) => len,
        };
        let slice: &'de [u8] = match self.str_body(len) {
            Err(e) => {
                self.pos = pos;
                return Err(e);
            },
            Ok(b) => b,
        };
        match Self::checked_str(slice, is_signature) {
            Err(e) => {
                self.pos = pos;
                Err(e)
            },
            Ok(v) => {
                let skipped = self.sig_parser.skip_char();
                Ok(v)
            },
        }
    }

    /// An enum's variant index: an unsigned 32-bit integer aligned to 4. It
    /// is no part of the signature, so the cursor stays.
    pub fn deserialize_identifier(&mut self) -> (r: Result<u32, Error>)
        requires
            old(self).wf(),
        ensures
            match r {
                Ok(v) => decode_fixed(old(self).rest(), old(self).abs(), 4) matches Ok((b, n))
                    && v == crate::endian::u32_at(old(self).order(), b) && *final(self) == old(
                    self,
                ).moved(n, 0),
                Err(e) => decode_fixed(old(self).rest(), old(self).abs(), 4) == Err::<
                    (Seq<u8>, int),
                    Error,
                >(e) && *final(self) == *old(self),
            },
            final(self).wf(),
    {
        let pos: usize = self.pos;
        match self.parse_padding(4) {
            Err(e) => Err(e),
            Ok(p) => match self.next_slice(4) {
                Err(e) => {
                    self.pos = pos;
                    Err(e)
                },
                Ok(b) => {
                    assert(b@ =~= old(self).rest().subrange(p as int, p + 4));
                    Ok(read_u32(self.ctxt.byte_order, b))
                },
            },
        }
    }

    /// A unit: nothing is read.
    pub fn deserialize_unit(&mut self) -> (r: Result<(), Error>)
        ensures
            r == Ok::<(), Error>(()),
            *final(self) == *old(self),
    {
        Ok(())
    }

    /// An optional value. The format has no way to say that a value is
    /// absent, so the request is refused with `IncorrectType`.
    pub fn deserialize_option(&mut self) -> (r: Result<(), Error>)
        ensures
            r == Err::<(), Error>(Error::IncorrectType),
            *final(self) == *old(self),
    {
        Err(Error::IncorrectType)
    }
}

} // verus!
