//! A cursor over a signature.

use crate::error::Error;
use crate::signature::{complete_type_len, measure_complete_type, Signature};
use vstd::prelude::*;

verus! {

/// A position in a signature. The cursor can look at the code it stands on,
/// step over codes, and cut out the complete type that starts where it
/// stands. It is a plain value: a copy goes its own way.
#[derive(Clone, Copy, Debug)]
pub struct SignatureParser<'a> {
    /// The signature that the cursor walks.
    pub signature: Signature<'a>,
    /// The index of the code on which the cursor stands.
    pub pos: usize,
}

impl<'a> SignatureParser<'a> {
    /// The cursor stands within the signature or directly behind it.
    pub open spec fn wf(&self) -> bool {
        self.pos <= self.signature@.len() <= usize::MAX
    }

    /// The cursor `n` codes further on.
    pub open spec fn skipped(self, n: int) -> SignatureParser<'a> {
        SignatureParser { signature: self.signature, pos: (self.pos + n) as usize }
    }

    /// The code that the cursor stands on, if any.
    pub open spec fn peek(&self) -> Result<u8, Error> {
        if self.pos < self.signature@.len() {
            Ok(self.signature@[self.pos as int])
        } else {
            Err(Error::IncorrectType)
        }
    }

    /// A cursor at the start of `signature`.
    pub fn new(signature: Signature<'a>) -> (parser: Self)
        ensures
            parser.signature == signature,
            parser.pos == 0,
            parser.wf(),
    {
        assert(signature.bytes.len() == signature@.len());
        SignatureParser { signature, pos: 0 }
    }

    /// Whether the cursor has passed the last code.
    pub fn done(&self) -> (b: bool)
        ensures
            b == (self.pos == self.signature@.len()),
    {
        self.pos == self.signature.len()
    }

    /// The code that the cursor stands on; `IncorrectType` where the
    /// signature has ended.
    pub fn next_char(&self) -> (r: Result<u8, Error>)
        ensures
            r == self.peek(),
    {
        if self.pos < self.signature.len() {
            Ok(self.signature.bytes[self.pos])
        } else {
            Err(Error::IncorrectType)
        }
    }

    /// Steps over one code.
    pub fn skip_char(&mut self) -> (r: Result<(), Error>)
        requires
            old(self).wf(),
        ensures
            match r {
                Ok(()) => old(self).pos < old(self).signature@.len() && *final(self) == old(
                    self,
                ).skipped(1),
                Err(e) => e == Error::IncorrectType && old(self).pos == old(self).signature@.len()
                    && *final(self) == *old(self),
            },
            final(self).wf(),
    {
        self.skip_chars(1)
    }

    /// Steps over `n` codes; `IncorrectType`, and no step at all, where
    /// fewer than `n` are left.
    pub fn skip_chars(&mut self, n: usize) -> (r: Result<(), Error>)
        requires
            old(self).wf(),
        ensures
            match r {
                Ok(()) => old(self).pos + n <= old(self).signature@.len() && *final(self) == old(
                    self,
                ).skipped(n as int),
                Err(e) => e == Error::IncorrectType && old(self).pos + n > old(self).signature@.len()
                    && *final(self) == *old(self),
            },
            final(self).wf(),
    {
        if n > self.signature.len() - self.pos {
            return Err(Error::IncorrectType);
        }
        self.pos = self.pos + n;
        Ok(())
    }

    /// The complete type that starts where the cursor stands, a dict entry
    /// included; `IncorrectType` where none starts there. The cursor stays.
    pub fn next_signature(&self) -> (r: Result<Signature<'a>, Error>)
        requires
            self.wf(),
        ensures
            match r {
                Ok(s) => complete_type_len(self.signature@, self.pos as int, true) == Some(
                    s@.len(),
                ) && s@ == self.signature@.subrange(self.pos as int, self.pos + s@.len()) && 1
                    <= s@.len() <= self.signature@.len() - self.pos,
                Err(e) => e == Error::IncorrectType && complete_type_len(
                    self.signature@,
                    self.pos as int,
                    true,
                ) is None,
            },
    {
        match measure_complete_type(self.signature.bytes, self.pos, true) {
            Some(m) => {
                let bytes: &'a [u8] = self.signature.bytes;
                Ok(Signature { bytes: &bytes[self.pos..self.pos + m] })
            },
            None => Err(Error::IncorrectType),
        }
    }
}

/// A copy of a cursor is the same cursor, and stepping the copy on gives a
/// new value: the cursor that was copied still stands where it stood.
pub proof fn lemma_clone_is_independent(parser: SignatureParser, n: int)
    requires
        parser.wf(),
        0 <= n <= parser.signature@.len() - parser.pos,
    ensures
        ({
            let copy = parser;
            let advanced = copy.skipped(n);
            &&& advanced.signature == parser.signature
            &&& advanced.pos == parser.pos + n
            &&& copy.pos == parser.pos
            &&& copy.peek() == parser.peek()
        }),
{
    broadcast use vstd::slice::group_slice_axioms;

    assert(parser.signature.bytes.len() == parser.signature@.len());
}

} // verus!
