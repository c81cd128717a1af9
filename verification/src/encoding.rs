//! The encoding context: dialect, byte order and absolute position.

use vstd::prelude::*;

verus! {

/// The dialect of the wire format.
#[derive(Clone, Copy, Debug, PartialEq, Eq, Structural)]
pub enum EncodingFormat {
    /// The classic D-Bus wire format.
    DBus,
    /// The GVariant format.
    GVariant,
}

/// The order of the bytes of a multi-byte scalar.
#[derive(Clone, Copy, Debug, PartialEq, Eq, Structural)]
pub enum ByteOrder {
    /// Least significant byte first.
    LittleEndian,
    /// Most significant byte first.
    BigEndian,
}

/// What a decoder has to know about the data around the bytes it is given.
///
/// `position` is the absolute offset, in the whole stream, of the first byte
/// of the slice being decoded. Alignment is computed from it.
#[derive(Clone, Copy, Debug, PartialEq, Eq, Structural)]
pub struct EncodingContext {
    /// The dialect.
    pub format: EncodingFormat,
    /// The byte order of multi-byte scalars.
    pub byte_order: ByteOrder,
    /// The absolute offset of the first byte of the slice.
    pub position: u64,
}

impl ByteOrder {
    /// The other byte order.
    pub open spec fn swapped(self) -> ByteOrder {
        match self {
            ByteOrder::LittleEndian => ByteOrder::BigEndian,
            ByteOrder::BigEndian => ByteOrder::LittleEndian,
        }
    }
}

impl EncodingContext {
    /// A context for the given dialect, byte order and position.
    pub fn new(format: EncodingFormat, byte_order: ByteOrder, position: u64) -> (ctxt: Self)
        ensures
            ctxt == (EncodingContext { format, byte_order, position }),
    {
        EncodingContext { format, byte_order, position }
    }

    /// A context for the D-Bus format.
    pub fn new_dbus(byte_order: ByteOrder, position: u64) -> (ctxt: Self)
        ensures
            ctxt == (EncodingContext { format: EncodingFormat::DBus, byte_order, position }),
    {
        Self::new(EncodingFormat::DBus, byte_order, position)
    }

    /// A context for the GVariant format.
    pub fn new_gvariant(byte_order: ByteOrder, position: u64) -> (ctxt: Self)
        ensures
            ctxt == (EncodingContext { format: EncodingFormat::GVariant, byte_order, position }),
    {
        Self::new(EncodingFormat::GVariant, byte_order, position)
    }

    /// The dialect.
    pub fn format(&self) -> (format: EncodingFormat)
        ensures
            format == self.format,
    {
        self.format
    }

    /// The byte order.
    pub fn byte_order(&self) -> (byte_order: ByteOrder)
        ensures
            byte_order == self.byte_order,
    {
        self.byte_order
    }

    /// The absolute offset of the first byte of the slice.
    pub fn position(&self) -> (position: u64)
        ensures
            position == self.position,
    {
        self.position
    }
}

} // verus!
