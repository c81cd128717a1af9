//! Decoding of the D-Bus wire format.
//!
//! A D-Bus message body is a byte string whose layout is described by a
//! *signature*: a string of type codes such as `a{sv}` or `(isx)`. The
//! [`Deserializer`] walks a signature in lockstep with the bytes, enforces the
//! alignment and padding rules of the format, and hands out typed values:
//! scalars and strings directly, containers step by step or, with
//! [`Deserializer::deserialize_any`], whole as a [`Value`].
//!
//! What each operation returns is stated over the mathematical model of the
//! format in [`wire`]. The model of the inverse, the encoding, is in
//! [`encode`], and [`laws`] and [`zero_check`] prove what holds between the
//! two: a value is read back from its encoding, reading takes exactly the
//! bytes of the encoding, padding that is not zero is refused wherever it
//! stands, the byte order does not matter, and an array must fill the length
//! it declares.

pub mod access;
pub mod any;
pub mod bounds;
pub mod de;
pub mod encode;
pub mod encoding;
pub mod endian;
pub mod error;
pub mod laws;
pub mod signature;
pub mod signature_parser;
pub mod text;
pub mod value;
pub mod wire;
pub mod zero_check;

pub use access::{ArrayDeserializer, SeqAccess, StructureDeserializer, ValueDeserializer};
pub use de::Deserializer;
pub use encoding::{ByteOrder, EncodingContext, EncodingFormat};
pub use error::Error;
pub use signature::Signature;
pub use signature_parser::SignatureParser;
pub use value::Value;
