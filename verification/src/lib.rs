//! A streaming JSON codec: a lookahead-driven pull parser and a streaming
//! writer over a type-directed data model, with their behaviour stated in
//! contracts and proved.
//!
//! - [`de`] holds the pull parser, [`ser`] the writer, [`parse`] the escape
//!   codec, [`error`] the failures, [`value`] the values and the shapes.
//! - [`grammar`] says what each entry point of the parser reads from a
//!   stream, [`render`] and [`document`] say what the writer puts out and
//!   what a shape reads from a whole document.
//! - [`laws`] states what holds of writing and reading together;
//!   [`roundtrip`], [`tokens`], [`strings`] and [`whitespace`] hold the
//!   proofs.
//! - [`number`] and [`text`] hold decimal digits, UTF-8 and what is taken
//!   for granted of the integer formatter and of the standard library.

pub mod de;
pub mod document;
pub mod error;
pub mod grammar;
pub mod laws;
pub mod number;
pub mod parse;
pub mod render;
pub mod roundtrip;
pub mod ser;
pub mod strings;
pub mod text;
pub mod tokens;
pub mod value;
pub mod whitespace;

pub use de::{from_bytes, from_str, CommaSeparated, Deserializer, EnumHead, Number, Token};
pub use error::{Error, ErrorView, IoKind};
pub use ser::{to_bytes, to_string, KeySerializer, Serializer};
pub use value::{Shape, Value};
