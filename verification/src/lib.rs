//! An RFC 8259 JSON parser and serializer.
//!
//! [`parse`] turns JSON text into a [`JsonValue`]; [`to_string`] and
//! [`to_string_pretty`] write a value back as compact or indented text.
pub mod brackets;
pub mod error;
pub mod escapes;
pub mod laws;
pub mod layout;
pub mod lexer;
pub mod number;
pub mod parser;
pub mod positions;
pub mod ser;
pub mod string;
pub mod text;
pub mod value;

pub use error::{ErrorKind, ParseError};
pub use number::Number;
pub use parser::parse;
pub use ser::{to_string, to_string_pretty};
pub use value::JsonValue;
