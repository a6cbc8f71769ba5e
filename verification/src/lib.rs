//! A parser for JSON texts.
//!
//! [`Parser`] reads one value after the other from a text, in a single pass from
//! left to right. Module [`grammar`] says for every text what is read from it, and
//! every function of the parser is proved to read just that.

pub mod chars;
pub mod error;
pub mod grammar;
pub mod laws;
pub mod number;
pub mod object;
pub mod parser;
pub mod value;

pub use crate::chars::CharClass;
pub use crate::error::{ParseError, Production};
pub use crate::number::JsonNumber;
pub use crate::object::JsonObject;
pub use crate::parser::Parser;
pub use crate::value::JsonValue;
