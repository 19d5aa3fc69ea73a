//! A compact, human-readable notation for structured data, with a decoder and
//! an encoder between its text and an in-memory value.
//!
//! Objects are written in parentheses, arrays in square brackets with `|`
//! between the items; strings are quoted or bare; numbers, booleans, `null`
//! and a fixed-width UTC timestamp complete the notation.

use vstd::prelude::*;

pub mod date;
pub mod decode;
pub mod encode;
pub mod error;
pub mod grammar;
pub mod laws;
pub mod lexis;
pub mod number;
pub mod text;
pub mod value;

pub use date::Date;
pub use decode::{parse, Parser};
pub use encode::{format_key, format_string, format_value};
pub use error::{Error, ErrorKind};
pub use lexis::{is_delimiter, is_whitespace};
pub use number::Number;
pub use value::{Object, Value};

verus! {

/// Encodes `value`: the text that stands for it. Encoding cannot fail.
pub fn stringify(value: &Value) -> (r: String)
    ensures
        r@ == encode::encoded(value@),
        value::well_formed(value@),
{
    format_value(value)
}

} // verus!
