//! A parser for a small brace-delimited literal language of nested, ordered
//! tables whose leaves are numbers, strings and booleans.

pub mod grammar;
pub mod laws;
pub mod number;
pub mod text;
pub mod value;

pub use grammar::{parse, string, ParseError};
pub use number::Number;
pub use value::{AccessError, Kind, Table, Value};
