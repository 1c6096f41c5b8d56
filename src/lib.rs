//! A recursive-descent parser for a small JSON-like format: null, booleans,
//! integers and decimal literals, unescaped quoted strings, arrays and
//! objects. Every production is proved to compute exactly the grammar that
//! `grammar` states, and never to move the cursor when it fails.
pub mod cursor;
pub mod grammar;
pub mod laws;
pub mod parser;
pub mod value;

pub use cursor::Cursor;
pub use grammar::{ErrorKind, ParseError};
pub use parser::{
    parse_array, parse_bool, parse_json, parse_null, parse_num, parse_object, parse_pair,
    parse_string, parse_value,
};
pub use value::{JsonValue, Num};
