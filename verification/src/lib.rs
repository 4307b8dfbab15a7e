//! A lenient JSON reader: any sequence of characters is turned into a value
//! tree, and whatever cannot be understood is recorded in the tree as an
//! `Invalid` leaf instead of stopping the parse.

pub mod text;
pub mod scan;
pub mod number;
pub mod value;
pub mod token;
pub mod serialize;
pub mod parser;
pub mod laws;

pub use number::JsonNumber;
pub use parser::parse_json;
pub use value::{JsonObject, JsonValue};
