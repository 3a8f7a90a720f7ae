//! YAML parser built on the parsing combinator library.
//!
//! Supports scalars (quoted and unquoted strings, integers, floats, booleans,
//! null), blocks of key-value pairs, lists of `-` items, structures nested by
//! indentation, and `#` comments.

pub mod scalar;
pub mod structure;
pub mod nesting;

pub use scalar::{boolean, float, null, number, quoted_string, scalar, unquoted_scalar, Value};
pub use structure::{block, comment, document, indent, key_value, list, list_item, parse, ws};
