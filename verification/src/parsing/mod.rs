//! Generic parser combinator library.
//!
//! A minimal, function-based parser combinator library: every parser is a
//! function from the remaining input to either the rest of the input and a
//! value, or a positioned error.

pub mod error;
pub mod input;

pub use error::ParseError;
pub use input::{error_at, get_position, Input, ParseResult};
pub mod primitives;
pub use primitives::{comment, eof, newline, one_of, tag, take, take_until, take_while, take_while1};
pub mod combinators;
pub use combinators::{alt, context, ignore, many, many1, opt, pair, separated_list, tuple3, value};
