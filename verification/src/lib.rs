//! rmpl: the verified core of a YAML-based monorepo build tool.
//!
//! The crate gathers the tool's own libraries: a parser-combinator library, a
//! small YAML parser built on it, conversion between values and YAML values,
//! token-stream helpers and a minimal syntax tree for code generation, the
//! manifest parser, the workspace resolver, and the decisions of the test and
//! install commands.

pub mod derive;
pub mod hello;
pub mod install;
pub mod manifest;
pub mod mylib;
pub mod parsing;
pub mod quote_lite;
pub mod resolver;
pub mod serduh;
pub mod syn_lite;
pub mod test_runner;
pub mod text;
pub mod yaml;
