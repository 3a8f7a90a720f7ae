//! Parse error type with position tracking.

use crate::text::{append_decimal, decimal};
use vstd::prelude::*;
use vstd::string::*;

verus! {

/// Error that occurs during parsing; `line` and `column` are 1-indexed.
#[derive(Debug, Clone, PartialEq)]
pub struct ParseError {
    pub message: String,
    pub line: usize,
    pub column: usize,
}

/// The text `"<message> at line <line>, column <column>"`.
pub open spec fn formatted(message: Seq<char>, line: nat, column: nat) -> Seq<char> {
    message + " at line "@ + decimal(line) + ", column "@ + decimal(column)
}

impl ParseError {
    /// Create a new parse error at the given position.
    pub fn new(message: &str, line: usize, column: usize) -> (e: ParseError)
        ensures
            e.message@ == message@,
            e.line == line,
            e.column == column,
    {
        ParseError { message: message.to_string(), line, column }
    }

    /// Create an error with a custom message at line 1, column 1.
    pub fn with_message(message: &str) -> (e: ParseError)
        ensures
            e.message@ == message@,
            e.line == 1,
            e.column == 1,
    {
        ParseError { message: message.to_string(), line: 1, column: 1 }
    }

    /// Format the error with its position.
    pub fn format(&self) -> (s: String)
        ensures
            s@ == formatted(self.message@, self.line as nat, self.column as nat),
    {
        let mut s = String::from_str(self.message.as_str());
        s.append(" at line ");
        append_decimal(&mut s, self.line);
        s.append(", column ");
        append_decimal(&mut s, self.column);
        s
    }

    /// The displayed form of the error: the same text as [`ParseError::format`].
    pub fn to_string(&self) -> (s: String)
        ensures
            s@ == formatted(self.message@, self.line as nat, self.column as nat),
    {
        self.format()
    }
}

} // verus!
