//! The expansion of the `hello!` macro.

use vstd::prelude::*;
use vstd::string::*;

verus! {

/// The code that the `hello!` macro expands to, for the text of its input: the
/// macro is the identity, so the text comes back unchanged.
pub fn hello_expansion(input: &str) -> (out: String)
    ensures
        out@ == input@,
{
    String::from_str(input)
}

} // verus!
