//! A small example library: arithmetic and greetings.

pub mod math;

use vstd::prelude::*;
use vstd::string::*;

verus! {

/// Adds two numbers.
pub fn add(a: i32, b: i32) -> (r: i32)
    requires
        i32::MIN <= a + b <= i32::MAX,
    ensures
        r == a + b,
{
    a + b
}

/// Greets the user: `"Hello, <name>!"`.
pub fn greet(name: &str) -> (r: String)
    ensures
        r@ == "Hello, "@ + name@ + "!"@,
{
    let mut s = String::from_str("Hello, ");
    s.append(name);
    s.append("!");
    s
}

} // verus!
