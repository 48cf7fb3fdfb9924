use vstd::prelude::*;

pub mod bits;
pub mod qasm;
pub mod qasm_parser;
pub mod structures;

verus! {

/// A greeting.
pub fn my_function() -> (r: String)
    ensures
        r@ == "Hello"@,
{
    String::from_str("Hello")
}

} // verus!
