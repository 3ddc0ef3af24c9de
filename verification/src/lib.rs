//! Arithmetic expressions: a lexer, a precedence-climbing parser, a canonical
//! formatter and an exact rational evaluator.

pub mod ast;
pub mod divisor;
pub mod errors;
pub mod evaluator;
pub mod formatter;
pub mod lexer;
pub mod numeral;
pub mod parser;
pub mod roundtrip;
pub mod testing;
pub mod tokens;

use vstd::prelude::*;

verus! {

/// The crate version, the one `Cargo.toml` declares.
pub fn version() -> (res: &'static str)
    ensures
        res@ == "0.1.0"@,
{
    "0.1.0"
}

} // verus!
