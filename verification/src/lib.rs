use vstd::prelude::*;

pub mod ast;
pub mod check;
pub mod ir;
pub mod lexer;
pub mod lint;
pub mod number;
pub mod ops;
pub mod parser;
pub mod stdlib;
pub mod syntax;
pub mod text;
pub mod types;

verus! {

/// The compiler's version, as its package declares it.
pub fn version() -> (v: &'static str)
    ensures
        v@ == "0.1.0"@,
{
    "0.1.0"
}

} // verus!
