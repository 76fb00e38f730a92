//! Exact arbitrary-precision arithmetic over signed decimal integers and
//! rationals, together with a small expression language evaluated to a
//! canonical textual result.

pub mod big_num;
pub mod common;
pub mod digits;
pub mod error;
pub mod frac;
pub mod parser;
pub mod text;

use vstd::prelude::*;

verus! {

use crate::error::EvalError;

/// Evaluates an arithmetic expression to its canonical textual result: the
/// text is tokenized, parsed by the expression grammar and evaluated with
/// exact rational arithmetic, and the value is rendered back as decimal text.
pub fn eval_to_string(input: String) -> (r: Result<String, EvalError>)
    ensures
        crate::parser::eval_to_string_post(input@, r),
{
    crate::parser::eval_to_string(input)
}

} // verus!

