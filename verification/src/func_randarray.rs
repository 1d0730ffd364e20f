//! `RANDARRAY(...)`: an array of random numbers.
//!
//! Draws must follow from a seed, and no generator with one is attached, so the
//! call is refused as a single draw is.

use crate::args::CallArgs;
use crate::model::EvalContext;
use crate::value::{ErrorKind, Val, Value};
use vstd::prelude::*;

verus! {

/// Evaluates the call.
pub fn eval<A: CallArgs>(ctx: &EvalContext, _args: &A) -> (v: Value)
    ensures
        v@ == Val::Error(ErrorKind::Unsupported),
{
    match ctx.rand() {
        Err(k) => Value::Error(k),
        Ok(_) => Value::Error(ErrorKind::Unsupported),
    }
}

} // verus!
