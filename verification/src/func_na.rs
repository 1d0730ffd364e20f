//! `NA()`: the error for a value that is not available.

use crate::args::CallArgs;
use crate::model::EvalContext;
use crate::value::{ErrorKind, Val, Value};
use vstd::prelude::*;

verus! {

/// Evaluates the call.
pub fn eval<A: CallArgs>(_ctx: &EvalContext, _args: &A) -> (v: Value)
    ensures
        v@ == Val::Error(ErrorKind::Na),
{
    Value::Error(ErrorKind::Na)
}

} // verus!
