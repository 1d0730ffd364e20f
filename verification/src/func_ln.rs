//! `LN(number)`: the natural logarithm. Of a number that is not positive it is a
//! number error.

use crate::args::{ready, CallArgs, CallModel};
use crate::model::{EvalContext, ValueModel};
use crate::number::Number;
use crate::value::ErrorKind;
use vstd::prelude::*;

verus! {

/// The outcome of the call: the number whose logarithm is the result, or the
/// error that the call results in.
pub open spec fn outcome(m: &ValueModel, call: CallModel) -> Result<Number, ErrorKind> {
    match m.numeric(call.scalar(0)) {
        Ok(n) => if n.units() > 0 {
            Ok(n)
        } else {
            Err(ErrorKind::Num)
        },
        Err(k) => Err(k),
    }
}

/// The number whose logarithm is the result, or the error that the call results in.
pub fn terms<A: CallArgs>(ctx: &EvalContext, args: &A) -> (r: Result<Number, ErrorKind>)
    requires
        ready(args),
    ensures
        r == outcome(&ctx.model, args.call()),
{
    match ctx.model.to_number(&args.eval_scalar(0)) {
        Ok(n) => if n.is_positive() {
            Ok(n)
        } else {
            Err(ErrorKind::Num)
        },
        Err(k) => Err(k),
    }
}

/// The law of the argument: it is handed on exactly where it stands for a number that is
/// positive; another number is a number error.
pub proof fn law_argument_is_in_the_domain(m: &ValueModel, call: CallModel)
    ensures
        outcome(m, call) matches Ok(n) ==> m.numeric(call.scalar(0)) == Ok::<Number, ErrorKind>(n) && n.units() > 0,
        outcome(m, call) matches Err(k) ==> match m.numeric(call.scalar(0)) {
            Ok(n) => k == ErrorKind::Num && (n.units() <= 0),
            Err(e) => k == e,
        },
{
}

} // verus!
