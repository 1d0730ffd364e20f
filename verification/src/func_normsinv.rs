//! `NORMSINV(probability)`: the inverse of the standard normal distribution.
//!
//! A probability that is not between zero and one, both left out, is a number error.

use crate::args::{ready, CallArgs, CallModel};
use crate::model::{EvalContext, ValueModel};
use crate::number::{one, Number};
use crate::value::ErrorKind;
use vstd::prelude::*;

verus! {

/// The probability that the distribution reaches: one between zero and one.
pub open spec fn reached(p: Number) -> bool {
    0 < p.units() < one()
}

/// The outcome of the call: the probability whose quantile is the result, or the
/// error that the call results in.
pub open spec fn outcome(m: &ValueModel, call: CallModel) -> Result<Number, ErrorKind> {
    match m.numeric(call.scalar(0)) {
        Ok(p) => if reached(p) {
            Ok(p)
        } else {
            Err(ErrorKind::Num)
        },
        Err(k) => Err(k),
    }
}

/// Whether the probability is between zero and one.
pub fn is_reached(p: Number) -> (b: bool)
    ensures
        b == reached(p),
{
    p.is_positive() && p.lt(Number::one())
}

/// The probability whose quantile is the result, or the error that the call results in.
pub fn terms<A: CallArgs>(ctx: &EvalContext, args: &A) -> (r: Result<Number, ErrorKind>)
    requires
        ready(args),
    ensures
        r == outcome(&ctx.model, args.call()),
{
    match ctx.model.to_number(&args.eval_scalar(0)) {
        Ok(p) => if is_reached(p) {
            Ok(p)
        } else {
            Err(ErrorKind::Num)
        },
        Err(k) => Err(k),
    }
}

/// The law of the argument: it is handed on exactly where it stands for a number that is
/// between zero and one; another number is a number error.
pub proof fn law_argument_is_in_the_domain(m: &ValueModel, call: CallModel)
    ensures
        outcome(m, call) matches Ok(n) ==> m.numeric(call.scalar(0)) == Ok::<Number, ErrorKind>(n) && 0 < n.units() < one(),
        outcome(m, call) matches Err(k) ==> match m.numeric(call.scalar(0)) {
            Ok(n) => k == ErrorKind::Num && (n.units() <= 0 || n.units() >= one()),
            Err(e) => k == e,
        },
{
}

} // verus!
