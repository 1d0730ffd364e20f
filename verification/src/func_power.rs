//! `POWER(number, power)`: a number raised to a power.
//!
//! Zero raised to a negative power is a division by zero. A power that is not
//! finite, or not real, is a number error.

use crate::args::{ready, CallArgs, CallModel};
use crate::model::{EvalContext, ValueModel};
use crate::number::Number;
use crate::operands::{
    all_stand, coerce_operands, fails_as, law_operands_are_the_arguments, operands, stands,
};
use crate::value::ErrorKind;
use vstd::prelude::*;

verus! {

/// What the power is computed from.
#[derive(Clone, Copy, Debug, PartialEq)]
pub struct Terms {
    pub base: Number,
    pub exponent: Number,
}

/// The terms that two numbers give.
pub open spec fn terms_of(base: Number, exponent: Number) -> Result<Terms, ErrorKind> {
    if base.units() == 0 && exponent.units() < 0 {
        Err(ErrorKind::Div0)
    } else {
        Ok(Terms { base, exponent })
    }
}

/// The outcome of the call.
pub open spec fn outcome(m: &ValueModel, call: CallModel) -> Result<Terms, ErrorKind> {
    match operands(m, call, 2) {
        Ok(ns) => terms_of(ns[0], ns[1]),
        Err(k) => Err(k),
    }
}

/// The terms of the call, or the error that it results in.
pub fn terms<A: CallArgs>(ctx: &EvalContext, args: &A) -> (r: Result<Terms, ErrorKind>)
    requires
        ready(args),
    ensures
        r == outcome(&ctx.model, args.call()),
{
    let ns = match coerce_operands(&ctx.model, args, 2) {
        Ok(ns) => ns,
        Err(k) => {
            return Err(k);
        },
    };
    if ns[0].is_zero() && ns[1].is_negative() {
        return Err(ErrorKind::Div0);
    }
    Ok(Terms { base: ns[0], exponent: ns[1] })
}

/// The law of the terms: the numbers are those that the arguments at their own places
/// stand for. The first argument that stands for no number is an error, and so is zero
/// raised to a negative power.
pub proof fn law_terms_are_the_arguments(m: &ValueModel, call: CallModel)
    ensures
        outcome(m, call) matches Ok(t) ==> stands(m, call, 0, t.base) && stands(m, call, 1, t.exponent) && (t.base.units() != 0 || t.exponent.units() >= 0),
        outcome(m, call) matches Err(k) ==> (exists|i: int| fails_as(m, call, 2, i, k)) || (k == ErrorKind::Div0 && all_stand(
            m,
            call,
            2,
        ) && forall|a: Number, b: Number| #[trigger] stands(m, call, 0, a) && #[trigger] stands(m, call, 1, b) ==> a.units() == 0 && b.units() < 0),
{
    law_operands_are_the_arguments(m, call, 2);
}

} // verus!
