//! `QUOTIENT(numerator, denominator)`: the whole part of a quotient.
//!
//! A denominator of zero is a division by zero. Else the quotient is cut off
//! towards zero; one that is not finite is a number error.

use crate::args::{ready, CallArgs, CallModel};
use crate::model::{EvalContext, ValueModel};
use crate::number::Number;
use crate::operands::{
    all_stand, coerce_operands, fails_as, law_operands_are_the_arguments, operands, stands,
};
use crate::value::ErrorKind;
use vstd::prelude::*;

verus! {

/// What the quotient is computed from.
#[derive(Clone, Copy, Debug, PartialEq)]
pub struct Terms {
    pub numerator: Number,
    pub denominator: Number,
}

/// The terms that two numbers give.
pub open spec fn terms_of(numerator: Number, denominator: Number) -> Result<Terms, ErrorKind> {
    if denominator.units() == 0 {
        Err(ErrorKind::Div0)
    } else {
        Ok(Terms { numerator, denominator })
    }
}

/// The outcome of the call.
pub open spec fn outcome(m: &ValueModel, call: CallModel) -> Result<Terms, ErrorKind> {
    match operands(m, call, 2) {
        Ok(ns) => terms_of(ns[0], ns[1]),
        Err(k) => Err(k),
    }
}

/// The terms of the call, or the error that it results in.
pub fn terms<A: CallArgs>(ctx: &EvalContext, args: &A) -> (r: Result<Terms, ErrorKind>)
    requires
        ready(args),
    ensures
        r == outcome(&ctx.model, args.call()),
{
    let ns = match coerce_operands(&ctx.model, args, 2) {
        Ok(ns) => ns,
        Err(k) => {
            return Err(k);
        },
    };
    if ns[1].is_zero() {
        return Err(ErrorKind::Div0);
    }
    Ok(Terms { numerator: ns[0], denominator: ns[1] })
}

/// The law of the terms: the numbers are those that the arguments at their own places
/// stand for. The first argument that stands for no number is an error, and so is a
/// denominator of zero.
pub proof fn law_terms_are_the_arguments(m: &ValueModel, call: CallModel)
    ensures
        outcome(m, call) matches Ok(t) ==> stands(m, call, 0, t.numerator) && stands(m, call, 1, t.denominator) && t.denominator.units() != 0,
        outcome(m, call) matches Err(k) ==> (exists|i: int| fails_as(m, call, 2, i, k)) || (k == ErrorKind::Div0 && all_stand(
            m,
            call,
            2,
        ) && forall|a: Number, b: Number| #[trigger] stands(m, call, 0, a) && #[trigger] stands(m, call, 1, b) ==> b.units() == 0),
{
    law_operands_are_the_arguments(m, call, 2);
}

} // verus!
