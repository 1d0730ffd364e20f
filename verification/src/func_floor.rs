//! `FLOOR(number, significance)`: the number rounded down to a multiple of the
//! significance.
//!
//! A significance of zero is a division by zero, unless the number is zero too;
//! a positive number with a negative significance is a number error. Else the
//! quotient of the two, brought to fifteen significant digits, is rounded down
//! and multiplied by the significance; a quotient or product that is not finite
//! is a number error.

use crate::args::{ready, CallArgs, CallModel};
use crate::model::{EvalContext, ValueModel};
use crate::number::Number;
use crate::operands::{
    all_stand, coerce_operands, fails_as, law_operands_are_the_arguments, operands, stands,
};
use crate::value::ErrorKind;
use vstd::prelude::*;

verus! {

/// What the multiple is computed from.
#[derive(Clone, Copy, Debug, PartialEq)]
pub enum Terms {
    /// The result is zero.
    Zero,
    /// The quotient, rounded down, times the significance.
    Steps { number: Number, significance: Number },
}

/// The terms that two numbers give.
pub open spec fn terms_of(number: Number, significance: Number) -> Result<Terms, ErrorKind> {
    if number.units() == 0 {
        Ok(Terms::Zero)
    } else if significance.units() == 0 {
        Err(ErrorKind::Div0)
    } else if number.units() > 0 && significance.units() < 0 {
        Err(ErrorKind::Num)
    } else {
        Ok(Terms::Steps { number, significance })
    }
}

/// The outcome of the call.
pub open spec fn outcome(m: &ValueModel, call: CallModel) -> Result<Terms, ErrorKind> {
    match operands(m, call, 2) {
        Ok(ns) => terms_of(ns[0], ns[1]),
        Err(k) => Err(k),
    }
}

/// The terms of the call, or the error that it results in.
pub fn terms<A: CallArgs>(ctx: &EvalContext, args: &A) -> (r: Result<Terms, ErrorKind>)
    requires
        ready(args),
    ensures
        r == outcome(&ctx.model, args.call()),
{
    let ns = match coerce_operands(&ctx.model, args, 2) {
        Ok(ns) => ns,
        Err(k) => {
            return Err(k);
        },
    };
    if ns[1].is_zero() {
        return if ns[0].is_zero() {
            Ok(Terms::Zero)
        } else {
            Err(ErrorKind::Div0)
        };
    }
    if ns[0].is_positive() && ns[1].is_negative() {
        return Err(ErrorKind::Num);
    }
    if ns[0].is_zero() {
        return Ok(Terms::Zero);
    }
    Ok(Terms::Steps { number: ns[0], significance: ns[1] })
}

/// The law of the terms: the numbers are those that the arguments at their own places
/// stand for. Zero is zero for any significance; else a significance of zero is a division
/// by zero, and a positive number with a negative one a number error.
pub proof fn law_terms_are_the_arguments(m: &ValueModel, call: CallModel)
    ensures
        outcome(m, call) matches Ok(Terms::Zero) ==> all_stand(m, call, 2) && (forall|n: Number| #[trigger]
            stands(m, call, 0, n) ==> n.units() == 0),
        outcome(m, call) matches Ok(Terms::Steps { number, significance }) ==> stands(m, call, 0, number) && stands(
            m,
            call,
            1,
            significance,
        ) && number.units() != 0 && significance.units() != 0 && (number.units() < 0 || significance.units() > 0),
        outcome(m, call) matches Err(k) ==> (exists|i: int| fails_as(m, call, 2, i, k)) || (all_stand(m, call, 2) && (forall|
            n: Number,
            s: Number,
        |
            #[trigger] stands(m, call, 0, n) && #[trigger] stands(m, call, 1, s) ==> n.units() != 0 && (if s.units() == 0 {
                k == ErrorKind::Div0
            } else {
                k == ErrorKind::Num && n.units() > 0 && s.units() < 0
            }))),
{
    law_operands_are_the_arguments(m, call, 2);
}

} // verus!
