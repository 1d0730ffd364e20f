//! `NORMDIST(x, mean, standard_dev, cumulative)`: the normal distribution.
//!
//! All four arguments are taken, in order, before a standard deviation that is
//! not positive is a number error. With `z = (x - mean) / standard_dev` the
//! cumulative distribution is `erfc(-z / sqrt(2)) / 2` and the density
//! `exp(-z * z / 2) / (standard_dev * sqrt(2 * pi))`.

use crate::args::{ready, CallArgs, CallModel};
use crate::model::{logical, to_bool, EvalContext, ValueModel};
use crate::number::Number;
use crate::operands::{
    all_stand, coerce_operands, fails_as, law_operands_are_the_arguments, operands, stands,
};
use crate::value::ErrorKind;
use vstd::prelude::*;

verus! {

/// What the distribution is computed from.
#[derive(Clone, Copy, Debug, PartialEq)]
pub struct Terms {
    pub x: Number,
    pub mean: Number,
    pub standard_dev: Number,
    pub cumulative: bool,
}

/// The outcome of the call.
pub open spec fn outcome(m: &ValueModel, call: CallModel) -> Result<Terms, ErrorKind> {
    match operands(m, call, 3) {
        Err(k) => Err(k),
        Ok(ns) => match logical(call.scalar(3)) {
            Err(k) => Err(k),
            Ok(cumulative) => if ns[2].units() <= 0 {
                Err(ErrorKind::Num)
            } else {
                Ok(Terms { x: ns[0], mean: ns[1], standard_dev: ns[2], cumulative })
            },
        },
    }
}

/// The terms of the call, or the error that it results in.
pub fn terms<A: CallArgs>(ctx: &EvalContext, args: &A) -> (r: Result<Terms, ErrorKind>)
    requires
        ready(args),
    ensures
        r == outcome(&ctx.model, args.call()),
{
    let ns = match coerce_operands(&ctx.model, args, 3) {
        Ok(ns) => ns,
        Err(k) => {
            return Err(k);
        },
    };
    let cumulative = match to_bool(&args.eval_scalar(3)) {
        Ok(b) => b,
        Err(k) => {
            return Err(k);
        },
    };
    if !ns[2].is_positive() {
        return Err(ErrorKind::Num);
    }
    Ok(Terms { x: ns[0], mean: ns[1], standard_dev: ns[2], cumulative })
}

/// The law of the terms: the numbers are those that the arguments at their own places
/// stand for, and the fourth says whether the distribution is cumulative. The first
/// argument that stands for no number is an error, then a fourth that is no logical value,
/// and then a standard deviation that is not positive.
pub proof fn law_terms_are_the_arguments(m: &ValueModel, call: CallModel)
    ensures
        outcome(m, call) matches Ok(t) ==> stands(m, call, 0, t.x) && stands(m, call, 1, t.mean) && stands(
            m,
            call,
            2,
            t.standard_dev,
        ) && t.standard_dev.units() > 0 && logical(call.scalar(3)) == Ok::<bool, ErrorKind>(t.cumulative),
        outcome(m, call) matches Err(k) ==> (exists|i: int| fails_as(m, call, 3, i, k)) || (all_stand(m, call, 3) && (logical(
            call.scalar(3),
        ) == Err::<bool, ErrorKind>(k) || (logical(call.scalar(3)) is Ok && k == ErrorKind::Num && forall|s: Number| #[trigger]
            stands(m, call, 2, s) ==> s.units() <= 0))),
{
    law_operands_are_the_arguments(m, call, 3);
}

} // verus!
