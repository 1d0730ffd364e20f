//! `NORMINV(probability, mean, standard_dev)`: the inverse of the normal
//! distribution, `mean + standard_dev * quantile(probability)`.
//!
//! A standard deviation that is not positive, and a probability that is not
//! between zero and one, are number errors.

use crate::args::{ready, CallArgs, CallModel};
use crate::func_normsinv::{is_reached, reached};
use crate::model::{EvalContext, ValueModel};
use crate::number::{one, Number};
use crate::operands::{
    all_stand, coerce_operands, fails_as, law_operands_are_the_arguments, operands, stands,
};
use crate::value::ErrorKind;
use vstd::prelude::*;

verus! {

/// What the quantile is computed from.
#[derive(Clone, Copy, Debug, PartialEq)]
pub struct Terms {
    pub probability: Number,
    pub mean: Number,
    pub standard_dev: Number,
}

/// The outcome of the call.
pub open spec fn outcome(m: &ValueModel, call: CallModel) -> Result<Terms, ErrorKind> {
    match operands(m, call, 3) {
        Err(k) => Err(k),
        Ok(ns) => if ns[2].units() <= 0 || !reached(ns[0]) {
            Err(ErrorKind::Num)
        } else {
            Ok(Terms { probability: ns[0], mean: ns[1], standard_dev: ns[2] })
        },
    }
}

/// The terms of the call, or the error that it results in.
pub fn terms<A: CallArgs>(ctx: &EvalContext, args: &A) -> (r: Result<Terms, ErrorKind>)
    requires
        ready(args),
    ensures
        r == outcome(&ctx.model, args.call()),
{
    let ns = match coerce_operands(&ctx.model, args, 3) {
        Ok(ns) => ns,
        Err(k) => {
            return Err(k);
        },
    };
    if !ns[2].is_positive() || !is_reached(ns[0]) {
        return Err(ErrorKind::Num);
    }
    Ok(Terms { probability: ns[0], mean: ns[1], standard_dev: ns[2] })
}

/// The law of the terms: the numbers are those that the arguments at their own places
/// stand for. The first argument that stands for no number is an error, and so are a
/// standard deviation that is not positive and a probability not between zero and one.
pub proof fn law_terms_are_the_arguments(m: &ValueModel, call: CallModel)
    ensures
        outcome(m, call) matches Ok(t) ==> stands(m, call, 0, t.probability) && stands(m, call, 1, t.mean) && stands(
            m,
            call,
            2,
            t.standard_dev,
        ) && t.standard_dev.units() > 0 && 0 < t.probability.units() < one(),
        outcome(m, call) matches Err(k) ==> (exists|i: int| fails_as(m, call, 3, i, k)) || (k == ErrorKind::Num && all_stand(
            m,
            call,
            3,
        ) && forall|p: Number, s: Number| #[trigger] stands(m, call, 0, p) && #[trigger] stands(m, call, 2, s) ==> s.units()
            <= 0 || p.units() <= 0 || p.units() >= one()),
{
    law_operands_are_the_arguments(m, call, 3);
}

} // verus!
