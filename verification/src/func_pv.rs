//! `PV(rate, nper, pmt, [fv], [type])`: what an annuity is worth now.
//!
//! Five numbers are taken in order; empty slots are zero. Any type but zero
//! means payments at the start of each period. The terms that are handed back
//! say which formula gives the value: without interest `-(pmt * nper + fv)`, and
//! else, with `p = (1 + rate) ^ nper` and a timing factor of `1 + rate` for
//! payments at the start and one for payments at the end,
//! `-(fv + pmt * timing * (p - 1) / rate) / p`.

use crate::args::{ready, CallArgs, CallModel};
use crate::model::{EvalContext, ValueModel};
use crate::number::Number;
use crate::operands::{
    all_stand, coerce_operands, fails_as, law_operands_are_the_arguments, operands, stands,
};
use crate::value::ErrorKind;
use vstd::prelude::*;

verus! {

/// What the value of the annuity is computed from.
#[derive(Clone, Copy, Debug, PartialEq)]
pub enum Terms {
    /// No interest.
    Straight { nper: Number, pmt: Number, fv: Number },
    /// Interest in every period.
    Compound { rate: Number, nper: Number, pmt: Number, fv: Number, due: bool },
}

/// The terms that five numbers give.
pub open spec fn terms_of(ns: Seq<Number>) -> Terms {
    if ns[0].units() == 0 {
        Terms::Straight { nper: ns[1], pmt: ns[2], fv: ns[3] }
    } else {
        Terms::Compound { rate: ns[0], nper: ns[1], pmt: ns[2], fv: ns[3], due: ns[4].units() != 0 }
    }
}

/// The outcome of the call.
pub open spec fn outcome(m: &ValueModel, call: CallModel) -> Result<Terms, ErrorKind> {
    match operands(m, call, 5) {
        Ok(ns) => Ok(terms_of(ns)),
        Err(k) => Err(k),
    }
}

/// The terms of the call, or the error that it results in.
pub fn terms<A: CallArgs>(ctx: &EvalContext, args: &A) -> (r: Result<Terms, ErrorKind>)
    requires
        ready(args),
    ensures
        r == outcome(&ctx.model, args.call()),
{
    let ns = match coerce_operands(&ctx.model, args, 5) {
        Ok(ns) => ns,
        Err(k) => {
            return Err(k);
        },
    };
    if ns[0].is_zero() {
        Ok(Terms::Straight { nper: ns[1], pmt: ns[2], fv: ns[3] })
    } else {
        Ok(
            Terms::Compound {
                rate: ns[0],
                nper: ns[1],
                pmt: ns[2],
                fv: ns[3],
                due: !ns[4].is_zero(),
            },
        )
    }
}

/// The law of the type flag: any two types other than zero give the same terms.
pub proof fn law_type_is_a_flag(ns: Seq<Number>, other: Number)
    requires
        ns.len() == 5,
        ns[4].units() != 0,
        other.units() != 0,
    ensures
        terms_of(ns) == terms_of(ns.update(4, other)),
{
}

/// The law of the terms: the numbers are those that the arguments at their own places
/// stand for, with interest exactly where the rate is not zero, and with payments at the
/// start exactly where the type is not zero. The first argument that stands for no
/// number is the only error.
pub proof fn law_terms_are_the_arguments(m: &ValueModel, call: CallModel)
    ensures
        outcome(m, call) matches Ok(Terms::Straight { nper, pmt, fv }) ==> all_stand(m, call, 5) && stands(m, call, 1, nper)
            && stands(m, call, 2, pmt) && stands(m, call, 3, fv) && (forall|rate: Number| #[trigger]
            stands(m, call, 0, rate) ==> rate.units() == 0),
        outcome(m, call) matches Ok(Terms::Compound { rate, nper, pmt, fv, due }) ==> stands(m, call, 0, rate) && stands(
            m,
            call,
            1,
            nper,
        ) && stands(m, call, 2, pmt) && stands(m, call, 3, fv) && rate.units() != 0 && all_stand(m, call, 5) && (
        forall|flag: Number| #[trigger] stands(m, call, 4, flag) ==> due == (flag.units() != 0)),
        outcome(m, call) matches Err(k) ==> exists|i: int| fails_as(m, call, 5, i, k),
{
    law_operands_are_the_arguments(m, call, 5);
}

} // verus!
