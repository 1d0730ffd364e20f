//! `IPMT(rate, per, nper, pv, [fv], [type])`: the interest part of the payment
//! of one period of a loan.
//!
//! Six numbers are taken in order; empty slots are zero. Any type but zero means
//! payments at the start of each period. A period outside of one to `nper` is a
//! number error; a period with a fraction is refused for payments at the start.
//! Without interest, and in the first period of payments at the start, the part
//! is zero. Else, with `p = (1 + rate) ^ nper` and `q = (1 + rate) ^ (per - 1)`, a
//! timing factor of `1 + rate` for payments at the start and one for payments at
//! the end, and `pmt = -(pv * p + fv) * rate / ((p - 1) * timing)`, it is
//! `-(pv * q + pmt * timing * (q - 1) / rate) * rate / timing`.

use crate::args::{ready, CallArgs, CallModel};
use crate::model::{EvalContext, ValueModel};
use crate::number::{one, Number};
use crate::operands::{
    all_stand, coerce_operands, fails_as, law_operands_are_the_arguments, operands, stands,
};
use crate::value::ErrorKind;
use vstd::prelude::*;

verus! {

/// What the interest part is computed from.
#[derive(Clone, Copy, Debug, PartialEq)]
pub enum Terms {
    /// There is no interest to pay.
    Zero,
    /// Interest on what is outstanding.
    Interest { rate: Number, per: Number, nper: Number, pv: Number, fv: Number, due: bool },
}

/// The terms that six numbers give.
pub open spec fn terms_of(ns: Seq<Number>) -> Result<Terms, ErrorKind> {
    let (rate, per, nper) = (ns[0], ns[1], ns[2]);
    let due = ns[5].units() != 0;
    if !(one() <= per.units() <= nper.units()) {
        Err(ErrorKind::Num)
    } else if !per.whole() && due {
        Err(ErrorKind::Unsupported)
    } else if rate.units() == 0 || (due && per.units() == one()) {
        Ok(Terms::Zero)
    } else {
        Ok(Terms::Interest { rate, per, nper, pv: ns[3], fv: ns[4], due })
    }
}

/// The outcome of the call.
pub open spec fn outcome(m: &ValueModel, call: CallModel) -> Result<Terms, ErrorKind> {
    match operands(m, call, 6) {
        Ok(ns) => terms_of(ns),
        Err(k) => Err(k),
    }
}

/// The terms of the call, or the error that it results in.
pub fn terms<A: CallArgs>(ctx: &EvalContext, args: &A) -> (r: Result<Terms, ErrorKind>)
    requires
        ready(args),
    ensures
        r == outcome(&ctx.model, args.call()),
{
    let ns = match coerce_operands(&ctx.model, args, 6) {
        Ok(ns) => ns,
        Err(k) => {
            return Err(k);
        },
    };
    let per = ns[1];
    let due = !ns[5].is_zero();
    if per.lt(Number::one()) || ns[2].lt(per) {
        return Err(ErrorKind::Num);
    }
    if !per.is_whole() && due {
        return Err(ErrorKind::Unsupported);
    }
    if ns[0].is_zero() || (due && per.same(Number::one())) {
        return Ok(Terms::Zero);
    }
    Ok(Terms::Interest { rate: ns[0], per, nper: ns[2], pv: ns[3], fv: ns[4], due })
}

/// The law of the type flag: any two types other than zero give the same terms.
pub proof fn law_type_is_a_flag(ns: Seq<Number>, other: Number)
    requires
        ns.len() == 6,
        ns[5].units() != 0,
        other.units() != 0,
    ensures
        terms_of(ns) == terms_of(ns.update(5, other)),
{
}

/// The law of the terms: the numbers are those that the arguments at their own places
/// stand for. There is interest exactly where the rate is not zero and the period is not
/// the first of payments at the start. The first argument that stands for no number is an
/// error; then a period outside of the loan is, and then, with payments at the start, one
/// with a fraction.
pub proof fn law_terms_are_the_arguments(m: &ValueModel, call: CallModel)
    ensures
        outcome(m, call) matches Ok(Terms::Interest { rate, per, nper, pv, fv, due }) ==> all_stand(m, call, 6) && stands(
            m,
            call,
            0,
            rate,
        ) && stands(m, call, 1, per) && stands(m, call, 2, nper) && stands(m, call, 3, pv) && stands(m, call, 4, fv)
            && rate.units() != 0 && one() <= per.units() <= nper.units() && (due ==> per.units() % one() == 0 && per.units()
            > one()) && (forall|flag: Number| #[trigger] stands(m, call, 5, flag) ==> due == (flag.units() != 0)),
        outcome(m, call) matches Ok(Terms::Zero) ==> all_stand(m, call, 6) && (forall|
            rate: Number,
            per: Number,
            nper: Number,
            flag: Number,
        |
            #[trigger] stands(m, call, 0, rate) && #[trigger] stands(m, call, 1, per) && #[trigger] stands(m, call, 2, nper)
                && #[trigger] stands(m, call, 5, flag) ==> one() <= per.units() <= nper.units() && (rate.units() == 0 || (
            flag.units() != 0 && per.units() == one())) && (flag.units() != 0 ==> per.units() % one() == 0)),
        outcome(m, call) matches Err(k) ==> (exists|i: int| fails_as(m, call, 6, i, k)) || (all_stand(m, call, 6) && (forall|
            per: Number,
            nper: Number,
            flag: Number,
        |
            #[trigger] stands(m, call, 1, per) && #[trigger] stands(m, call, 2, nper) && #[trigger] stands(m, call, 5, flag)
                ==> if per.units() < one() || per.units() > nper.units() {
                k == ErrorKind::Num
            } else {
                k == ErrorKind::Unsupported && flag.units() != 0 && per.units() % one() != 0
            })),
{
    law_operands_are_the_arguments(m, call, 6);
}

} // verus!
