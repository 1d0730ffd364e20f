//! `PMT(rate, nper, pv, [fv], [type])`: the payment per period of a loan.
//!
//! Five numbers are taken in order; empty slots are zero. Any type but zero
//! means payments at the start of each period. The terms that are handed back
//! say which formula gives the payment: without interest `-(pv + fv) / nper`,
//! which over no period is a number error, and else, with `p = (1 + rate) ^ nper`
//! and a timing factor of `1 + rate` for payments at the start and one for
//! payments at the end, `-(pv * p + fv) * rate / ((p - 1) * timing)`, which over a
//! denominator of zero is a number error.

use crate::args::{ready, CallArgs, CallModel};
use crate::model::{EvalContext, ValueModel};
use crate::number::Number;
use crate::operands::{
    all_stand, coerce_operands, fails_as, law_operands_are_the_arguments, operands, stands,
};
use crate::value::{ErrorKind, Val, Value};
use vstd::prelude::*;

verus! {

/// What the payment is computed from.
#[derive(Clone, Copy, Debug, PartialEq)]
pub enum Terms {
    /// No interest.
    Straight { nper: Number, pv: Number, fv: Number },
    /// Interest in every period.
    Compound { rate: Number, nper: Number, pv: Number, fv: Number, due: bool },
}

/// The terms that five numbers give.
pub open spec fn terms_of(ns: Seq<Number>) -> Result<Terms, ErrorKind> {
    if ns[0].units() != 0 {
        Ok(
            Terms::Compound {
                rate: ns[0],
                nper: ns[1],
                pv: ns[2],
                fv: ns[3],
                due: ns[4].units() != 0,
            },
        )
    } else if ns[1].units() == 0 {
        Err(ErrorKind::Num)
    } else {
        Ok(Terms::Straight { nper: ns[1], pv: ns[2], fv: ns[3] })
    }
}

/// The outcome of the call.
pub open spec fn outcome(m: &ValueModel, call: CallModel) -> Result<Terms, ErrorKind> {
    match operands(m, call, 5) {
        Ok(ns) => terms_of(ns),
        Err(k) => Err(k),
    }
}

/// The terms of the call, or the error that it results in.
pub fn terms<A: CallArgs>(ctx: &EvalContext, args: &A) -> (r: Result<Terms, ErrorKind>)
    requires
        ready(args),
    ensures
        r == outcome(&ctx.model, args.call()),
{
    let ns = match coerce_operands(&ctx.model, args, 5) {
        Ok(ns) => ns,
        Err(k) => {
            return Err(k);
        },
    };
    if !ns[0].is_zero() {
        Ok(
            Terms::Compound {
                rate: ns[0],
                nper: ns[1],
                pv: ns[2],
                fv: ns[3],
                due: !ns[4].is_zero(),
            },
        )
    } else if ns[1].is_zero() {
        Err(ErrorKind::Num)
    } else {
        Ok(Terms::Straight { nper: ns[1], pv: ns[2], fv: ns[3] })
    }
}

/// The result of a payment with interest, given its denominator and its quotient.
pub open spec fn settled(denominator: Option<Number>, payment: Option<Number>) -> Val {
    if (denominator matches Some(d) && d.units() == 0) {
        Val::Error(ErrorKind::Num)
    } else {
        Val::computed(payment)
    }
}

/// The result of a payment with interest, given its denominator and its quotient
/// as far as they are finite: a denominator of zero is a number error.
pub fn settle(denominator: Option<Number>, payment: Option<Number>) -> (v: Value)
    ensures
        v@ == settled(denominator, payment),
{
    if let Some(d) = denominator {
        if d.is_zero() {
            return Value::Error(ErrorKind::Num);
        }
    }
    Value::number(payment)
}

/// The law of the type flag: any two types other than zero give the same terms.
pub proof fn law_type_is_a_flag(ns: Seq<Number>, other: Number)
    requires
        ns.len() == 5,
        ns[4].units() != 0,
        other.units() != 0,
    ensures
        terms_of(ns) == terms_of(ns.update(4, other)),
{
}

/// The law of the terms: the numbers are those that the arguments at their own places
/// stand for, with interest exactly where the rate is not zero, and with payments at the
/// start exactly where the type is not zero. The first argument that stands for no
/// number is an error, and so is a loan without interest and periods.
pub proof fn law_terms_are_the_arguments(m: &ValueModel, call: CallModel)
    ensures
        outcome(m, call) matches Ok(Terms::Straight { nper, pv, fv }) ==> all_stand(m, call, 5) && stands(m, call, 1, nper)
            && nper.units() != 0 && stands(m, call, 2, pv) && stands(m, call, 3, fv) && (forall|rate: Number| #[trigger]
            stands(m, call, 0, rate) ==> rate.units() == 0),
        outcome(m, call) matches Ok(Terms::Compound { rate, nper, pv, fv, due }) ==> stands(m, call, 0, rate) && stands(
            m,
            call,
            1,
            nper,
        ) && stands(m, call, 2, pv) && stands(m, call, 3, fv) && rate.units() != 0 && all_stand(m, call, 5) && (forall|
            flag: Number,
        | #[trigger] stands(m, call, 4, flag) ==> due == (flag.units() != 0)),
        outcome(m, call) matches Err(k) ==> (exists|i: int| fails_as(m, call, 5, i, k)) || (k == ErrorKind::Num && all_stand(
            m,
            call,
            5,
        ) && forall|rate: Number, nper: Number| #[trigger] stands(m, call, 0, rate) && #[trigger] stands(m, call, 1, nper)
            ==> rate.units() == 0 && nper.units() == 0),
{
    law_operands_are_the_arguments(m, call, 5);
}

/// The law of settling: a result is a number exactly where the payment is finite and its
/// denominator is not a zero, and it is the payment; any other is a number error.
pub proof fn law_payment_needs_a_denominator(denominator: Option<Number>, payment: Option<Number>)
    ensures
        match settled(denominator, payment) {
            Val::Number(n) => payment == Some(n) && (denominator matches Some(d) ==> d.units() != 0),
            v => v == Val::Error(ErrorKind::Num) && (payment is None || (denominator matches Some(d) && d.units() == 0)),
        },
{
}

} // verus!
