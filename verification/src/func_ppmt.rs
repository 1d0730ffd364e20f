//! `PPMT(rate, per, nper, pv, [fv], [type])`: the part of the payment of one
//! period of a loan that pays the loan back.
//!
//! Six numbers are taken in order; empty slots are zero. Any type but zero means
//! payments at the start of each period. A period outside of one to `nper` is a
//! number error, and so is a rate of minus one; a period with a fraction is
//! refused for payments at the start. Without interest the part is the whole
//! payment, `-(pv + fv) / nper`. Else it is the payment without its interest part,
//! which for payments at the start has none in the first period.

use crate::args::{ready, CallArgs, CallModel};
use crate::model::{EvalContext, ValueModel};
use crate::number::{one, Number};
use crate::operands::{
    all_stand, coerce_operands, fails_as, law_operands_are_the_arguments, operands, stands,
};
use crate::value::ErrorKind;
use vstd::prelude::*;

verus! {

/// What the part is computed from.
#[derive(Clone, Copy, Debug, PartialEq)]
pub enum Terms {
    /// No interest.
    Straight { nper: Number, pv: Number, fv: Number },
    /// The whole payment, at the start of the first period, which bears no interest.
    First { rate: Number, nper: Number, pv: Number, fv: Number },
    /// The payment without its interest part.
    Principal { rate: Number, per: Number, nper: Number, pv: Number, fv: Number, due: bool },
}

/// The terms that six numbers give.
pub open spec fn terms_of(ns: Seq<Number>) -> Result<Terms, ErrorKind> {
    let (rate, per, nper) = (ns[0], ns[1], ns[2]);
    let due = ns[5].units() != 0;
    if !(one() <= per.units() <= nper.units()) {
        Err(ErrorKind::Num)
    } else if !per.whole() && due {
        Err(ErrorKind::Unsupported)
    } else if rate.units() == -one() {
        Err(ErrorKind::Num)
    } else if rate.units() == 0 {
        Ok(Terms::Straight { nper, pv: ns[3], fv: ns[4] })
    } else if due && per.units() == one() {
        Ok(Terms::First { rate, nper, pv: ns[3], fv: ns[4] })
    } else {
        Ok(Terms::Principal { rate, per, nper, pv: ns[3], fv: ns[4], due })
    }
}

/// The outcome of the call.
pub open spec fn outcome(m: &ValueModel, call: CallModel) -> Result<Terms, ErrorKind> {
    match operands(m, call, 6) {
        Ok(ns) => terms_of(ns),
        Err(k) => Err(k),
    }
}

/// The terms of the call, or the error that it results in.
pub fn terms<A: CallArgs>(ctx: &EvalContext, args: &A) -> (r: Result<Terms, ErrorKind>)
    requires
        ready(args),
    ensures
        r == outcome(&ctx.model, args.call()),
{
    let ns = match coerce_operands(&ctx.model, args, 6) {
        Ok(ns) => ns,
        Err(k) => {
            return Err(k);
        },
    };
    let rate = ns[0];
    let per = ns[1];
    let due = !ns[5].is_zero();
    if per.lt(Number::one()) || ns[2].lt(per) {
        return Err(ErrorKind::Num);
    }
    if !per.is_whole() && due {
        return Err(ErrorKind::Unsupported);
    }
    if rate.same(Number::minus_one()) {
        return Err(ErrorKind::Num);
    }
    if rate.is_zero() {
        return Ok(Terms::Straight { nper: ns[2], pv: ns[3], fv: ns[4] });
    }
    if due && per.same(Number::one()) {
        return Ok(Terms::First { rate, nper: ns[2], pv: ns[3], fv: ns[4] });
    }
    Ok(Terms::Principal { rate, per, nper: ns[2], pv: ns[3], fv: ns[4], due })
}

/// The law of the type flag: any two types other than zero give the same terms.
pub proof fn law_type_is_a_flag(ns: Seq<Number>, other: Number)
    requires
        ns.len() == 6,
        ns[5].units() != 0,
        other.units() != 0,
    ensures
        terms_of(ns) == terms_of(ns.update(5, other)),
{
}

/// The law of the split: a period that `PPMT` has a part for has an interest
/// part too, and the two take the same loan, period and timing. Where the part is the
/// whole payment, there is no interest.
pub proof fn law_splits_as_ipmt(ns: Seq<Number>)
    requires
        ns.len() == 6,
        terms_of(ns) is Ok,
    ensures
        match terms_of(ns)->Ok_0 {
            Terms::Principal { rate, per, nper, pv, fv, due } => crate::func_ipmt::terms_of(ns) == Ok::<
                crate::func_ipmt::Terms,
                ErrorKind,
            >(crate::func_ipmt::Terms::Interest { rate, per, nper, pv, fv, due }),
            _ => crate::func_ipmt::terms_of(ns) == Ok::<crate::func_ipmt::Terms, ErrorKind>(
                crate::func_ipmt::Terms::Zero,
            ),
        },
{
    vstd::arithmetic::power2::lemma_pow2_pos(1074);
}

/// The law of the whole: the payment that a part is a part of is the one that `PMT`
/// gives of the same loan, with the same timing. Without interest, and at the start of
/// the first period, the part takes the very terms of that payment.
pub proof fn law_part_of_the_payment(ns: Seq<Number>)
    requires
        ns.len() == 6,
        terms_of(ns) is Ok,
    ensures
        crate::func_pmt::terms_of(seq![ns[0], ns[2], ns[3], ns[4], ns[5]]) == Ok::<
            crate::func_pmt::Terms,
            ErrorKind,
        >(
            match terms_of(ns)->Ok_0 {
                Terms::Straight { nper, pv, fv } => crate::func_pmt::Terms::Straight { nper, pv, fv },
                Terms::First { rate, nper, pv, fv } => crate::func_pmt::Terms::Compound {
                    rate,
                    nper,
                    pv,
                    fv,
                    due: true,
                },
                Terms::Principal { rate, nper, pv, fv, due, .. } => crate::func_pmt::Terms::Compound {
                    rate,
                    nper,
                    pv,
                    fv,
                    due,
                },
            },
        ),
{
    vstd::arithmetic::power2::lemma_pow2_pos(1074);
}

/// The period lies in the loan, and with payments at the start it is a whole one.
pub open spec fn in_loan(m: &ValueModel, call: CallModel) -> bool {
    forall|per: Number, nper: Number, flag: Number|
        #[trigger] stands(m, call, 1, per) && #[trigger] stands(m, call, 2, nper) && #[trigger] stands(m, call, 5, flag)
            ==> one() <= per.units() <= nper.units() && (flag.units() != 0 ==> per.units() % one() == 0)
}

/// The law of the terms: the numbers are those that the arguments at their own places
/// stand for. Without interest the whole payment is meant, and so it is in the first
/// period of payments at the start. The first argument that stands for no number is an
/// error; then a period outside of the loan is, then, with payments at the start, one
/// with a fraction, and then a rate of minus one.
pub proof fn law_terms_are_the_arguments(m: &ValueModel, call: CallModel)
    ensures
        outcome(m, call) matches Ok(Terms::Straight { nper, pv, fv }) ==> all_stand(m, call, 6) && stands(m, call, 2, nper)
            && stands(m, call, 3, pv) && stands(m, call, 4, fv) && (forall|rate: Number| #[trigger]
            stands(m, call, 0, rate) ==> rate.units() == 0) && in_loan(m, call),
        outcome(m, call) matches Ok(Terms::First { rate, nper, pv, fv }) ==> all_stand(m, call, 6) && stands(m, call, 0, rate)
            && stands(m, call, 2, nper) && stands(m, call, 3, pv) && stands(m, call, 4, fv) && rate.units() != 0
            && rate.units() != -one() && in_loan(m, call) && (forall|per: Number, flag: Number| #[trigger]
            stands(m, call, 1, per) && #[trigger] stands(m, call, 5, flag) ==> per.units() == one() && flag.units() != 0),
        outcome(m, call) matches Ok(Terms::Principal { rate, per, nper, pv, fv, due }) ==> all_stand(m, call, 6) && stands(
            m,
            call,
            0,
            rate,
        ) && stands(m, call, 1, per) && stands(m, call, 2, nper) && stands(m, call, 3, pv) && stands(m, call, 4, fv)
            && rate.units() != 0 && rate.units() != -one() && in_loan(m, call) && (due ==> per.units() > one()) && (forall|
            flag: Number,
        | #[trigger] stands(m, call, 5, flag) ==> due == (flag.units() != 0)),
        outcome(m, call) matches Err(k) ==> (exists|i: int| fails_as(m, call, 6, i, k)) || (all_stand(m, call, 6) && (forall|
            rate: Number,
            per: Number,
            nper: Number,
            flag: Number,
        |
            #[trigger] stands(m, call, 0, rate) && #[trigger] stands(m, call, 1, per) && #[trigger] stands(m, call, 2, nper)
                && #[trigger] stands(m, call, 5, flag) ==> if per.units() < one() || per.units() > nper.units() {
                k == ErrorKind::Num
            } else if flag.units() != 0 && per.units() % one() != 0 {
                k == ErrorKind::Unsupported
            } else {
                k == ErrorKind::Num && rate.units() == -one()
            })),
{
    law_operands_are_the_arguments(m, call, 6);
}

} // verus!
