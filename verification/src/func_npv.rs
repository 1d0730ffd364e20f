//! `NPV(rate, value1, [value2], ...)`: the present value of cash flows that come
//! at the end of each period.
//!
//! A rate of minus one is a division by zero. Single values count as the numbers
//! they stand for, and empty slots are not looked at. Of ranges, array constants
//! and references to one cell only the numbers count, and only what counts takes
//! up a period. The first error is the result. The value is the sum of each flow
//! divided by `(1 + rate) ^ i`, where `i` counts from one; a sum that is not finite
//! is a number error.

use crate::aggregate::{
    collect, first_error, lemma_numbers_of_arguments, no_error, numbers, numbers_of_arguments, slots_are_blank, Rules, Slot,
};
use crate::args::{ready, CallArgs, CallModel};
use crate::model::{EvalContext, ValueModel};
use crate::number::{one, Number};
use crate::value::ErrorKind;
use vstd::prelude::*;

verus! {

/// What the present value is computed from.
#[derive(Debug, PartialEq)]
pub struct Terms {
    pub rate: Number,
    /// The flow of each period, from the first period on.
    pub flows: Vec<Number>,
}

/// Empty slots are not looked at, a blank counts as zero; of cells only numbers count.
pub open spec fn rules() -> Rules {
    Rules { references: true, omitted: None, blank: Slot::Coerce, logicals: false }
}

/// The outcome of the call is `r`.
pub open spec fn outcome(m: &ValueModel, call: CallModel, r: Result<Terms, ErrorKind>) -> bool {
    match m.numeric(call.scalar(0)) {
        Err(k) => r == Err::<Terms, ErrorKind>(k),
        Ok(rate) => if rate.units() == -one() {
            r == Err::<Terms, ErrorKind>(ErrorKind::Div0)
        } else {
            match numbers(m, call, rules(), 1) {
                Err(k) => r == Err::<Terms, ErrorKind>(k),
                Ok(ns) => r matches Ok(t) && t.rate == rate && t.flows@ == ns,
            }
        },
    }
}

/// The terms of the call, or the error that it results in.
pub fn terms<A: CallArgs>(ctx: &EvalContext, args: &A) -> (r: Result<Terms, ErrorKind>)
    requires
        ready(args),
    ensures
        outcome(&ctx.model, args.call(), r),
{
    let rate = match ctx.model.to_number(&args.eval_scalar(0)) {
        Ok(n) => n,
        Err(k) => {
            return Err(k);
        },
    };
    if rate.same(Number::minus_one()) {
        return Err(ErrorKind::Div0);
    }
    let rules = Rules { references: true, omitted: None, blank: Slot::Coerce, logicals: false };
    match collect(&ctx.model, args, 1, rules) {
        Err(k) => Err(k),
        Ok(flows) => Ok(Terms { rate, flows }),
    }
}

/// The law of the flows: the rate is what the first argument stands for, and where no
/// argument after it holds an error, the flows are the numbers of those arguments, in
/// their order, zeros among them; else the outcome is the first error. An error of the
/// rate, or a rate of minus one, comes before all of them.
pub proof fn law_flows_are_the_numbers(m: &ValueModel, call: CallModel, r: Result<Terms, ErrorKind>)
    requires
        slots_are_blank(call),
        outcome(m, call, r),
    ensures
        m.numeric(call.scalar(0)) matches Err(k) ==> r == Err::<Terms, ErrorKind>(k),
        m.numeric(call.scalar(0)) matches Ok(rate) && rate.units() + one() == 0 ==> r == Err::<Terms, ErrorKind>(
            ErrorKind::Div0,
        ),
        (m.numeric(call.scalar(0)) matches Ok(rate) && rate.units() + one() != 0) ==> (no_error(m, call, 1, false, false)
            ==> (r matches Ok(t) && m.numeric(call.scalar(0)) == Ok::<Number, ErrorKind>(t.rate) && exists|
            places: Seq<(int, int)>,
        |
            numbers_of_arguments(m, call, 1, false, true, t.flows@, places))),
        (m.numeric(call.scalar(0)) matches Ok(rate) && rate.units() + one() != 0) ==> (!no_error(m, call, 1, false, false)
            ==> exists|k: ErrorKind, i: int, j: int| #[trigger]
            first_error(m, call, 1, false, false, k, i, j) && r == Err::<Terms, ErrorKind>(k)),
{
    lemma_numbers_of_arguments(m, call, rules(), 1, false, true, false, false);
    if m.numeric(call.scalar(0)) is Ok && m.numeric(call.scalar(0))->Ok_0.units() != -one() {
        match numbers(m, call, rules(), 1) {
            Ok(ns) => {
                let places = choose|places: Seq<(int, int)>| numbers_of_arguments(m, call, 1, false, true, ns, places);
                assert(numbers_of_arguments(m, call, 1, false, true, r->Ok_0.flows@, places));
            },
            Err(k) => {
                let (i, j) = choose|i: int, j: int| first_error(m, call, 1, false, false, k, i, j);
                assert(first_error(m, call, 1, false, false, k, i, j) && r == Err::<Terms, ErrorKind>(k));
            },
        }
    }
}

} // verus!
