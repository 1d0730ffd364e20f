//! `PRODUCT(number1, [number2], ...)`: the product of the numbers.
//!
//! Single values count as the numbers they stand for, a blank as zero, and empty
//! slots are not looked at. Of ranges, array constants and references to one
//! cell only the numbers count. The first error is the result; without any
//! number it is zero, and a product that is not finite is a number error.

use crate::aggregate::{
    collect, first_error, lemma_numbers_of_arguments, no_error, numbers, numbers_of_arguments, slots_are_blank, Rules, Slot,
};
use crate::args::{ready, CallArgs, CallModel};
use crate::model::{EvalContext, ValueModel};
use crate::number::Number;
use crate::value::ErrorKind;
use vstd::prelude::*;

verus! {

/// What the product is computed from.
#[derive(Debug, PartialEq)]
pub enum Terms {
    /// There is no number: the result is zero.
    Zero,
    /// The factors, in order.
    Product(Vec<Number>),
}

/// Empty slots are not looked at, a blank counts as zero; of cells only numbers count.
pub open spec fn rules() -> Rules {
    Rules { references: true, omitted: None, blank: Slot::Coerce, logicals: false }
}

/// The outcome of the call is `r`.
pub open spec fn outcome(m: &ValueModel, call: CallModel, r: Result<Terms, ErrorKind>) -> bool {
    match numbers(m, call, rules(), 0) {
        Err(k) => r == Err::<Terms, ErrorKind>(k),
        Ok(ns) => if ns.len() == 0 {
            r == Ok::<Terms, ErrorKind>(Terms::Zero)
        } else {
            r matches Ok(Terms::Product(factors)) && factors@ == ns
        },
    }
}

/// The terms of the call, or the error that it results in.
pub fn terms<A: CallArgs>(ctx: &EvalContext, args: &A) -> (r: Result<Terms, ErrorKind>)
    requires
        ready(args),
    ensures
        outcome(&ctx.model, args.call(), r),
{
    let rules = Rules { references: true, omitted: None, blank: Slot::Coerce, logicals: false };
    match collect(&ctx.model, args, 0, rules) {
        Err(k) => Err(k),
        Ok(ns) => if ns.len() == 0 {
            Ok(Terms::Zero)
        } else {
            Ok(Terms::Product(ns))
        },
    }
}

/// The law of the factors: where no argument holds an error, the factors are the
/// numbers of the arguments, each as often as it stands there and in their order, and
/// the result is zero only where there is none; else the outcome is the first error.
pub proof fn law_factors_are_the_numbers(m: &ValueModel, call: CallModel, r: Result<Terms, ErrorKind>)
    requires
        slots_are_blank(call),
        outcome(m, call, r),
    ensures
        no_error(m, call, 0, false, false) ==> (r matches Ok(t) && match t {
            Terms::Zero => exists|places: Seq<(int, int)>|
                numbers_of_arguments(m, call, 0, false, true, Seq::empty(), places),
            Terms::Product(factors) => factors@.len() > 0 && exists|places: Seq<(int, int)>|
                numbers_of_arguments(m, call, 0, false, true, factors@, places),
        }),
        !no_error(m, call, 0, false, false) ==> exists|k: ErrorKind, i: int, j: int| #[trigger]
            first_error(m, call, 0, false, false, k, i, j) && r == Err::<Terms, ErrorKind>(k),
{
    lemma_numbers_of_arguments(m, call, rules(), 0, false, true, false, false);
    match numbers(m, call, rules(), 0) {
        Ok(ns) => {
            let places = choose|places: Seq<(int, int)>| numbers_of_arguments(m, call, 0, false, true, ns, places);
            if ns.len() == 0 {
                assert(ns == Seq::<Number>::empty());
            }
            assert(numbers_of_arguments(m, call, 0, false, true, ns, places));
        },
        Err(k) => {
            let (i, j) = choose|i: int, j: int| first_error(m, call, 0, false, false, k, i, j);
            assert(first_error(m, call, 0, false, false, k, i, j) && r == Err::<Terms, ErrorKind>(k));
        },
    }
}

} // verus!
