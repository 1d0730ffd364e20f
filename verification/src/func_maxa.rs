//! `MAXA(value1, [value2], ...)`: the largest value, with logical values counted.
//!
//! Single values count as the numbers they stand for and blanks are passed over,
//! but an empty slot is refused. In ranges and references numbers count, and
//! logical values as one and zero; in array constants only numbers do. The first
//! error is the result; without any value it is zero.

use crate::aggregate::{
    collect, first_error, lemma_numbers_of_arguments, no_error, numbers, numbers_of_arguments, slots_are_blank, Rules, Slot,
};
use crate::args::{ready, CallArgs, CallModel};
use crate::model::{EvalContext, ValueModel};
use crate::number::Number;
use crate::order::find_greatest;
use crate::value::{ErrorKind, Val, Value};
use vstd::prelude::*;

verus! {

/// An empty slot is refused, a blank passed over; in ranges logical values count.
pub open spec fn rules() -> Rules {
    Rules {
        references: true,
        omitted: Some(Slot::Refuse),
        blank: Slot::Skip,
        logicals: true,
    }
}

/// The result of the call.
pub open spec fn result(m: &ValueModel, call: CallModel) -> Val {
    crate::func_max::result_of(numbers(m, call, rules(), 0))
}

/// Evaluates the call.
pub fn eval<A: CallArgs>(ctx: &EvalContext, args: &A) -> (v: Value)
    requires
        ready(args),
    ensures
        v@ == result(&ctx.model, args.call()),
{
    let rules = Rules {
        references: true,
        omitted: Some(Slot::Refuse),
        blank: Slot::Skip,
        logicals: true,
    };
    match collect(&ctx.model, args, 0, rules) {
        Err(k) => Value::Error(k),
        Ok(ns) => match find_greatest(&ns) {
            Some(n) => Value::Number(n),
            None => Value::Number(Number::from_count(0)),
        },
    }
}

/// The law of the maximum: where no argument holds an error, the result is the largest
/// number of all arguments, the first of equal ones, and zero where there is none;
/// else it is the first error. Logical
/// values in ranges count, and an empty slot is an error.
pub proof fn law_result_is_the_largest(m: &ValueModel, call: CallModel)
    requires
        slots_are_blank(call),
    ensures
        no_error(m, call, 0, true, false) ==> (result(m, call) matches Val::Number(n) && crate::func_max::largest_of_arguments(
            m,
            call,
            true,
            false,
            n,
        )),
        !no_error(m, call, 0, true, false) ==> exists|k: ErrorKind, i: int, j: int| #[trigger]
            first_error(m, call, 0, true, false, k, i, j) && result(m, call) == Val::Error(k),
{
    lemma_numbers_of_arguments(m, call, rules(), 0, true, false, true, false);
    match numbers(m, call, rules(), 0) {
        Ok(ns) => {
            let places = choose|places: Seq<(int, int)>| numbers_of_arguments(m, call, 0, true, false, ns, places);
            crate::func_max::lemma_largest(m, call, true, false, ns, places);
        },
        Err(k) => {
            let (i, j) = choose|i: int, j: int| first_error(m, call, 0, true, false, k, i, j);
            assert(first_error(m, call, 0, true, false, k, i, j) && result(m, call) == Val::Error(k));
        },
    }
}

} // verus!
