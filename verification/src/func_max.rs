//! `MAX(number1, [number2], ...)`: the largest number.
//!
//! Single values count as the numbers they stand for; whether a blank counts is
//! not settled, and it is refused. Of ranges, array constants and references to
//! one cell only the numbers count. The first error is the result; without any
//! number it is zero. Of equal numbers the first is handed back.

use crate::aggregate::{
    collect, comes_before, first_error, lemma_numbers_of_arguments, no_error, number_at, numbers, numbers_of_arguments,
    places_in, slots_are_blank, Rules, Slot,
};
use crate::args::{ready, CallArgs, CallModel};
use crate::model::{EvalContext, ValueModel};
use crate::number::{counted, Number};
use crate::order::{find_greatest, greatest};
use crate::value::{ErrorKind, Val, Value};
use vstd::prelude::*;

verus! {

/// A blank that is no reference is refused; of cells only numbers count.
pub open spec fn rules() -> Rules {
    Rules {
        references: true,
        omitted: Some(Slot::Refuse),
        blank: Slot::Refuse,
        logicals: false,
    }
}

/// The result of the numbers of the call.
pub open spec fn result_of(ns: Result<Seq<Number>, ErrorKind>) -> Val {
    match ns {
        Err(k) => Val::Error(k),
        Ok(ns) => match greatest(ns) {
            Some(n) => Val::Number(n),
            None => Val::Number(counted(0)),
        },
    }
}

/// The result of the call.
pub open spec fn result(m: &ValueModel, call: CallModel) -> Val {
    result_of(numbers(m, call, rules(), 0))
}

/// Evaluates the call.
pub fn eval<A: CallArgs>(ctx: &EvalContext, args: &A) -> (v: Value)
    requires
        ready(args),
    ensures
        v@ == result(&ctx.model, args.call()),
{
    let rules = Rules {
        references: true,
        omitted: Some(Slot::Refuse),
        blank: Slot::Refuse,
        logicals: false,
    };
    match collect(&ctx.model, args, 0, rules) {
        Err(k) => Value::Error(k),
        Ok(ns) => match find_greatest(&ns) {
            Some(n) => Value::Number(n),
            None => Value::Number(Number::from_count(0)),
        },
    }
}

/// The number `n` stands at place `j` of argument `i`, and every number at an earlier
/// place is smaller than it.
pub open spec fn stands_first(
    m: &ValueModel,
    call: CallModel,
    logicals: bool,
    zero_blank: bool,
    n: Number,
    i: int,
    j: int,
) -> bool {
    &&& 0 <= i < call.args.len()
    &&& 0 <= j < places_in(call.arg(i))
    &&& number_at(m, call.arg(i), j, logicals, zero_blank) == Some(n)
    &&& forall|a: int, b: int|
        0 <= a < call.args.len() && 0 <= b < places_in(call.arg(a)) && comes_before((a, b), (i, j)) ==> (
        #[trigger] number_at(m, call.arg(a), b, logicals, zero_blank) matches Some(x) ==> x.units() < n.units())
}

/// The number `n` is the largest of all arguments, or zero where they hold no number.
pub open spec fn largest_of_arguments(
    m: &ValueModel,
    call: CallModel,
    logicals: bool,
    zero_blank: bool,
    n: Number,
) -> bool {
    &&& forall|a: int, b: int|
        0 <= a < call.args.len() && 0 <= b < places_in(call.arg(a)) ==> (#[trigger] number_at(
            m,
            call.arg(a),
            b,
            logicals,
            zero_blank,
        ) matches Some(x) ==> x.units() <= n.units())
    &&& (exists|i: int, j: int| stands_first(m, call, logicals, zero_blank, n, i, j)) || (n == counted(0) && forall|
        a: int,
        b: int,
    |
        0 <= a < call.args.len() && 0 <= b < places_in(call.arg(a)) ==> (#[trigger] number_at(
            m,
            call.arg(a),
            b,
            logicals,
            zero_blank,
        )) is None)
}

/// The largest of gathered numbers is the largest of the arguments.
pub proof fn lemma_largest(
    m: &ValueModel,
    call: CallModel,
    lg: bool,
    zb: bool,
    ns: Seq<Number>,
    places: Seq<(int, int)>,
)
    requires
        numbers_of_arguments(m, call, 0, lg, zb, ns, places),
    ensures
        result_of(Ok(ns)) matches Val::Number(n) && largest_of_arguments(m, call, lg, zb, n),
{
    if ns.len() == 0 {
        assert forall|a: int, b: int|
            0 <= a < call.args.len() && 0 <= b < places_in(call.arg(a)) implies (#[trigger] number_at(
            m,
            call.arg(a),
            b,
            lg,
            zb,
        )) is None by {
            if number_at(m, call.arg(a), b, lg, zb) is Some {
                assert(places.contains((a, b)));
            }
        }
    } else {
        crate::order::law_greatest_is_maximum(ns);
        let n = greatest(ns)->0;
        let p = choose|p: int|
            0 <= p < ns.len() && greatest(ns) == Some(#[trigger] ns[p]) && (forall|q: int|
                0 <= q < p ==> (#[trigger] ns[q]).units() < ns[p].units()) && (forall|q: int|
                0 <= q < ns.len() ==> (#[trigger] ns[q]).units() <= ns[p].units());
        let (i, j) = places[p];
        assert forall|a: int, b: int|
            0 <= a < call.args.len() && 0 <= b < places_in(call.arg(a)) && (#[trigger] number_at(
                m,
                call.arg(a),
                b,
                lg,
                zb,
            )) is Some implies {
            let x = number_at(m, call.arg(a), b, lg, zb)->0;
            x.units() <= n.units() && (comes_before((a, b), (i, j)) ==> x.units() < n.units())
        } by {
            assert(places.contains((a, b)));
            let q = choose|q: int| 0 <= q < places.len() && places[q] == (a, b);
            assert(ns[q].units() <= ns[p].units());
            if comes_before((a, b), (i, j)) {
                if p < q {
                    assert(comes_before(places[p], places[q]));
                }
            }
        }
        assert(stands_first(m, call, lg, zb, n, i, j));
    }
}

/// The law of the maximum: where no argument holds an error, the result is the largest
/// number of all arguments, the first of equal ones, and zero where there is none;
/// else it is the first error. A blank that
/// is no cell is an error, and so is an empty slot.
pub proof fn law_result_is_the_largest(m: &ValueModel, call: CallModel)
    requires
        slots_are_blank(call),
    ensures
        no_error(m, call, 0, true, true) ==> (result(m, call) matches Val::Number(n) && largest_of_arguments(
            m,
            call,
            false,
            false,
            n,
        )),
        !no_error(m, call, 0, true, true) ==> exists|k: ErrorKind, i: int, j: int| #[trigger]
            first_error(m, call, 0, true, true, k, i, j) && result(m, call) == Val::Error(k),
{
    lemma_numbers_of_arguments(m, call, rules(), 0, false, false, true, true);
    match numbers(m, call, rules(), 0) {
        Ok(ns) => {
            let places = choose|places: Seq<(int, int)>| numbers_of_arguments(m, call, 0, false, false, ns, places);
            lemma_largest(m, call, false, false, ns, places);
        },
        Err(k) => {
            let (i, j) = choose|i: int, j: int| first_error(m, call, 0, true, true, k, i, j);
            assert(first_error(m, call, 0, true, true, k, i, j) && result(m, call) == Val::Error(k));
        },
    }
}

} // verus!
