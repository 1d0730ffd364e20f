//! `MEDIAN(number1, [number2], ...)`: the number in the middle, or the mean of
//! the two numbers in the middle.
//!
//! Single values count as the numbers they stand for; a blank is refused. Of
//! ranges, array constants and references to one cell only the numbers count.
//! The first error is the result; without any number it is a number error.

use crate::aggregate::{
    collect, first_error, lemma_numbers_of_arguments, no_error, numbers, numbers_of_arguments, slots_are_blank, Rules, Slot,
};
use crate::args::{ready, CallArgs, CallModel};
use crate::model::{EvalContext, ValueModel};
use crate::number::Number;
use crate::order::{ascending_order_of, lemma_sorted, sort, sorted};
use crate::value::ErrorKind;
use vstd::prelude::*;

verus! {

/// What the median is.
#[derive(Clone, Copy, Debug, PartialEq)]
pub enum Middle {
    /// The number itself.
    One(Number),
    /// The mean of two numbers, of which the first is not above the second.
    Between(Number, Number),
}

/// A blank that is no reference is refused; of cells only numbers count.
pub open spec fn rules() -> Rules {
    Rules { references: true, omitted: Some(Slot::Refuse), blank: Slot::Refuse, logicals: false }
}

/// The middle of some numbers.
pub open spec fn middle(ns: Seq<Number>) -> Middle {
    let s = sorted(ns);
    let half = ns.len() / 2;
    if ns.len() % 2 == 1 {
        Middle::One(s[half as int])
    } else {
        Middle::Between(s[half - 1], s[half as int])
    }
}

/// The outcome of the call.
pub open spec fn outcome(m: &ValueModel, call: CallModel) -> Result<Middle, ErrorKind> {
    match numbers(m, call, rules(), 0) {
        Err(k) => Err(k),
        Ok(ns) => if ns.len() == 0 {
            Err(ErrorKind::Num)
        } else {
            Ok(middle(ns))
        },
    }
}

/// The median of the call, or the error that it results in.
pub fn terms<A: CallArgs>(ctx: &EvalContext, args: &A) -> (r: Result<Middle, ErrorKind>)
    requires
        ready(args),
    ensures
        r == outcome(&ctx.model, args.call()),
{
    let rules = Rules {
        references: true,
        omitted: Some(Slot::Refuse),
        blank: Slot::Refuse,
        logicals: false,
    };
    let ns = match collect(&ctx.model, args, 0, rules) {
        Ok(ns) => ns,
        Err(k) => {
            return Err(k);
        },
    };
    let n = ns.len();
    if n == 0 {
        return Err(ErrorKind::Num);
    }
    let s = sort(&ns);
    let half = n / 2;
    if n % 2 == 1 {
        Ok(Middle::One(s[half]))
    } else {
        Ok(Middle::Between(s[half - 1], s[half]))
    }
}

/// The law of the middle: at least half of the numbers are not above the median
/// and at least half are not below it. In ascending order these are the numbers up
/// to the middle and those from the middle on; and the median is among the numbers.
pub proof fn law_median_splits(ns: Seq<Number>)
    requires
        ns.len() > 0,
    ensures
        match middle(ns) {
            Middle::One(n) => {
                &&& forall|i: int|
                    0 <= i <= ns.len() / 2 ==> (#[trigger] sorted(ns)[i]).units() <= n.units()
                &&& forall|i: int|
                    ns.len() / 2 <= i < ns.len() ==> n.units() <= (#[trigger] sorted(ns)[i]).units()
            },
            Middle::Between(a, b) => {
                &&& a.units() <= b.units()
                &&& forall|i: int|
                    0 <= i < ns.len() / 2 ==> (#[trigger] sorted(ns)[i]).units() <= a.units()
                &&& forall|i: int|
                    ns.len() / 2 <= i < ns.len() ==> b.units() <= (#[trigger] sorted(ns)[i]).units()
            },
        },
{
    lemma_sorted(ns);
}

/// The law of order independence: the same numbers in another order have the
/// same median.
pub proof fn law_median_ignores_order(a: Seq<Number>, b: Seq<Number>)
    requires
        a.to_multiset() == b.to_multiset(),
    ensures
        sorted(a) == sorted(b),
        middle(a) == middle(b),
{
    crate::order::law_sorting_ignores_order(a, b);
    lemma_sorted(a);
    lemma_sorted(b);
}

/// The law of the median: where no argument holds an error and one holds a number, the
/// numbers of the arguments have an ascending order in which the median stands in the
/// middle, or is between the two that do; without any number the outcome is a number
/// error, and else the first error.
pub proof fn law_median_stands_in_the_middle(m: &ValueModel, call: CallModel)
    requires
        slots_are_blank(call),
    ensures
        no_error(m, call, 0, true, true) ==> exists|ns: Seq<Number>, places: Seq<(int, int)>, s: Seq<Number>|
            #![trigger numbers_of_arguments(m, call, 0, false, false, ns, places), ascending_order_of(s, ns)]
            numbers_of_arguments(m, call, 0, false, false, ns, places) && ascending_order_of(s, ns) && match outcome(
                m,
                call,
            ) {
                Ok(Middle::One(n)) => s.len() % 2 == 1 && n == s[(s.len() - 1) / 2],
                Ok(Middle::Between(a, b)) => s.len() % 2 == 0 && s.len() > 0 && a == s[s.len() / 2 - 1] && b
                    == s[(s.len() / 2) as int],
                Err(k) => s.len() == 0 && k == ErrorKind::Num,
            },
        !no_error(m, call, 0, true, true) ==> exists|k: ErrorKind, i: int, j: int| #[trigger]
            first_error(m, call, 0, true, true, k, i, j) && outcome(m, call) == Err::<Middle, ErrorKind>(k),
{
    lemma_numbers_of_arguments(m, call, rules(), 0, false, false, true, true);
    match numbers(m, call, rules(), 0) {
        Ok(ns) => {
            let places = choose|places: Seq<(int, int)>| numbers_of_arguments(m, call, 0, false, false, ns, places);
            lemma_sorted(ns);
            assert(numbers_of_arguments(m, call, 0, false, false, ns, places) && ascending_order_of(sorted(ns), ns));
        },
        Err(k) => {
            let (i, j) = choose|i: int, j: int| first_error(m, call, 0, true, true, k, i, j);
            assert(first_error(m, call, 0, true, true, k, i, j) && outcome(m, call) == Err::<Middle, ErrorKind>(k));
        },
    }
}

} // verus!
