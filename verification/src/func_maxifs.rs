//! `MAXIFS(max_range, criteria_range1, criteria1, ...)`: the largest number among the cells
//! that meet every criterion.
//!
//! The ranges must have the shape of the first, and criteria come in pairs with
//! ranges; else the result is a value error. Of the cells that meet the criteria
//! only numbers count, and the first error is the result; without any number it
//! is zero.

use crate::args::{ready, CallArgs, CallModel};
use crate::conditional::{
    counts_somewhere, counts_with, fails_first_at, has_pairs, in_order, law_criteria_settle_first, law_ranges_must_fit,
    lemma_matched_counts, matched, matched_numbers, no_place_fails, range_fits, unsettled_before,
};
use crate::func_max::result_of;
use crate::model::{EvalContext, ValueModel};
use crate::number::{counted, Number};
use crate::order::{find_greatest, greatest};
use crate::value::{ErrorKind, Val, Value};
use vstd::prelude::*;

verus! {

/// The result of the call.
pub open spec fn result(m: &ValueModel, call: CallModel) -> Val {
    result_of(matched(m, call))
}

/// Evaluates the call.
pub fn eval<A: CallArgs>(ctx: &EvalContext, args: &A) -> (v: Value)
    requires
        ready(args),
    ensures
        v@ == result(&ctx.model, args.call()),
{
    match matched_numbers(&ctx.model, args) {
        Err(k) => Value::Error(k),
        Ok(ns) => match find_greatest(&ns) {
            Some(n) => Value::Number(n),
            None => Value::Number(Number::from_count(0)),
        },
    }
}

/// The number `g` is the largest of those that the places of the first range count with,
/// or zero where none does.
pub open spec fn largest_accepted(m: &ValueModel, call: CallModel, n: int, h: nat, w: nat, g: Number) -> bool {
    &&& forall|r: int, c: int|
        0 <= r < h && 0 <= c < w ==> (#[trigger] counts_with(m, call, n, r, c) matches Some(x) ==> x.units() <= g.units())
    &&& counts_somewhere(m, call, n, h, w, g) || (g == counted(0) && forall|r: int, c: int|
        0 <= r < h && 0 <= c < w ==> (#[trigger] counts_with(m, call, n, r, c)) is None)
}

/// The law of the result: where no criterion settles the call and the ranges of all `n`
/// pairs have the extent of the first range, the result is the largest number of the
/// first range at a place that the criterion of each pair accepts, and zero where there
/// is none; a place that cannot be judged or used ends the call with its error, the
/// first one row by row.
pub proof fn law_result_is_the_largest_accepted(m: &ValueModel, call: CallModel, n: int, h: nat, w: nat)
    requires
        in_order(m, call, n, h, w),
    ensures
        no_place_fails(m, call, n, h, w) ==> (result(m, call) matches Val::Number(g) && largest_accepted(
            m,
            call,
            n,
            h,
            w,
            g,
        )),
        !no_place_fails(m, call, n, h, w) ==> exists|e: ErrorKind, r: int, c: int| #[trigger]
            fails_first_at(m, call, n, h, w, r, c, e) && result(m, call) == Val::Error(e),
{
    lemma_matched_counts(m, call, n, h, w);
    match matched(m, call) {
        Ok(ns) => {
            if ns.len() > 0 {
                crate::order::law_greatest_is_maximum(ns);
                let g = greatest(ns)->0;
                let p = choose|p: int|
                    0 <= p < ns.len() && greatest(ns) == Some(#[trigger] ns[p]) && (forall|q: int|
                        0 <= q < ns.len() ==> (#[trigger] ns[q]).units() <= ns[p].units());
                assert(largest_accepted(m, call, n, h, w, ns[p]));
            }
        },
        Err(e) => {
            let (r, c) = choose|r: int, c: int| fails_first_at(m, call, n, h, w, r, c, e);
            assert(fails_first_at(m, call, n, h, w, r, c, e) && result(m, call) == Val::Error(e));
        },
    }
}

/// The law of the refusals: without one or more whole pairs the result is a value error;
/// the first criterion that settles the call decides before the ranges are looked at;
/// then the first range that cannot be walked or has another extent does.
pub proof fn law_refusals_come_in_order(m: &ValueModel, call: CallModel, n: int, j: int)
    ensures
        call.args.len() % 2 == 0 || call.args.len() < 3 ==> result(m, call) == Val::Error(ErrorKind::Value),
        has_pairs(call, n) && 1 <= j <= n && m.settled_by(call.scalar(2 * j)) is Some && unsettled_before(m, call, j)
            ==> result(m, call) == Val::Error(m.settled_by(call.scalar(2 * j))->0),
        has_pairs(call, n) && unsettled_before(m, call, n + 1) ==> {
            &&& call.arg(0).rows matches Err(e) ==> result(m, call) == Val::Error(e)
            &&& call.arg(0).rows is Ok && 1 <= j <= n && !range_fits(call, j) && (forall|i: int|
                1 <= i < j ==> #[trigger] range_fits(call, i)) ==> result(m, call) == Val::Error(
                match call.arg(2 * j - 1).rows {
                    Err(e) => e,
                    Ok(_) => ErrorKind::Value,
                },
            )
        },
{
    law_criteria_settle_first(m, call, n, j);
    if has_pairs(call, n) && unsettled_before(m, call, n + 1) {
        law_ranges_must_fit(m, call, n, j);
    }
}

} // verus!
