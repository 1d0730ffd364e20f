//! `LARGE(array, k)`: the number that is `k`th from the top.
//!
//! Of a range or array constant only the numbers count; a single value counts as
//! the number it stands for, and a blank is refused. A `k` with a fraction is
//! refused; one below one, or above the count of numbers, is a number error.

use crate::aggregate::{
    all_usable, arg_items, collect_arg, first_unusable, gather, gathered, lemma_one_range, numbers_of_cells, own_error, Rules,
    Slot,
};
use crate::args::{ready, ArgShape, CallArgs, CallModel};
use crate::model::{EvalContext, ValueModel};
use crate::number::{lemma_whole_ones, one, Number};
use crate::order::{ascending_order_of, greatest, law_ends_are_extremes, least, sort, sorted};
use crate::value::{ErrorKind, Val, Value};
use vstd::prelude::*;

verus! {

/// A blank that is no cell is refused; of cells only numbers count.
pub open spec fn rules() -> Rules {
    Rules { references: false, omitted: Some(Slot::Refuse), blank: Slot::Refuse, logicals: false }
}

/// The numbers of the array.
pub open spec fn array_numbers(m: &ValueModel, call: CallModel) -> Result<Seq<Number>, ErrorKind> {
    gather(arg_items(m, call.arg(0), rules()))
}

/// The place from the top that `k` asks for among `count` numbers.
pub open spec fn place(k: Number, count: int) -> Result<int, ErrorKind> {
    if !k.whole() {
        Err(ErrorKind::Unsupported)
    } else if 1 <= k.units() / one() <= count {
        Ok(k.units() / one())
    } else {
        Err(ErrorKind::Num)
    }
}

/// The number at place `k` from the top.
pub open spec fn kth_largest(ns: Seq<Number>, k: int) -> Number {
    sorted(ns)[ns.len() - k]
}

/// The result of the call.
pub open spec fn result(m: &ValueModel, call: CallModel) -> Val {
    match (array_numbers(m, call), m.numeric(call.scalar(1))) {
        (Err(e), _) => Val::Error(e),
        (Ok(_), Err(e)) => Val::Error(e),
        (Ok(ns), Ok(k)) => match place(k, ns.len() as int) {
            Err(e) => Val::Error(e),
            Ok(p) => Val::Number(kth_largest(ns, p)),
        },
    }
}

/// Gathers the numbers of the array.
pub fn collect_array_numbers<A: CallArgs>(ctx: &EvalContext, args: &A) -> (r: Result<
    Vec<Number>,
    ErrorKind,
>)
    requires
        ready(args),
    ensures
        gathered(r, array_numbers(&ctx.model, args.call())),
{
    let rules = Rules {
        references: false,
        omitted: Some(Slot::Refuse),
        blank: Slot::Refuse,
        logicals: false,
    };
    collect_arg(&ctx.model, args, 0, rules)
}

/// The place from the top that the second argument asks for.
pub fn resolve_k<A: CallArgs>(ctx: &EvalContext, args: &A, count: usize) -> (r: Result<
    usize,
    ErrorKind,
>)
    requires
        ready(args),
    ensures
        match ctx.model.numeric(args.call().scalar(1)) {
            Err(e) => r == Err::<usize, ErrorKind>(e),
            Ok(k) => match (place(k, count as int), r) {
                (Ok(p), Ok(q)) => p == q && 1 <= q <= count,
                (Err(e), Err(f)) => e == f,
                _ => false,
            },
        },
{
    let k = match ctx.model.to_number(&args.eval_scalar(1)) {
        Ok(n) => n,
        Err(e) => {
            return Err(e);
        },
    };
    if !k.is_whole() {
        return Err(ErrorKind::Unsupported);
    }
    match k.position(count) {
        Some(p) => Ok(p),
        None => Err(ErrorKind::Num),
    }
}

/// Evaluates the call.
pub fn eval<A: CallArgs>(ctx: &EvalContext, args: &A) -> (v: Value)
    requires
        ready(args),
    ensures
        v@ == result(&ctx.model, args.call()),
{
    let ns = match collect_array_numbers(ctx, args) {
        Ok(ns) => ns,
        Err(e) => {
            return Value::Error(e);
        },
    };
    let count = ns.len();
    match resolve_k(ctx, args, count) {
        Err(e) => Value::Error(e),
        Ok(k) => {
            let s = sort(&ns);
            Value::Number(s[count - k])
        },
    }
}

/// The law of the ends: the number at the first place has the value of the
/// maximum, and the number at the last place that of the minimum.
pub proof fn law_first_is_maximum_last_is_minimum(ns: Seq<Number>)
    requires
        ns.len() > 0,
    ensures
        kth_largest(ns, 1).units() == greatest(ns)->0.units(),
        kth_largest(ns, ns.len() as int).units() == least(ns)->0.units(),
{
    law_ends_are_extremes(ns);
    crate::order::lemma_sorted(ns);
}

/// The law of places: a later place never holds a larger number.
pub proof fn law_places_descend(ns: Seq<Number>, j: int, k: int)
    requires
        1 <= j <= k <= ns.len(),
    ensures
        kth_largest(ns, k).units() <= kth_largest(ns, j).units(),
{
    crate::order::lemma_sorted(ns);
}

/// The law of the numbers: of a range or array constant whose cells can all be used,
/// the numbers have an ascending order in which the result stands `q`th from the end,
/// where `q` is what the second argument stands for. A `q` that no number has is a
/// number error, and one that is not whole is refused. An error of the cells comes
/// before one of the second argument.
pub proof fn law_result_is_qth_from_the_top(m: &ValueModel, call: CallModel)
    requires
        call.arg(0).shape == ArgShape::Range || call.arg(0).shape == ArgShape::Array,
    ensures
        !all_usable(call.arg(0).cells) ==> exists|i: int| #[trigger]
            first_unusable(call.arg(0).cells, i) && result(m, call) == Val::Error(own_error(call.arg(0).cells[i])),
        all_usable(call.arg(0).cells) ==> exists|ns: Seq<Number>, places: Seq<int>, s: Seq<Number>|
            #![trigger numbers_of_cells(ns, call.arg(0).cells, places), ascending_order_of(s, ns)]
            numbers_of_cells(ns, call.arg(0).cells, places) && ascending_order_of(s, ns) && (m.numeric(call.scalar(1))
                matches Ok(k) ==> (forall|q: int|
                k.units() == #[trigger] (q * one()) ==> result(m, call) == if 1 <= q <= s.len() {
                    Val::Number(s[s.len() - q])
                } else {
                    Val::Error(ErrorKind::Num)
                }) && (k.units() % one() != 0 ==> result(m, call) == Val::Error(ErrorKind::Unsupported))),
        all_usable(call.arg(0).cells) ==> (m.numeric(call.scalar(1)) matches Err(e) ==> result(m, call) == Val::Error(e)),
{
    lemma_one_range(m, call.arg(0), rules());
    let cells = call.arg(0).cells;
    match array_numbers(m, call) {
        Ok(ns) => {
            let places = choose|places: Seq<int>| numbers_of_cells(ns, cells, places);
            let s = sorted(ns);
            crate::order::lemma_sorted(ns);
            assert(numbers_of_cells(ns, cells, places) && ascending_order_of(s, ns));
            if let Ok(k) = m.numeric(call.scalar(1)) {
                vstd::arithmetic::power2::lemma_pow2_pos(1074);
                assert forall|q: int| k.units() == #[trigger] (q * one()) implies result(m, call) == if 1 <= q <= s.len() {
                    Val::Number(s[s.len() - q])
                } else {
                    Val::Error(ErrorKind::Num)
                } by {
                    lemma_whole_ones(q);
                }
            }
        },
        Err(k) => {
            let i = choose|i: int| #[trigger] first_unusable(cells, i) && k == own_error(cells[i]);
            assert(first_unusable(cells, i) && result(m, call) == Val::Error(own_error(cells[i])));
        },
    }
}

/// The law of a single value: it is the one number of the list, at the first place.
pub proof fn law_single_value_is_the_list(m: &ValueModel, call: CallModel)
    requires
        call.arg(0).shape == ArgShape::Scalar,
    ensures
        call.arg(0).array_scalar is Blank ==> result(m, call) == Val::Error(ErrorKind::Unsupported),
        m.numeric(call.arg(0).array_scalar) matches Err(e) ==> result(m, call) == Val::Error(e),
        !(call.arg(0).array_scalar is Blank) && (m.numeric(call.scalar(1)) matches Ok(k) && k.units() == one())
            ==> result(m, call) == match m.numeric(call.arg(0).array_scalar) {
            Ok(n) => Val::Number(n),
            Err(e) => Val::Error(e),
        },
{
    let items = arg_items(m, call.arg(0), rules());
    assert(items.drop_last() == Seq::<crate::model::NumericArg>::empty());
    reveal_with_fuel(gather, 2);
    vstd::arithmetic::power2::lemma_pow2_pos(1074);
    if let Ok(n) = m.numeric(call.arg(0).array_scalar) {
        if !(call.arg(0).array_scalar is Blank) {
            let ns = array_numbers(m, call)->Ok_0;
            assert(ns == seq![n]);
            crate::order::lemma_sorted(ns);
            assert(sorted(ns).to_multiset().contains(sorted(ns)[0])) by {
                broadcast use vstd::seq_lib::group_to_multiset_ensures;
                assert(sorted(ns).contains(sorted(ns)[0]));
            }
            assert(ns.to_multiset().contains(sorted(ns)[0]));
            assert(ns.contains(sorted(ns)[0])) by {
                broadcast use vstd::seq_lib::group_to_multiset_ensures;
            }
            lemma_whole_ones(1);
        }
    }
}

/// The law of the other places: a list of one value has no second place, so that a `k`
/// other than one is a number error where it is whole, and an empty slot is refused.
pub proof fn law_single_value_has_one_place(m: &ValueModel, call: CallModel, q: int)
    ensures
        call.arg(0).shape == ArgShape::Scalar && !(call.arg(0).array_scalar is Blank) && m.numeric(call.arg(0).array_scalar) is Ok
            && (m.numeric(call.scalar(1)) matches Ok(k) && k.units() == q * one()) && q != 1 ==> result(m, call) == Val::Error(
            ErrorKind::Num,
        ),
        call.arg(0).shape == ArgShape::Omitted && call.arg(0).array_scalar is Blank ==> result(m, call) == Val::Error(
            ErrorKind::Unsupported,
        ),
{
    lemma_whole_ones(q);
    let items = arg_items(m, call.arg(0), rules());
    if items.len() == 1 {
        assert(items.drop_last() =~= Seq::empty());
    }
    reveal_with_fuel(gather, 3);
}

} // verus!
