//! `RANK(number, ref, [order])`: the place of a number in a list of numbers.
//!
//! Places count from the largest number down, or from the smallest up where
//! `order` is not zero; equal numbers share the first of their places. Of a range
//! or array constant only the numbers count. A number that is not in the list is
//! not available. Numbers are compared exactly.

use crate::aggregate::{
    all_usable, arg_items, cells_with, collect_arg, first_unusable, gather, gathered, lemma_cells_with, lemma_one_range,
    own_error, Rules, Slot,
};
use crate::args::{ready, ArgShape, CallArgs, CallModel};
use crate::model::{EvalContext, ValueModel};
use crate::number::{counted, Number};
use crate::value::{ErrorKind, Val, Value};
use vstd::prelude::*;

verus! {

/// A blank counts as zero; of cells only numbers count.
pub open spec fn rules() -> Rules {
    Rules { references: false, omitted: Some(Slot::Coerce), blank: Slot::Coerce, logicals: false }
}

/// The numbers of the list.
pub open spec fn ref_numbers(m: &ValueModel, call: CallModel) -> Result<Seq<Number>, ErrorKind> {
    gather(arg_items(m, call.arg(1), rules()))
}

/// How many of the numbers are above `n`.
pub open spec fn above(ns: Seq<Number>, n: Number) -> nat {
    ns.filter(|x: Number| x.units() > n.units()).len()
}

/// How many of the numbers are below `n`.
pub open spec fn below(ns: Seq<Number>, n: Number) -> nat {
    ns.filter(|x: Number| x.units() < n.units()).len()
}

/// How many of the numbers have the value of `n`.
pub open spec fn level(ns: Seq<Number>, n: Number) -> nat {
    ns.filter(|x: Number| x.units() == n.units()).len()
}

/// The place of `n` in the list.
pub open spec fn rank_of(ns: Seq<Number>, n: Number, ascending: bool) -> nat {
    1 + if ascending {
        below(ns, n)
    } else {
        above(ns, n)
    }
}

/// The result of the call.
pub open spec fn result(m: &ValueModel, call: CallModel) -> Val {
    match (m.numeric(call.scalar(0)), ref_numbers(m, call), m.numeric(call.scalar(2))) {
        (Err(k), _, _) => Val::Error(k),
        (Ok(_), Err(k), _) => Val::Error(k),
        (Ok(_), Ok(_), Err(k)) => Val::Error(k),
        (Ok(n), Ok(ns), Ok(order)) => if exists|i: int|
            0 <= i < ns.len() && (#[trigger] ns[i]).units() == n.units() {
            Val::Number(counted(rank_of(ns, n, order.units() != 0)))
        } else {
            Val::Error(ErrorKind::Na)
        },
    }
}

/// Gathers the numbers of the list.
pub fn collect_ref_numbers<A: CallArgs>(ctx: &EvalContext, args: &A) -> (r: Result<
    Vec<Number>,
    ErrorKind,
>)
    requires
        ready(args),
    ensures
        gathered(r, ref_numbers(&ctx.model, args.call())),
{
    let rules = Rules {
        references: false,
        omitted: Some(Slot::Coerce),
        blank: Slot::Coerce,
        logicals: false,
    };
    collect_arg(&ctx.model, args, 1, rules)
}

/// Evaluates the call.
pub fn eval<A: CallArgs>(ctx: &EvalContext, args: &A) -> (v: Value)
    requires
        ready(args),
    ensures
        v@ == result(&ctx.model, args.call()),
{
    let n = match ctx.model.to_number(&args.eval_scalar(0)) {
        Ok(n) => n,
        Err(k) => {
            return Value::Error(k);
        },
    };
    let ns = match collect_ref_numbers(ctx, args) {
        Ok(ns) => ns,
        Err(k) => {
            return Value::Error(k);
        },
    };
    let ascending = match ctx.model.to_number(&args.eval_scalar(2)) {
        Ok(order) => !order.is_zero(),
        Err(k) => {
            return Value::Error(k);
        },
    };
    let mut found = false;
    let mut better: u64 = 0;
    for i in 0..ns.len()
        invariant
            found == (exists|j: int| 0 <= j < i && (#[trigger] ns@[j]).units() == n.units()),
            better <= i,
            found ==> better < i,
            better + 1 == rank_of(ns@.take(i as int), n, ascending),
    {
        proof {
            reveal(Seq::filter);
            assert(ns@.take(i + 1).drop_last() == ns@.take(i as int));
            assert(ns@.take(i + 1).last() == ns@[i as int]);
        }
        if ns[i].same(n) {
            found = true;
        }
        let ahead = if ascending {
            ns[i].lt(n)
        } else {
            n.lt(ns[i])
        };
        if ahead {
            better = better + 1;
        }
    }
    assert(ns@.take(ns@.len() as int) == ns@);
    if !found {
        return Value::Error(ErrorKind::Na);
    }
    assert(result(&ctx.model, args.call()) == Val::Number(counted(rank_of(ns@, n, ascending))));
    Value::Number(Number::from_count(better as u128 + 1))
}

/// The law of the two orders: the place from the top, the place from the bottom
/// and the number of equal numbers add up to the length of the list and two.
pub proof fn law_places_add_up(ns: Seq<Number>, n: Number)
    ensures
        rank_of(ns, n, true) + rank_of(ns, n, false) + level(ns, n) == ns.len() + 2,
    decreases ns.len(),
{
    reveal(Seq::filter);
    if ns.len() > 0 {
        law_places_add_up(ns.drop_last(), n);
    }
}

/// The law of ties: equal numbers have the same place, in either order.
pub proof fn law_equal_numbers_share_a_place(ns: Seq<Number>, a: Number, b: Number, ascending: bool)
    requires
        a.units() == b.units(),
    ensures
        rank_of(ns, a, ascending) == rank_of(ns, b, ascending),
{
    assert((|x: Number| x.units() > a.units()) =~= (|x: Number| x.units() > b.units()));
    assert((|x: Number| x.units() < a.units()) =~= (|x: Number| x.units() < b.units()));
}

/// The law of the place: of a range or array constant whose cells can all be used, the
/// place of a number that some cell holds is one past the number of cells above it, or
/// below it where the order is not zero; a number that no cell holds is not available.
pub proof fn law_place_counts_the_cells_ahead(m: &ValueModel, call: CallModel, n: Number, order: Number)
    requires
        call.arg(1).shape == ArgShape::Range || call.arg(1).shape == ArgShape::Array,
        all_usable(call.arg(1).cells),
        m.numeric(call.scalar(0)) == Ok::<Number, ErrorKind>(n),
        m.numeric(call.scalar(2)) == Ok::<Number, ErrorKind>(order),
    ensures
        result(m, call) == if exists|j: int|
            0 <= j < call.arg(1).cells.len() && (#[trigger] call.arg(1).cells[j] matches Val::Number(x) && x.units()
                == n.units()) {
            Val::Number(
                counted(
                    1 + cells_with(
                        call.arg(1).cells,
                        if order.units() == 0 {
                            |x: Number| x.units() > n.units()
                        } else {
                            |x: Number| x.units() < n.units()
                        },
                    ).len(),
                ),
            )
        } else {
            Val::Error(ErrorKind::Na)
        },
{
    let cells = call.arg(1).cells;
    lemma_one_range(m, call.arg(1), rules());
    lemma_cells_with(cells, |x: Number| x.units() > n.units());
    lemma_cells_with(cells, |x: Number| x.units() < n.units());
    let ns = ref_numbers(m, call)->Ok_0;
    let places = choose|places: Seq<int>| crate::aggregate::numbers_of_cells(ns, cells, places);
    if exists|j: int| 0 <= j < cells.len() && (#[trigger] cells[j] matches Val::Number(x) && x.units() == n.units()) {
        let j = choose|j: int|
            0 <= j < cells.len() && (#[trigger] cells[j] matches Val::Number(x) && x.units() == n.units());
        assert(places.contains(j));
        let p = choose|p: int| 0 <= p < places.len() && places[p] == j;
        assert(ns[p].units() == n.units());
    } else {
        assert forall|i: int| 0 <= i < ns.len() implies (#[trigger] ns[i]).units() != n.units() by {
            assert(cells[places[i]] == Val::Number(ns[i]));
        }
    }
}

/// The law of the errors: an error of the number comes first, then the first error of
/// the cells, then one of the order.
pub proof fn law_errors_come_in_order(m: &ValueModel, call: CallModel)
    requires
        call.arg(1).shape == ArgShape::Range || call.arg(1).shape == ArgShape::Array,
    ensures
        m.numeric(call.scalar(0)) matches Err(k) ==> result(m, call) == Val::Error(k),
        m.numeric(call.scalar(0)) is Ok && !all_usable(call.arg(1).cells) ==> exists|i: int| #[trigger]
            first_unusable(call.arg(1).cells, i) && result(m, call) == Val::Error(own_error(call.arg(1).cells[i])),
        m.numeric(call.scalar(0)) is Ok && all_usable(call.arg(1).cells) ==> (m.numeric(call.scalar(2)) matches Err(k)
            ==> result(m, call) == Val::Error(k)),
{
    let cells = call.arg(1).cells;
    lemma_one_range(m, call.arg(1), rules());
    if m.numeric(call.scalar(0)) is Ok && !all_usable(cells) {
        let k = ref_numbers(m, call)->Err_0;
        let i = choose|i: int| #[trigger] first_unusable(cells, i) && k == own_error(cells[i]);
        assert(first_unusable(cells, i) && result(m, call) == Val::Error(own_error(cells[i])));
    }
}

/// The law of a single value: for a list that is one value, a blank counting as zero, the
/// place of a number equal to it is the first, and another number is not available. An
/// error of the number comes first, then that of the value, then that of the order.
pub proof fn law_single_value_is_the_list(m: &ValueModel, call: CallModel)
    requires
        call.arg(1).shape == ArgShape::Scalar,
    ensures
        match (m.numeric(call.scalar(0)), m.numeric(call.arg(1).array_scalar), m.numeric(call.scalar(2))) {
            (Err(k), _, _) => result(m, call) == Val::Error(k),
            (Ok(_), Err(k), _) => result(m, call) == Val::Error(k),
            (Ok(_), Ok(_), Err(k)) => result(m, call) == Val::Error(k),
            (Ok(n), Ok(x), Ok(_)) => result(m, call) == (if x.units() == n.units() {
                Val::Number(counted(1))
            } else {
                Val::Error(ErrorKind::Na)
            }),
        },
{
    let items = arg_items(m, call.arg(1), rules());
    assert(items.drop_last() =~= Seq::empty());
    reveal_with_fuel(gather, 3);
    if m.numeric(call.scalar(0)) is Ok && ref_numbers(m, call) is Ok {
        let n = m.numeric(call.scalar(0))->Ok_0;
        let ns = ref_numbers(m, call)->Ok_0;
        if ns.len() == 1 {
            reveal_with_fuel(Seq::filter, 3);
            assert(ns.drop_last() =~= Seq::<Number>::empty());
            if ns[0].units() == n.units() {
                assert(above(ns, n) == 0 && below(ns, n) == 0);
            }
        }
    }
}

} // verus!
