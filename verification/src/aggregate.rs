//! Gathering the numbers of aggregate functions.
//!
//! Every argument yields items in order: a number, nothing, or an error. The
//! numbers of a call are those of all its items, and the first error among them
//! is the result of the whole call.

use crate::args::{eff_shape, ready, ArgModel, ArgShape, CallArgs, CallModel, EffShape};
use crate::model::{cell_number, coerce_cell, logical_number, number_of_logical, NumericArg, ValueModel};
use crate::number::{counted, Number};
use crate::value::{views, ErrorKind, Val, Value};
use vstd::prelude::*;

verus! {

/// What becomes of a slot that holds a blank.
#[derive(Clone, Copy, Debug, PartialEq, Eq, Structural)]
pub enum Slot {
    /// The call is refused.
    Refuse,
    /// The slot is passed over.
    Skip,
    /// The blank counts as zero.
    Coerce,
}

/// How an aggregate takes its arguments.
#[derive(Clone, Copy, Debug, PartialEq, Eq, Structural)]
pub struct Rules {
    /// A reference to one cell is treated as a range of one cell.
    pub references: bool,
    /// What becomes of an empty slot; none where empty slots are not looked at.
    pub omitted: Option<Slot>,
    /// What becomes of a blank that is no reference.
    pub blank: Slot,
    /// Logical values in ranges count as one and zero. Those in array constants
    /// never count.
    pub logicals: bool,
}

/// What a cell contributes where logical values count.
pub open spec fn cell_or_logical(v: Val) -> NumericArg {
    match v {
        Val::Bool(b) => NumericArg::Number(logical_number(b)),
        _ => cell_number(v),
    }
}

/// What a single value contributes: the number it stands for. `slot` says what
/// becomes of a blank.
pub open spec fn scalar_item(m: &ValueModel, v: Val, slot: Slot) -> NumericArg {
    if v is Blank && slot == Slot::Refuse {
        NumericArg::Error(ErrorKind::Unsupported)
    } else if v is Blank && slot == Slot::Skip {
        NumericArg::Skip
    } else {
        match m.numeric(v) {
            Ok(n) => NumericArg::Number(n),
            Err(k) => NumericArg::Error(k),
        }
    }
}

/// What an argument is to an aggregate with the given rules.
pub open spec fn role(arg: ArgModel, rules: Rules) -> EffShape {
    if rules.references || arg.shape != ArgShape::Scalar {
        arg.eff_shape()
    } else {
        EffShape::ScalarLiteral
    }
}

/// The items of an argument.
pub open spec fn arg_items(m: &ValueModel, arg: ArgModel, rules: Rules) -> Seq<NumericArg> {
    match role(arg, rules) {
        EffShape::Omitted => match rules.omitted {
            Some(slot) => seq![scalar_item(m, arg.array_scalar, slot)],
            None => Seq::empty(),
        },
        EffShape::ScalarLiteral => seq![scalar_item(m, arg.array_scalar, rules.blank)],
        EffShape::Aggregate => if rules.logicals && arg.shape != ArgShape::Array {
            arg.cells.map_values(|v: Val| cell_or_logical(v))
        } else {
            arg.cells.map_values(|v: Val| cell_number(v))
        },
    }
}

/// The items of the arguments from `from` up to `to`.
pub open spec fn call_items(m: &ValueModel, call: CallModel, rules: Rules, from: int, to: int) -> Seq<
    NumericArg,
>
    decreases to - from,
{
    if to <= from {
        Seq::empty()
    } else {
        call_items(m, call, rules, from, to - 1) + arg_items(m, call.arg(to - 1), rules)
    }
}

/// The numbers among the items, or the first error among them.
pub open spec fn gather(items: Seq<NumericArg>) -> Result<Seq<Number>, ErrorKind>
    decreases items.len(),
{
    if items.len() == 0 {
        Ok(Seq::empty())
    } else {
        match gather(items.drop_last()) {
            Err(k) => Err(k),
            Ok(ns) => match items.last() {
                NumericArg::Number(n) => Ok(ns.push(n)),
                NumericArg::Skip => Ok(ns),
                NumericArg::Error(k) => Err(k),
            },
        }
    }
}

/// The numbers of a call from argument `from` on, or its first error.
pub open spec fn numbers(m: &ValueModel, call: CallModel, rules: Rules, from: int) -> Result<
    Seq<Number>,
    ErrorKind,
> {
    gather(call_items(m, call, rules, from, call.args.len() as int))
}

/// Whether gathered numbers, or an error, are what a specification says.
pub open spec fn gathered(r: Result<Vec<Number>, ErrorKind>, s: Result<Seq<Number>, ErrorKind>) -> bool {
    match r {
        Ok(ns) => s == Ok::<Seq<Number>, ErrorKind>(ns@),
        Err(k) => s == Err::<Seq<Number>, ErrorKind>(k),
    }
}

/// Gathering goes on from the numbers gathered so far, and an error is final.
pub proof fn lemma_gather_adds(a: Seq<NumericArg>, b: Seq<NumericArg>)
    ensures
        gather(a) is Err ==> gather(a + b) == gather(a),
        gather(a) is Ok && gather(b) is Ok ==> gather(a + b) == Ok::<Seq<Number>, ErrorKind>(
            gather(a)->Ok_0 + gather(b)->Ok_0,
        ),
        gather(a) is Ok && gather(b) is Err ==> gather(a + b) == gather(b),
    decreases b.len(),
{
    if b.len() == 0 {
        assert(a + b == a);
        if gather(a) is Ok {
            assert(gather(a)->Ok_0 + gather(b)->Ok_0 == gather(a)->Ok_0);
        }
    } else {
        lemma_gather_adds(a, b.drop_last());
        assert((a + b).drop_last() == a + b.drop_last());
        assert((a + b).last() == b.last());
        if gather(a) is Ok && gather(b) is Ok {
            assert(gather(a + b)->Ok_0 == gather(a)->Ok_0 + gather(b)->Ok_0);
        }
    }
}

/// What a cell contributes where logical values count.
pub fn coerce_cell_or_logical(v: &Value) -> (r: NumericArg)
    ensures
        r == cell_or_logical(v@),
{
    match v {
        Value::Bool(b) => NumericArg::Number(number_of_logical(*b)),
        _ => coerce_cell(v),
    }
}

fn coerce_scalar(m: &ValueModel, v: &Value, slot: Slot) -> (r: NumericArg)
    ensures
        r == scalar_item(m, v@, slot),
{
    if v.is_blank() && slot == Slot::Refuse {
        return NumericArg::Error(ErrorKind::Unsupported);
    }
    if v.is_blank() && slot == Slot::Skip {
        return NumericArg::Skip;
    }
    match m.to_number(v) {
        Ok(n) => NumericArg::Number(n),
        Err(k) => NumericArg::Error(k),
    }
}

fn collect_one(item: NumericArg) -> (r: Result<Vec<Number>, ErrorKind>)
    ensures
        gathered(r, gather(seq![item])),
{
    let mut ns: Vec<Number> = Vec::new();
    assert(seq![item].drop_last() == Seq::<NumericArg>::empty());
    assert(seq![item].last() == item);
    assert(gather(Seq::<NumericArg>::empty()) == Ok::<Seq<Number>, ErrorKind>(ns@));
    match item {
        NumericArg::Number(n) => {
            ns.push(n);
        },
        NumericArg::Skip => {},
        NumericArg::Error(k) => {
            return Err(k);
        },
    }
    Ok(ns)
}

fn collect_cells(cells: &Vec<Value>, logicals: bool) -> (r: Result<Vec<Number>, ErrorKind>)
    ensures
        logicals ==> gathered(r, gather(views(cells@).map_values(|v: Val| cell_or_logical(v)))),
        !logicals ==> gathered(r, gather(views(cells@).map_values(|v: Val| cell_number(v)))),
{
    let mut ns: Vec<Number> = Vec::new();
    let ghost items = if logicals {
        views(cells@).map_values(|v: Val| cell_or_logical(v))
    } else {
        views(cells@).map_values(|v: Val| cell_number(v))
    };
    assert(items.take(0) == Seq::<NumericArg>::empty());
    for i in 0..cells.len()
        invariant
            items.len() == cells@.len(),
            logicals ==> items == views(cells@).map_values(|v: Val| cell_or_logical(v)),
            !logicals ==> items == views(cells@).map_values(|v: Val| cell_number(v)),
            gather(items.take(i as int)) == Ok::<Seq<Number>, ErrorKind>(ns@),
    {
        let item = if logicals {
            coerce_cell_or_logical(&cells[i])
        } else {
            coerce_cell(&cells[i])
        };
        assert(items.take(i + 1).drop_last() == items.take(i as int));
        assert(items.take(i + 1).last() == item);
        match item {
            NumericArg::Number(n) => {
                ns.push(n);
            },
            NumericArg::Skip => {},
            NumericArg::Error(k) => {
                proof {
                    assert(items == items.take(i + 1) + items.skip(i + 1));
                    lemma_gather_adds(items.take(i + 1), items.skip(i + 1));
                }
                return Err(k);
            },
        }
    }
    assert(items.take(items.len() as int) == items);
    Ok(ns)
}

/// Gathers the numbers of one argument.
pub fn collect_arg<A: CallArgs>(m: &ValueModel, args: &A, i: usize, rules: Rules) -> (r: Result<
    Vec<Number>,
    ErrorKind,
>)
    requires
        ready(args),
    ensures
        gathered(r, gather(arg_items(m, args.call().arg(i as int), rules))),
{
    let shape = args.shape(i);
    let role = if rules.references || shape != ArgShape::Scalar {
        eff_shape(args, i)
    } else {
        EffShape::ScalarLiteral
    };
    match role {
        EffShape::Omitted => match rules.omitted {
            Some(slot) => collect_one(coerce_scalar(m, &args.eval_scalar_array_arg(i), slot)),
            None => {
                let none: Vec<Number> = Vec::new();
                assert(none@ == Seq::<Number>::empty());
                Ok(none)
            },
        },
        EffShape::ScalarLiteral => {
            collect_one(coerce_scalar(m, &args.eval_scalar_array_arg(i), rules.blank))
        },
        EffShape::Aggregate => {
            collect_cells(&args.cells(i), rules.logicals && shape != ArgShape::Array)
        },
    }
}

/// Gathers the numbers of a call from argument `from` on.
pub fn collect<A: CallArgs>(m: &ValueModel, args: &A, from: usize, rules: Rules) -> (r: Result<
    Vec<Number>,
    ErrorKind,
>)
    requires
        ready(args),
    ensures
        gathered(r, numbers(m, args.call(), rules, from as int)),
{
    let mut all: Vec<Number> = Vec::new();
    let count = args.count();
    let mut i: usize = from;
    assert(all@ == Seq::<Number>::empty());
    while i < count
        invariant
            ready(args),
            from <= i,
            i <= count || i == from,
            count == args.call().args.len(),
            gather(call_items(m, args.call(), rules, from as int, i as int)) == Ok::<
                Seq<Number>,
                ErrorKind,
            >(all@),
        decreases count - i,
    {
        let ghost before = call_items(m, args.call(), rules, from as int, i as int);
        let ghost added = arg_items(m, args.call().arg(i as int), rules);
        proof {
            lemma_gather_adds(before, added);
        }
        match collect_arg(m, args, i, rules) {
            Ok(mut ns) => {
                all.append(&mut ns);
            },
            Err(k) => {
                proof {
                    lemma_error_is_final(m, args.call(), rules, from as int, i + 1, count as int);
                }
                return Err(k);
            },
        }
        i = i + 1;
    }
    Ok(all)
}

/// An error among the first arguments is the result of gathering all of them.
proof fn lemma_error_is_final(m: &ValueModel, call: CallModel, rules: Rules, from: int, mid: int, to: int)
    requires
        from <= mid <= to,
        gather(call_items(m, call, rules, from, mid)) is Err,
    ensures
        gather(call_items(m, call, rules, from, to)) == gather(call_items(m, call, rules, from, mid)),
    decreases to - mid,
{
    if mid < to {
        lemma_error_is_final(m, call, rules, from, mid, to - 1);
        lemma_gather_adds(
            call_items(m, call, rules, from, to - 1),
            arg_items(m, call.arg(to - 1), rules),
        );
    }
}

/// The law of errors: where one argument's own items hold an error and those of
/// the arguments before it hold none, that error is the result of gathering the
/// call, whatever the arguments after it hold.
pub proof fn law_first_error_wins(m: &ValueModel, call: CallModel, rules: Rules, from: int, i: int)
    requires
        from <= i < call.args.len(),
        gather(call_items(m, call, rules, from, i)) is Ok,
        gather(arg_items(m, call.arg(i), rules)) is Err,
    ensures
        numbers(m, call, rules, from) == gather(arg_items(m, call.arg(i), rules)),
{
    lemma_gather_adds(call_items(m, call, rules, from, i), arg_items(m, call.arg(i), rules));
    lemma_error_is_final(m, call, rules, from, i + 1, call.args.len() as int);
}

/// The law of references: where references count as ranges, a reference to one
/// cell contributes what a range of that cell does.
pub proof fn law_reference_is_a_range_of_one(m: &ValueModel, one_cell: ArgModel, range: ArgModel, rules: Rules)
    requires
        rules.references,
        one_cell.shape == ArgShape::Scalar,
        one_cell.reference,
        range.shape == ArgShape::Range,
        one_cell.cells == range.cells,
    ensures
        arg_items(m, one_cell, rules) == arg_items(m, range, rules),
{
}

/// The law of array constants: whether logical values count makes no difference to
/// what an array constant contributes.
pub proof fn law_array_constants_drop_logicals(m: &ValueModel, arg: ArgModel, a: Rules, b: Rules)
    requires
        arg.shape == ArgShape::Array,
    ensures
        arg_items(m, arg, a) == arg_items(m, arg, b),
{
}

/// The law of ranges without logical values: whether they count makes no
/// difference.
pub proof fn law_only_logicals_differ(m: &ValueModel, arg: ArgModel, a: Rules, b: Rules)
    requires
        arg.shape == ArgShape::Range,
        forall|i: int| 0 <= i < arg.cells.len() ==> !(#[trigger] arg.cells[i] is Bool),
    ensures
        arg_items(m, arg, a) == arg_items(m, arg, b),
{
    assert(arg.cells.map_values(|v: Val| cell_or_logical(v)) == arg.cells.map_values(
        |v: Val| cell_number(v),
    ));
}

/// The numbers `ns` are the cells that hold numbers, in the order of the cells, and
/// `places` says where each of them stands: a zero counts like any other number, and
/// no cell counts twice.
pub open spec fn numbers_of_cells(ns: Seq<Number>, cells: Seq<Val>, places: Seq<int>) -> bool {
    &&& places.len() == ns.len()
    &&& forall|a: int, b: int| 0 <= a < b < places.len() ==> (#[trigger] places[a]) < (#[trigger] places[b])
    &&& forall|k: int|
        0 <= k < ns.len() ==> 0 <= (#[trigger] places[k]) < cells.len() && cells[places[k]] == Val::Number(ns[k])
    &&& forall|j: int| 0 <= j < cells.len() && (#[trigger] cells[j]) is Number ==> places.contains(j)
}

/// A cell that no aggregate takes: an error, or no scalar.
pub open spec fn unusable(v: Val) -> bool {
    !(v is Number || v is Text || v is Bool || v is Blank)
}

/// The error of a cell that no aggregate takes: its own, or a refusal.
pub open spec fn own_error(v: Val) -> ErrorKind {
    match v {
        Val::Error(k) => k,
        _ => ErrorKind::Unsupported,
    }
}

/// Where the items that are numbers stand.
pub open spec fn picked(items: Seq<NumericArg>, ns: Seq<Number>, places: Seq<int>) -> bool {
    &&& places.len() == ns.len()
    &&& forall|a: int, b: int| 0 <= a < b < places.len() ==> (#[trigger] places[a]) < (#[trigger] places[b])
    &&& forall|k: int|
        0 <= k < ns.len() ==> 0 <= (#[trigger] places[k]) < items.len() && items[places[k]]
            == NumericArg::Number(ns[k])
    &&& forall|j: int| 0 <= j < items.len() && (#[trigger] items[j]) is Number ==> places.contains(j)
}

/// The first error among the items stands at `i`.
pub open spec fn fails_at(items: Seq<NumericArg>, i: int, k: ErrorKind) -> bool {
    &&& 0 <= i < items.len()
    &&& items[i] == NumericArg::Error(k)
    &&& forall|j: int| 0 <= j < i ==> !((#[trigger] items[j]) is Error)
}

/// Gathering picks the numbers in order, unless there is an error, and then it is the
/// first one.
pub proof fn lemma_gather_picks(items: Seq<NumericArg>)
    ensures
        gather(items) is Ok ==> forall|j: int| 0 <= j < items.len() ==> !((#[trigger] items[j]) is Error),
        gather(items) matches Ok(ns) ==> exists|places: Seq<int>| picked(items, ns, places),
        gather(items) matches Err(k) ==> exists|i: int| fails_at(items, i, k),
    decreases items.len(),
{
    if items.len() == 0 {
        assert(gather(items) == Ok::<Seq<Number>, ErrorKind>(Seq::empty()));
        assert(picked(items, Seq::<Number>::empty(), Seq::<int>::empty()));
        assert(picked(items, gather(items)->Ok_0, Seq::<int>::empty()));
    } else {
        let front = items.drop_last();
        let n = items.len() - 1;
        lemma_gather_picks(front);
        assert forall|j: int| 0 <= j < n implies #[trigger] items[j] == front[j] by {}
        match gather(front) {
            Err(k) => {
                let i = choose|i: int| fails_at(front, i, k);
                assert(fails_at(items, i, k));
            },
            Ok(ns) => {
                let places = choose|places: Seq<int>| picked(front, ns, places);
                match items.last() {
                    NumericArg::Number(x) => {
                        let more = places.push(n);
                        assert(more[places.len() as int] == n);
                        assert forall|j: int| 0 <= j < items.len() && (#[trigger] items[j]) is Number implies more.contains(
                            j,
                        ) by {
                            if j < n {
                                assert(front[j] is Number);
                                let p = choose|p: int| 0 <= p < places.len() && places[p] == j;
                                assert(more[p] == j);
                            } else {
                                assert(more[places.len() as int] == j);
                            }
                        }
                        assert(gather(items) == Ok::<Seq<Number>, ErrorKind>(ns.push(x)));
                        assert(picked(items, ns.push(x), more));
                        assert(picked(items, gather(items)->Ok_0, more));
                        assert forall|j: int| 0 <= j < items.len() implies !((#[trigger] items[j]) is Error) by {
                            if j < n {
                                assert(!(front[j] is Error));
                            }
                        }
                    },
                    NumericArg::Skip => {
                        assert forall|j: int| 0 <= j < items.len() && (#[trigger] items[j]) is Number implies places.contains(
                            j,
                        ) by {
                            assert(front[j] is Number);
                        }
                        assert(gather(items) == Ok::<Seq<Number>, ErrorKind>(ns));
                        assert(picked(items, ns, places));
                        assert(picked(items, gather(items)->Ok_0, places));
                        assert forall|j: int| 0 <= j < items.len() implies !((#[trigger] items[j]) is Error) by {
                            if j < n {
                                assert(!(front[j] is Error));
                            }
                        }
                    },
                    NumericArg::Error(k) => {
                        assert(fails_at(items, n, k));
                    },
                }
            },
        }
    }
}

/// The law of one range: what is gathered of cells are the numbers among them, in
/// their order, or the error of the first cell that cannot be used.
pub proof fn law_cells_are_gathered(cells: Seq<Val>)
    ensures
        gather(cells.map_values(|v: Val| cell_number(v))) matches Ok(ns) ==> (exists|places: Seq<int>|
            numbers_of_cells(ns, cells, places)) && forall|j: int|
            0 <= j < cells.len() ==> !unusable(#[trigger] cells[j]),
        gather(cells.map_values(|v: Val| cell_number(v))) matches Err(k) ==> exists|i: int|
            0 <= i < cells.len() && unusable(#[trigger] cells[i]) && k == own_error(cells[i]) && forall|j: int|
                0 <= j < i ==> !unusable(#[trigger] cells[j]),
{
    let items = cells.map_values(|v: Val| cell_number(v));
    lemma_gather_picks(items);
    assert forall|j: int| 0 <= j < cells.len() implies #[trigger] items[j] == cell_number(cells[j]) by {}
    match gather(items) {
        Ok(ns) => {
            let places = choose|places: Seq<int>| picked(items, ns, places);
            assert forall|j: int| 0 <= j < cells.len() && (#[trigger] cells[j]) is Number implies places.contains(j) by {
                assert(items[j] is Number);
            }
            assert(numbers_of_cells(ns, cells, places));
            assert forall|j: int| 0 <= j < cells.len() implies !unusable(#[trigger] cells[j]) by {
                assert(!(items[j] is Error));
            }
        },
        Err(k) => {
            let i = choose|i: int| fails_at(items, i, k);
            assert(unusable(cells[i]) && k == own_error(cells[i]));
            assert forall|j: int| 0 <= j < i implies !unusable(#[trigger] cells[j]) by {
                assert(!(items[j] is Error));
            }
        },
    }
}

/// The numbers of cells that are all numbers are those cells, one by one.
pub proof fn lemma_all_cells_count(ns: Seq<Number>, cells: Seq<Val>, places: Seq<int>)
    requires
        numbers_of_cells(ns, cells, places),
        forall|j: int| 0 <= j < cells.len() ==> (#[trigger] cells[j]) is Number,
    ensures
        ns.len() == cells.len(),
        forall|j: int| 0 <= j < cells.len() ==> cells[j] == Val::Number(#[trigger] ns[j]),
{
    assert forall|j: int| 0 <= j < cells.len() implies places.contains(j) by {
        assert(cells[j] is Number);
    }
    lemma_full_places(places, cells.len() as int);
    assert forall|j: int| 0 <= j < cells.len() implies cells[j] == Val::Number(#[trigger] ns[j]) by {
        assert(places[j] == j);
    }
}

/// Increasing places that leave out none below `n` are the places below `n`.
proof fn lemma_full_places(places: Seq<int>, n: int)
    requires
        n >= 0,
        forall|a: int, b: int| 0 <= a < b < places.len() ==> (#[trigger] places[a]) < (#[trigger] places[b]),
        forall|k: int| 0 <= k < places.len() ==> 0 <= (#[trigger] places[k]) < n,
        forall|j: int| 0 <= j < n ==> places.contains(j),
    ensures
        places.len() == n,
        forall|k: int| 0 <= k < n ==> #[trigger] places[k] == k,
    decreases n,
{
    if n > 0 {
        assert(places.contains(n - 1));
        let p = choose|p: int| 0 <= p < places.len() && places[p] == n - 1;
        if p < places.len() - 1 {
            assert(places[p] < places[places.len() - 1]);
        }
        let front = places.drop_last();
        assert forall|j: int| 0 <= j < n - 1 implies front.contains(j) by {
            assert(places.contains(j));
            let q = choose|q: int| 0 <= q < places.len() && places[q] == j;
            assert(front[q] == j);
        }
        assert forall|k: int| 0 <= k < front.len() implies 0 <= (#[trigger] front[k]) < n - 1 by {
            assert(places[k] < places[places.len() - 1]);
        }
        lemma_full_places(front, n - 1);
        assert forall|k: int| 0 <= k < n implies #[trigger] places[k] == k by {
            if k < n - 1 {
                assert(front[k] == k);
            }
        }
    } else if places.len() > 0 {
        assert(0 <= places[0] < n);
    }
}

/// Place `a` comes before place `b`: it is in an earlier argument, or earlier in the
/// same one.
pub open spec fn comes_before(a: (int, int), b: (int, int)) -> bool {
    a.0 < b.0 || (a.0 == b.0 && a.1 < b.1)
}

/// Where the items of arguments that are numbers stand.
pub open spec fn traced(
    m: &ValueModel,
    call: CallModel,
    rules: Rules,
    from: int,
    to: int,
    ns: Seq<Number>,
    places: Seq<(int, int)>,
) -> bool {
    &&& places.len() == ns.len()
    &&& forall|a: int, b: int|
        0 <= a < b < places.len() ==> comes_before(#[trigger] places[a], #[trigger] places[b])
    &&& forall|k: int|
        0 <= k < ns.len() ==> from <= (#[trigger] places[k]).0 < to && 0 <= places[k].1 < arg_items(
            m,
            call.arg(places[k].0),
            rules,
        ).len() && arg_items(m, call.arg(places[k].0), rules)[places[k].1] == NumericArg::Number(ns[k])
    &&& forall|i: int, j: int|
        from <= i < to && 0 <= j < arg_items(m, call.arg(i), rules).len() && (#[trigger] arg_items(
            m,
            call.arg(i),
            rules,
        )[j]) is Number ==> places.contains((i, j))
}

/// The first error among the items of arguments stands at `(i, j)`.
pub open spec fn fails_first(
    m: &ValueModel,
    call: CallModel,
    rules: Rules,
    from: int,
    to: int,
    k: ErrorKind,
    i: int,
    j: int,
) -> bool {
    &&& from <= i < to
    &&& 0 <= j < arg_items(m, call.arg(i), rules).len()
    &&& arg_items(m, call.arg(i), rules)[j] == NumericArg::Error(k)
    &&& forall|a: int, b: int|
        from <= a < to && 0 <= b < arg_items(m, call.arg(a), rules).len() && comes_before((a, b), (i, j))
            ==> !((#[trigger] arg_items(m, call.arg(a), rules)[b]) is Error)
}

/// What the arguments from `from` up to `to` add, place by place.
pub proof fn lemma_traced(m: &ValueModel, call: CallModel, rules: Rules, from: int, to: int)
    requires
        from <= to,
    ensures
        gather(call_items(m, call, rules, from, to)) is Ok ==> forall|i: int, j: int|
            from <= i < to && 0 <= j < arg_items(m, call.arg(i), rules).len() ==> !((#[trigger] arg_items(
                m,
                call.arg(i),
                rules,
            )[j]) is Error),
        gather(call_items(m, call, rules, from, to)) matches Ok(ns) ==> exists|places: Seq<(int, int)>|
            traced(m, call, rules, from, to, ns, places),
        gather(call_items(m, call, rules, from, to)) matches Err(k) ==> exists|i: int, j: int|
            fails_first(m, call, rules, from, to, k, i, j),
    decreases to - from,
{
    let all = call_items(m, call, rules, from, to);
    if from == to {
        assert(gather(all) == Ok::<Seq<Number>, ErrorKind>(Seq::empty()));
        assert(traced(m, call, rules, from, to, gather(all)->Ok_0, Seq::<(int, int)>::empty()));
    } else {
        let last = to - 1;
        let before = call_items(m, call, rules, from, last);
        let added = arg_items(m, call.arg(last), rules);
        lemma_traced(m, call, rules, from, last);
        lemma_gather_adds(before, added);
        lemma_gather_picks(added);
        assert(all == before + added);
        match (gather(before), gather(added)) {
            (Err(k), _) => {
                let (i, j) = choose|i: int, j: int| fails_first(m, call, rules, from, last, k, i, j);
                assert(fails_first(m, call, rules, from, to, k, i, j));
            },
            (Ok(_), Err(k)) => {
                let j = choose|j: int| fails_at(added, j, k);
                assert forall|a: int, b: int|
                    from <= a < to && 0 <= b < arg_items(m, call.arg(a), rules).len() && comes_before((a, b), (last, j))
                    implies !((#[trigger] arg_items(m, call.arg(a), rules)[b]) is Error) by {
                    if a == last {
                        assert(!(added[b] is Error));
                    }
                }
                assert(fails_first(m, call, rules, from, to, k, last, j));
            },
            (Ok(ns), Ok(more)) => {
                let places = choose|places: Seq<(int, int)>| traced(m, call, rules, from, last, ns, places);
                let own = choose|own: Seq<int>| picked(added, more, own);
                let owned = own.map_values(|j: int| (last, j));
                let joined = places + owned;
                let n = places.len() as int;
                assert forall|a: int, b: int| 0 <= a < b < joined.len() implies comes_before(
                    #[trigger] joined[a],
                    #[trigger] joined[b],
                ) by {
                    if b < n {
                        assert(comes_before(places[a], places[b]));
                    } else if a < n {
                        assert(places[a].0 < last);
                        assert(joined[b] == owned[b - n]);
                    } else {
                        assert(own[a - n] < own[b - n]);
                        assert(joined[a] == owned[a - n] && joined[b] == owned[b - n]);
                    }
                }
                assert forall|k: int| 0 <= k < joined.len() implies from <= (#[trigger] joined[k]).0 < to && 0 <= joined[k].1
                    < arg_items(m, call.arg(joined[k].0), rules).len() && arg_items(m, call.arg(joined[k].0), rules)[joined[k].1]
                    == NumericArg::Number((ns + more)[k]) by {
                    if k < n {
                        assert(joined[k] == places[k]);
                    } else {
                        assert(joined[k] == owned[k - n]);
                        assert(own[k - n] < added.len());
                    }
                }
                assert forall|i: int, j: int|
                    from <= i < to && 0 <= j < arg_items(m, call.arg(i), rules).len() && (#[trigger] arg_items(
                        m,
                        call.arg(i),
                        rules,
                    )[j]) is Number implies joined.contains((i, j)) by {
                    if i < last {
                        let p = choose|p: int| 0 <= p < places.len() && places[p] == (i, j);
                        assert(joined[p] == (i, j));
                    } else {
                        assert(added[j] is Number);
                        let p = choose|p: int| 0 <= p < own.len() && own[p] == j;
                        assert(joined[n + p] == owned[p]);
                        assert(joined[n + p] == (i, j));
                    }
                }
                assert(gather(all) == Ok::<Seq<Number>, ErrorKind>(ns + more));
                assert(traced(m, call, rules, from, to, gather(all)->Ok_0, joined));
                assert forall|i: int, j: int|
                    from <= i < to && 0 <= j < arg_items(m, call.arg(i), rules).len() implies !((#[trigger] arg_items(
                    m,
                    call.arg(i),
                    rules,
                )[j]) is Error) by {
                    if i == last {
                        assert(!(added[j] is Error));
                    }
                }
            },
        }
    }
}

/// The argument is read cell by cell: it is a range, an array constant or a reference
/// to one cell.
pub open spec fn by_cells(arg: ArgModel) -> bool {
    arg.shape == ArgShape::Range || arg.shape == ArgShape::Array || (arg.shape == ArgShape::Scalar && arg.reference)
}

/// How many places an argument has: its cells, or the one of a single value.
pub open spec fn places_in(arg: ArgModel) -> int {
    if by_cells(arg) {
        arg.cells.len() as int
    } else {
        1
    }
}

/// What a sheet promises of the arguments: an empty slot has no value.
pub open spec fn slots_are_blank(call: CallModel) -> bool {
    forall|i: int| (#[trigger] call.arg(i)).shape == ArgShape::Omitted ==> call.arg(i).array_scalar is Blank
}

/// The number at place `j` of an argument. Of cells that is a number itself, and in
/// ranges a logical value where `logicals` says so; of a single value it is what the
/// value stands for, a blank only where `zero_blank` says so.
pub open spec fn number_at(m: &ValueModel, arg: ArgModel, j: int, logicals: bool, zero_blank: bool) -> Option<Number> {
    if by_cells(arg) {
        match arg.cells[j] {
            Val::Number(n) => Some(n),
            Val::Bool(b) => if logicals && arg.shape != ArgShape::Array {
                Some(counted(if b { 1 } else { 0 }))
            } else {
                None
            },
            _ => None,
        }
    } else if arg.shape == ArgShape::Omitted || (arg.array_scalar is Blank && !zero_blank) {
        None
    } else {
        match m.numeric(arg.array_scalar) {
            Ok(n) => Some(n),
            Err(_) => None,
        }
    }
}

/// The error at place `j` of an argument. Of cells that is an error itself; of a single
/// value that it stands for no number; and a refusal of an empty slot or of a blank
/// where `refuse_slot` or `refuse_blank` says so.
pub open spec fn error_at(
    m: &ValueModel,
    arg: ArgModel,
    j: int,
    refuse_slot: bool,
    refuse_blank: bool,
) -> Option<ErrorKind> {
    if by_cells(arg) {
        if unusable(arg.cells[j]) {
            Some(own_error(arg.cells[j]))
        } else {
            None
        }
    } else if arg.shape == ArgShape::Omitted {
        if refuse_slot {
            Some(ErrorKind::Unsupported)
        } else {
            None
        }
    } else if arg.array_scalar is Blank {
        if refuse_blank {
            Some(ErrorKind::Unsupported)
        } else {
            None
        }
    } else {
        match m.numeric(arg.array_scalar) {
            Ok(_) => None,
            Err(k) => Some(k),
        }
    }
}

/// The numbers `ns` are those of the arguments from `from` on, argument by argument and
/// cell by cell, and `places` says where each of them stands.
pub open spec fn numbers_of_arguments(
    m: &ValueModel,
    call: CallModel,
    from: int,
    logicals: bool,
    zero_blank: bool,
    ns: Seq<Number>,
    places: Seq<(int, int)>,
) -> bool {
    &&& places.len() == ns.len()
    &&& forall|a: int, b: int|
        0 <= a < b < places.len() ==> comes_before(#[trigger] places[a], #[trigger] places[b])
    &&& forall|k: int|
        0 <= k < ns.len() ==> from <= (#[trigger] places[k]).0 < call.args.len() && 0 <= places[k].1 < places_in(
            call.arg(places[k].0),
        ) && number_at(m, call.arg(places[k].0), places[k].1, logicals, zero_blank) == Some(ns[k])
    &&& forall|i: int, j: int|
        from <= i < call.args.len() && 0 <= j < places_in(call.arg(i)) && (#[trigger] number_at(
            m,
            call.arg(i),
            j,
            logicals,
            zero_blank,
        )) is Some ==> places.contains((i, j))
}

/// The first error of the arguments from `from` on is `k`, at place `j` of argument `i`.
pub open spec fn first_error(
    m: &ValueModel,
    call: CallModel,
    from: int,
    refuse_slot: bool,
    refuse_blank: bool,
    k: ErrorKind,
    i: int,
    j: int,
) -> bool {
    &&& from <= i < call.args.len()
    &&& 0 <= j < places_in(call.arg(i))
    &&& error_at(m, call.arg(i), j, refuse_slot, refuse_blank) == Some(k)
    &&& forall|a: int, b: int|
        from <= a < call.args.len() && 0 <= b < places_in(call.arg(a)) && comes_before((a, b), (i, j))
            ==> (#[trigger] error_at(m, call.arg(a), b, refuse_slot, refuse_blank)) is None
}

/// No place of the arguments from `from` on holds an error.
pub open spec fn no_error(m: &ValueModel, call: CallModel, from: int, refuse_slot: bool, refuse_blank: bool) -> bool {
    forall|i: int, j: int|
        from <= i < call.args.len() && 0 <= j < places_in(call.arg(i)) ==> (#[trigger] error_at(
            m,
            call.arg(i),
            j,
            refuse_slot,
            refuse_blank,
        )) is None
}

/// An item is what the place it comes from holds.
proof fn lemma_item_at(m: &ValueModel, arg: ArgModel, rules: Rules, j: int)
    requires
        rules.references,
        rules.omitted is None || rules.omitted == Some(Slot::Refuse),
        arg.shape == ArgShape::Omitted ==> arg.array_scalar is Blank,
        0 <= j < places_in(arg),
    ensures
        arg_items(m, arg, rules).len() == if arg.shape == ArgShape::Omitted && rules.omitted is None {
            0
        } else {
            places_in(arg)
        },
        j < arg_items(m, arg, rules).len() ==> match arg_items(m, arg, rules)[j] {
            NumericArg::Number(n) => number_at(m, arg, j, rules.logicals, rules.blank == Slot::Coerce) == Some(n)
                && error_at(m, arg, j, rules.omitted is Some, rules.blank == Slot::Refuse) is None,
            NumericArg::Skip => number_at(m, arg, j, rules.logicals, rules.blank == Slot::Coerce) is None && error_at(
                m,
                arg,
                j,
                rules.omitted is Some,
                rules.blank == Slot::Refuse,
            ) is None,
            NumericArg::Error(k) => number_at(m, arg, j, rules.logicals, rules.blank == Slot::Coerce) is None
                && error_at(m, arg, j, rules.omitted is Some, rules.blank == Slot::Refuse) == Some(k),
        },
        j >= arg_items(m, arg, rules).len() ==> number_at(
            m,
            arg,
            j,
            rules.logicals,
            rules.blank == Slot::Coerce,
        ) is None && error_at(m, arg, j, rules.omitted is Some, rules.blank == Slot::Refuse) is None,
{
}

/// What a call gathers, told by the places of its arguments.
pub proof fn lemma_numbers_of_arguments(
    m: &ValueModel,
    call: CallModel,
    rules: Rules,
    from: int,
    lg: bool,
    zb: bool,
    rs: bool,
    rb: bool,
)
    requires
        lg == rules.logicals,
        zb == (rules.blank == Slot::Coerce),
        rs == rules.omitted is Some,
        rb == (rules.blank == Slot::Refuse),
        0 <= from,
        slots_are_blank(call),
        rules.references,
        rules.omitted is None || rules.omitted == Some(Slot::Refuse),
    ensures
        numbers(m, call, rules, from) is Ok <==> no_error(m, call, from, rs, rb),
        numbers(m, call, rules, from) matches Ok(ns) ==> exists|places: Seq<(int, int)>|
            numbers_of_arguments(m, call, from, lg, zb, ns, places),
        numbers(m, call, rules, from) matches Err(k) ==> exists|i: int, j: int|
            first_error(m, call, from, rs, rb, k, i, j),
{
    let to = if from <= call.args.len() {
        call.args.len() as int
    } else {
        from
    };
    lemma_traced(m, call, rules, from, to);
    assert(call_items(m, call, rules, from, to) == call_items(m, call, rules, from, call.args.len() as int));
    match numbers(m, call, rules, from) {
        Ok(ns) => {
            let places = choose|places: Seq<(int, int)>| traced(m, call, rules, from, to, ns, places);
            assert forall|i: int, j: int|
                from <= i < call.args.len() && 0 <= j < places_in(call.arg(i)) implies (#[trigger] error_at(
                m,
                call.arg(i),
                j,
                rs,
                rb,
            )) is None by {
                lemma_item_at(m, call.arg(i), rules, j);
                if j < arg_items(m, call.arg(i), rules).len() {
                    assert(!(arg_items(m, call.arg(i), rules)[j] is Error));
                }
            }
            assert forall|k: int| 0 <= k < ns.len() implies from <= (#[trigger] places[k]).0 < call.args.len() && 0
                <= places[k].1 < places_in(call.arg(places[k].0)) && number_at(
                m,
                call.arg(places[k].0),
                places[k].1,
                lg,
                zb,
            ) == Some(ns[k]) by {
                let (i, j) = places[k];
                lemma_item_at(m, call.arg(i), rules, 0);
                lemma_item_at(m, call.arg(i), rules, j);
            }
            assert forall|i: int, j: int|
                from <= i < call.args.len() && 0 <= j < places_in(call.arg(i)) && (#[trigger] number_at(
                    m,
                    call.arg(i),
                    j,
                    lg,
                    zb,
                )) is Some implies places.contains((i, j)) by {
                lemma_item_at(m, call.arg(i), rules, j);
                assert(arg_items(m, call.arg(i), rules)[j] is Number);
            }
            assert(numbers_of_arguments(m, call, from, lg, zb, ns, places));
        },
        Err(k) => {
            let (i, j) = choose|i: int, j: int| fails_first(m, call, rules, from, to, k, i, j);
            lemma_item_at(m, call.arg(i), rules, j);
            assert forall|a: int, b: int|
                from <= a < call.args.len() && 0 <= b < places_in(call.arg(a)) && comes_before((a, b), (i, j))
                implies (#[trigger] error_at(m, call.arg(a), b, rs, rb)) is None by {
                lemma_item_at(m, call.arg(a), rules, b);
                if b < arg_items(m, call.arg(a), rules).len() {
                    assert(!(arg_items(m, call.arg(a), rules)[b] is Error));
                }
            }
            assert(first_error(m, call, from, rs, rb, k, i, j));
        },
    }
}

/// The cells that hold a number with a property.
pub open spec fn cells_with(cells: Seq<Val>, p: spec_fn(Number) -> bool) -> Seq<Val> {
    cells.filter(|v: Val| v matches Val::Number(x) && p(x))
}

/// As many of the gathered numbers have a property as cells hold a number with it.
pub proof fn lemma_cells_with(cells: Seq<Val>, p: spec_fn(Number) -> bool)
    ensures
        gather(cells.map_values(|v: Val| cell_number(v))) matches Ok(ns) ==> ns.filter(p).len() == cells_with(
            cells,
            p,
        ).len(),
    decreases cells.len(),
{
    reveal(Seq::filter);
    let items = cells.map_values(|v: Val| cell_number(v));
    if cells.len() > 0 {
        let front = cells.drop_last();
        lemma_cells_with(front, p);
        assert(items.drop_last() == front.map_values(|v: Val| cell_number(v)));
        assert(items.last() == cell_number(cells.last()));
        match gather(items.drop_last()) {
            Ok(before) => {
                if let NumericArg::Number(x) = items.last() {
                    assert(before.push(x).drop_last() == before);
                }
            },
            Err(_) => {},
        }
    }
}

/// The first cell that cannot be used is at `i`.
pub open spec fn first_unusable(cells: Seq<Val>, i: int) -> bool {
    0 <= i < cells.len() && unusable(cells[i]) && forall|j: int| 0 <= j < i ==> !unusable(#[trigger] cells[j])
}

/// Every cell can be used.
pub open spec fn all_usable(cells: Seq<Val>) -> bool {
    forall|j: int| 0 <= j < cells.len() ==> !unusable(#[trigger] cells[j])
}

/// What one range or array constant gathers, of which only numbers count.
pub proof fn lemma_one_range(m: &ValueModel, arg: ArgModel, rules: Rules)
    requires
        arg.shape == ArgShape::Range || arg.shape == ArgShape::Array,
        !rules.logicals,
    ensures
        arg_items(m, arg, rules) == arg.cells.map_values(|v: Val| cell_number(v)),
        gather(arg_items(m, arg, rules)) is Ok <==> all_usable(arg.cells),
        gather(arg_items(m, arg, rules)) matches Ok(ns) ==> exists|places: Seq<int>|
            numbers_of_cells(ns, arg.cells, places),
        gather(arg_items(m, arg, rules)) matches Err(k) ==> exists|i: int| #[trigger]
            first_unusable(arg.cells, i) && k == own_error(arg.cells[i]),
{
    law_cells_are_gathered(arg.cells);
    match gather(arg.cells.map_values(|v: Val| cell_number(v))) {
        Ok(_) => {},
        Err(k) => {
            let i = choose|i: int|
                0 <= i < arg.cells.len() && unusable(#[trigger] arg.cells[i]) && k == own_error(arg.cells[i]) && forall|
                    j: int,
                |
                    0 <= j < i ==> !unusable(#[trigger] arg.cells[j]);
            assert(first_unusable(arg.cells, i) && k == own_error(arg.cells[i]));
        },
    }
}

} // verus!
