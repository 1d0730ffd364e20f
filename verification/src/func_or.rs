//! `OR(logical1, [logical2], ...)`: whether one of the logical values is true.
//!
//! A single value counts as the logical value it stands for; a blank is passed
//! over. In ranges and array constants logical values and numbers count, texts
//! and blanks are passed over. The first error is the result; where nothing
//! counts, it is a value error.

use crate::args::{ready, ArgModel, ArgShape, CallArgs, CallModel};
use crate::model::{logical, to_bool, EvalContext};
use crate::value::{views, ErrorKind, Val, Value};
use vstd::prelude::*;

verus! {

/// What a value contributes: a logical value, nothing, or an error.
pub open spec fn cell_logical(v: Val) -> Result<Option<bool>, ErrorKind> {
    match v {
        Val::Bool(b) => Ok(Some(b)),
        Val::Number(n) => Ok(Some(n.units() != 0)),
        Val::Text(_) | Val::Blank => Ok(None),
        Val::Error(k) => Err(k),
        _ => Err(ErrorKind::Unsupported),
    }
}

/// What a single value contributes.
pub open spec fn scalar_logical(v: Val) -> Result<Option<bool>, ErrorKind> {
    if v is Blank {
        Ok(None)
    } else {
        match logical(v) {
            Ok(b) => Ok(Some(b)),
            Err(k) => Err(k),
        }
    }
}

/// What an argument contributes, in order.
pub open spec fn contributions(arg: ArgModel) -> Seq<Result<Option<bool>, ErrorKind>> {
    if arg.shape == ArgShape::Range || arg.shape == ArgShape::Array {
        arg.cells.map_values(|v: Val| cell_logical(v))
    } else {
        seq![scalar_logical(arg.scalar)]
    }
}

/// What the arguments before argument `n` contribute, in order.
pub open spec fn all_contributions(call: CallModel, n: int) -> Seq<Result<Option<bool>, ErrorKind>>
    decreases n,
{
    if n <= 0 {
        Seq::empty()
    } else {
        all_contributions(call, n - 1) + contributions(call.arg(n - 1))
    }
}

/// Whether one contribution is true, nothing where none counts, or the first error.
pub open spec fn any(items: Seq<Result<Option<bool>, ErrorKind>>) -> Result<Option<bool>, ErrorKind>
    decreases items.len(),
{
    if items.len() == 0 {
        Ok(None)
    } else {
        match (any(items.drop_last()), items.last()) {
            (Err(k), _) => Err(k),
            (Ok(_), Err(k)) => Err(k),
            (Ok(so_far), Ok(None)) => Ok(so_far),
            (Ok(None), Ok(Some(b))) => Ok(Some(b)),
            (Ok(Some(a)), Ok(Some(b))) => Ok(Some(a || b)),
        }
    }
}

/// The result of the call.
pub open spec fn result(call: CallModel) -> Val {
    match any(all_contributions(call, call.args.len() as int)) {
        Err(k) => Val::Error(k),
        Ok(None) => Val::Error(ErrorKind::Value),
        Ok(Some(b)) => Val::Bool(b),
    }
}

/// An error among the first items is the result of all of them.
proof fn lemma_error_is_final(
    a: Seq<Result<Option<bool>, ErrorKind>>,
    b: Seq<Result<Option<bool>, ErrorKind>>,
)
    requires
        any(a) is Err,
    ensures
        any(a + b) == any(a),
    decreases b.len(),
{
    if b.len() == 0 {
        assert(a + b == a);
    } else {
        lemma_error_is_final(a, b.drop_last());
        assert((a + b).drop_last() == a + b.drop_last());
    }
}

proof fn lemma_error_ends_call(call: CallModel, mid: int, to: int)
    requires
        0 <= mid <= to,
        any(all_contributions(call, mid)) is Err,
    ensures
        any(all_contributions(call, to)) == any(all_contributions(call, mid)),
    decreases to - mid,
{
    if mid < to {
        lemma_error_ends_call(call, mid, to - 1);
        lemma_error_is_final(all_contributions(call, to - 1), contributions(call.arg(to - 1)));
    }
}

fn coerce_logical_cell(v: &Value) -> (r: Result<Option<bool>, ErrorKind>)
    ensures
        r == cell_logical(v@),
{
    match v {
        Value::Bool(b) => Ok(Some(*b)),
        Value::Number(n) => Ok(Some(!n.is_zero())),
        Value::Text(_) => Ok(None),
        Value::Blank => Ok(None),
        Value::Error(k) => Err(*k),
        Value::Array(_) => Err(ErrorKind::Unsupported),
        Value::Ref(_) => Err(ErrorKind::Unsupported),
        Value::Lambda(_) => Err(ErrorKind::Unsupported),
    }
}

fn coerce_logical_scalar(v: &Value) -> (r: Result<Option<bool>, ErrorKind>)
    ensures
        r == scalar_logical(v@),
{
    if v.is_blank() {
        return Ok(None);
    }
    match to_bool(v) {
        Ok(b) => Ok(Some(b)),
        Err(k) => Err(k),
    }
}

fn join(so_far: Option<bool>, item: Option<bool>) -> (r: Option<bool>)
    ensures
        r == match (so_far, item) {
            (_, None) => so_far,
            (None, Some(b)) => Some(b),
            (Some(a), Some(b)) => Some(a || b),
        },
{
    match (so_far, item) {
        (Some(a), Some(b)) => Some(a || b),
        (None, Some(b)) => Some(b),
        (_, None) => so_far,
    }
}

fn join_cells(
    cells: &Vec<Value>,
    so_far: Option<bool>,
    Ghost(before): Ghost<Seq<Result<Option<bool>, ErrorKind>>>,
) -> (r: Result<Option<bool>, ErrorKind>)
    requires
        any(before) == Ok::<Option<bool>, ErrorKind>(so_far),
    ensures
        r == any(before + views(cells@).map_values(|v: Val| cell_logical(v))),
{
    let ghost items = views(cells@).map_values(|v: Val| cell_logical(v));
    let mut acc = so_far;
    assert(before + items.take(0) == before);
    for i in 0..cells.len()
        invariant
            items == views(cells@).map_values(|v: Val| cell_logical(v)),
            items.len() == cells@.len(),
            any(before + items.take(i as int)) == Ok::<Option<bool>, ErrorKind>(acc),
    {
        assert((before + items.take(i + 1)).drop_last() == before + items.take(i as int));
        assert((before + items.take(i + 1)).last() == items[i as int]);
        match coerce_logical_cell(&cells[i]) {
            Ok(item) => {
                acc = join(acc, item);
            },
            Err(k) => {
                proof {
                    lemma_error_is_final(before + items.take(i + 1), items.skip(i + 1));
                    assert(before + items.take(i + 1) + items.skip(i + 1) == before + items);
                }
                return Err(k);
            },
        }
    }
    assert(items.take(items.len() as int) == items);
    Ok(acc)
}

/// Evaluates the call.
pub fn eval<A: CallArgs>(_ctx: &EvalContext, args: &A) -> (v: Value)
    requires
        ready(args),
    ensures
        v@ == result(args.call()),
{
    let mut acc: Option<bool> = None;
    let count = args.count();
    for i in 0..count
        invariant
            ready(args),
            count == args.call().args.len(),
            any(all_contributions(args.call(), i as int)) == Ok::<Option<bool>, ErrorKind>(acc),
    {
        let ghost before = all_contributions(args.call(), i as int);
        let cells = match args.shape(i) {
            ArgShape::Range => true,
            ArgShape::Array => true,
            _ => false,
        };
        let joined = if cells {
            join_cells(&args.cells(i), acc, Ghost(before))
        } else {
            let item = coerce_logical_scalar(&args.eval_scalar(i));
            assert((before + seq![item]).drop_last() == before);
            match item {
                Ok(item) => Ok(join(acc, item)),
                Err(k) => Err(k),
            }
        };
        match joined {
            Ok(b) => {
                acc = b;
            },
            Err(k) => {
                proof {
                    lemma_error_ends_call(args.call(), i + 1, count as int);
                }
                return Value::Error(k);
            },
        }
    }
    match acc {
        Some(b) => Value::Bool(b),
        None => Value::Error(ErrorKind::Value),
    }
}

/// The law of disjunction: where no contribution is an error, the result is true
/// exactly where one of them is, and nothing counts exactly where all are passed over.
pub proof fn law_any_is_disjunction(items: Seq<Result<Option<bool>, ErrorKind>>)
    requires
        forall|i: int| 0 <= i < items.len() ==> (#[trigger] items[i]) is Ok,
    ensures
        any(items) is Ok,
        any(items) == Ok::<Option<bool>, ErrorKind>(None) <==> (forall|i: int|
            0 <= i < items.len() ==> #[trigger] items[i] == Ok::<Option<bool>, ErrorKind>(None)),
        any(items) == Ok::<Option<bool>, ErrorKind>(Some(true)) <==> (exists|i: int|
            0 <= i < items.len() && #[trigger] items[i] == Ok::<Option<bool>, ErrorKind>(Some(true))),
    decreases items.len(),
{
    if items.len() > 0 {
        let front = items.drop_last();
        assert forall|i: int| 0 <= i < front.len() implies (#[trigger] front[i]) is Ok by {
            assert(front[i] == items[i]);
        }
        law_any_is_disjunction(front);
        let n = items.len() - 1;
        assert(items.last() == items[n]);
        assert forall|i: int| 0 <= i < front.len() implies #[trigger] items[i] == front[i] by {}
        if any(front) == Ok::<Option<bool>, ErrorKind>(Some(true)) {
            let i = choose|i: int|
                0 <= i < front.len() && #[trigger] front[i] == Ok::<Option<bool>, ErrorKind>(Some(true));
            assert(items[i] == Ok::<Option<bool>, ErrorKind>(Some(true)));
        }
        if !(any(front) == Ok::<Option<bool>, ErrorKind>(None)) {
            let i = choose|i: int|
                0 <= i < front.len() && !(#[trigger] front[i] == Ok::<Option<bool>, ErrorKind>(None));
            assert(items[i] == front[i]);
        }
        assert forall|i: int|
            0 <= i < items.len() && #[trigger] items[i] == Ok::<Option<bool>, ErrorKind>(
                Some(true),
            ) implies any(items) == Ok::<Option<bool>, ErrorKind>(Some(true)) by {
            if i < n {
                assert(front[i] == items[i]);
            }
        }
    }
}

/// The number of places that an argument has: its cells, or one.
pub open spec fn places_of(arg: ArgModel) -> nat {
    if arg.shape == ArgShape::Range || arg.shape == ArgShape::Array {
        arg.cells.len()
    } else {
        1
    }
}

/// What the value at place `j` of an argument says: a logical value, nothing, or an error.
/// A cell says something where it is a logical value or a number; a single value where it
/// is not blank.
pub open spec fn said_at(arg: ArgModel, j: int) -> Result<Option<bool>, ErrorKind> {
    if arg.shape == ArgShape::Range || arg.shape == ArgShape::Array {
        match arg.cells[j] {
            Val::Bool(b) => Ok(Some(b)),
            Val::Number(n) => Ok(Some(n.units() != 0)),
            Val::Text(_) => Ok(None),
            Val::Blank => Ok(None),
            Val::Error(k) => Err(k),
            _ => Err(ErrorKind::Unsupported),
        }
    } else if arg.scalar is Blank {
        Ok(None)
    } else {
        match logical(arg.scalar) {
            Ok(b) => Ok(Some(b)),
            Err(k) => Err(k),
        }
    }
}

/// What the value at place `j` of argument `i` says.
pub open spec fn said(call: CallModel, i: int, j: int) -> Result<Option<bool>, ErrorKind> {
    said_at(call.arg(i), j)
}

/// Place `j` of argument `i` is one of the call.
pub open spec fn is_place(call: CallModel, i: int, j: int) -> bool {
    0 <= i < call.args.len() && 0 <= j < places_of(call.arg(i))
}

/// A place before another: of an earlier argument, or earlier in the same.
pub open spec fn earlier(a: int, b: int, i: int, j: int) -> bool {
    a < i || (a == i && b < j)
}

/// Place `j` of argument `i` is the first that says an error, the error `k`.
pub open spec fn first_to_fail(call: CallModel, i: int, j: int, k: ErrorKind) -> bool {
    is_place(call, i, j) && said(call, i, j) == Err::<Option<bool>, ErrorKind>(k) && forall|a: int, b: int|
        is_place(call, a, b) && earlier(a, b, i, j) ==> (#[trigger] said(call, a, b)) is Ok
}

/// What is contributed stands at the places in order.
spec fn laid_out(call: CallModel, n: int, items: Seq<Result<Option<bool>, ErrorKind>>, places: Seq<(int, int)>) -> bool {
    &&& places.len() == items.len()
    &&& forall|k: int|
        0 <= k < items.len() ==> 0 <= (#[trigger] places[k]).0 < n && 0 <= places[k].1 < places_of(call.arg(places[k].0))
            && items[k] == said(call, places[k].0, places[k].1)
    &&& forall|k: int, l: int|
        0 <= k < l < places.len() ==> earlier(
            (#[trigger] places[k]).0,
            places[k].1,
            (#[trigger] places[l]).0,
            places[l].1,
        )
    &&& forall|i: int, j: int|
        0 <= i < n && 0 <= j < places_of(call.arg(i)) ==> #[trigger] places.contains((i, j))
}

proof fn lemma_laid_out(call: CallModel, n: int) -> (places: Seq<(int, int)>)
    requires
        0 <= n <= call.args.len(),
    ensures
        laid_out(call, n, all_contributions(call, n), places),
    decreases n,
{
    if n == 0 {
        Seq::empty()
    } else {
        let front = lemma_laid_out(call, n - 1);
        let items = all_contributions(call, n - 1);
        let arg = call.arg(n - 1);
        let more = contributions(arg);
        let tail = Seq::new(places_of(arg), |j: int| (n - 1, j));
        let places = front + tail;
        let all = items + more;
        assert(more.len() == tail.len());
        assert forall|k: int| 0 <= k < all.len() implies 0 <= (#[trigger] places[k]).0 < n && 0 <= places[k].1 < places_of(
            call.arg(places[k].0),
        ) && all[k] == said(call, places[k].0, places[k].1) by {
            if k >= front.len() {
                assert(places[k] == tail[k - front.len()]);
                assert(all[k] == more[k - front.len()]);
            } else {
                assert(places[k] == front[k]);
            }
        }
        assert forall|k: int, l: int| 0 <= k < l < places.len() implies earlier(
            (#[trigger] places[k]).0,
            places[k].1,
            (#[trigger] places[l]).0,
            places[l].1,
        ) by {
            if l < front.len() {
                assert(places[k] == front[k] && places[l] == front[l]);
            } else {
                assert(places[l] == tail[l - front.len()]);
                if k < front.len() {
                    assert(places[k] == front[k]);
                } else {
                    assert(places[k] == tail[k - front.len()]);
                }
            }
        }
        assert forall|i: int, j: int| 0 <= i < n && 0 <= j < places_of(call.arg(i)) implies #[trigger] places.contains(
            (i, j),
        ) by {
            if i < n - 1 {
                assert(front.contains((i, j)));
                let k = choose|k: int| 0 <= k < front.len() && front[k] == (i, j);
                assert(places[k] == (i, j));
            } else {
                assert(tail[j] == (i, j));
                assert(places[front.len() + j] == (i, j));
            }
        }
        places
    }
}

/// The first error of contributions is what they come to.
proof fn lemma_any_error(items: Seq<Result<Option<bool>, ErrorKind>>)
    ensures
        (forall|i: int| 0 <= i < items.len() ==> (#[trigger] items[i]) is Ok) ==> any(items) is Ok,
        any(items) matches Err(k) ==> exists|i: int|
            0 <= i < items.len() && #[trigger] items[i] == Err::<Option<bool>, ErrorKind>(k) && forall|j: int|
                0 <= j < i ==> (#[trigger] items[j]) is Ok,
        any(items) is Ok ==> forall|i: int| 0 <= i < items.len() ==> (#[trigger] items[i]) is Ok,
    decreases items.len(),
{
    if items.len() > 0 {
        let front = items.drop_last();
        lemma_any_error(front);
        assert forall|i: int| 0 <= i < front.len() implies front[i] == #[trigger] items[i] by {}
        let z = items.len() - 1;
        assert(items[z] == items.last());
        match any(front) {
            Err(k) => {
                let i = choose|i: int|
                    0 <= i < front.len() && #[trigger] front[i] == Err::<Option<bool>, ErrorKind>(k) && forall|j: int|
                        0 <= j < i ==> (#[trigger] front[j]) is Ok;
                assert(items[i] == front[i]);
                assert forall|j: int| 0 <= j < i implies (#[trigger] items[j]) is Ok by {
                    assert(front[j] is Ok);
                }
            },
            Ok(_) => {
                assert forall|j: int| 0 <= j < z implies (#[trigger] items[j]) is Ok by {
                    assert(front[j] is Ok);
                }
            },
        }
    }
}

/// The law of the result: where no place of an argument says an error, it is true exactly
/// where one says true, false where one says something and none says true, and a value
/// error where none says anything; else it is the first error.
pub proof fn law_true_where_one_says_so(call: CallModel)
    ensures
        (forall|i: int, j: int| is_place(call, i, j) ==> (#[trigger] said(call, i, j)) is Ok) ==> {
            &&& (exists|i: int, j: int| is_place(call, i, j) && #[trigger] said(call, i, j) == Ok::<Option<bool>, ErrorKind>(
                Some(true),
            )) <==> result(call) == Val::Bool(true)
            &&& (forall|i: int, j: int| is_place(call, i, j) ==> #[trigger] said(call, i, j) == Ok::<Option<bool>, ErrorKind>(
                None,
            )) <==> result(call) == Val::Error(ErrorKind::Value)
            &&& result(call) == Val::Bool(true) || result(call) == Val::Bool(false) || result(call) == Val::Error(
                ErrorKind::Value,
            )
        },
        forall|i: int, j: int, k: ErrorKind| #[trigger] first_to_fail(call, i, j, k) ==> result(call) == Val::Error(k),
{
    let n = call.args.len() as int;
    let items = all_contributions(call, n);
    let places = lemma_laid_out(call, n);
    lemma_any_error(items);
    assert forall|i: int, j: int| is_place(call, i, j) implies exists|k: int|
        0 <= k < items.len() && #[trigger] places[k] == (i, j) && items[k] == #[trigger] said(call, i, j) by {
        assert(places.contains((i, j)));
        let k = choose|k: int| 0 <= k < places.len() && places[k] == (i, j);
        assert(places[k] == (i, j) && items[k] == said(call, i, j));
    }
    if forall|i: int, j: int| is_place(call, i, j) ==> (#[trigger] said(call, i, j)) is Ok {
        assert forall|k: int| 0 <= k < items.len() implies (#[trigger] items[k]) is Ok by {
            assert(is_place(call, places[k].0, places[k].1));
        }
        law_any_is_disjunction(items);
        if any(items) == Ok::<Option<bool>, ErrorKind>(Some(true)) {
            let k = choose|k: int| 0 <= k < items.len() && #[trigger] items[k] == Ok::<Option<bool>, ErrorKind>(Some(true));
            assert(is_place(call, places[k].0, places[k].1));
            assert(said(call, places[k].0, places[k].1) == Ok::<Option<bool>, ErrorKind>(Some(true)));
        }
        if forall|i: int, j: int| is_place(call, i, j) ==> #[trigger] said(call, i, j) == Ok::<Option<bool>, ErrorKind>(None) {
            assert forall|k: int| 0 <= k < items.len() implies #[trigger] items[k] == Ok::<Option<bool>, ErrorKind>(None) by {
                assert(is_place(call, places[k].0, places[k].1));
            }
        }
    }
    assert forall|i: int, j: int, k: ErrorKind| #[trigger] first_to_fail(call, i, j, k) implies result(call) == Val::Error(
        k,
    ) by {
        let at = choose|at: int|
            0 <= at < items.len() && #[trigger] places[at] == (i, j) && items[at] == said(call, i, j);
        assert(items[at] is Err);
        let e = any(items)->Err_0;
        let z = choose|z: int|
            0 <= z < items.len() && #[trigger] items[z] == Err::<Option<bool>, ErrorKind>(e) && forall|y: int|
                0 <= y < z ==> (#[trigger] items[y]) is Ok;
        assert(is_place(call, places[z].0, places[z].1));
        if z < at {
            assert(earlier(places[z].0, places[z].1, i, j));
            assert(said(call, places[z].0, places[z].1) is Ok);
        } else if at < z {
            assert(items[at] is Ok);
        }
    }
}

} // verus!
