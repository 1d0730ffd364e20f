//! `IF(logical_test, [value_if_true], [value_if_false])`: one of two arguments,
//! by a logical test.
//!
//! Only the chosen argument is evaluated. A choice that the call has no slot for
//! is the logical false; an empty slot is zero. Where an array is taken, an array
//! of tests chooses cell by cell between two arguments that are both given, each of
//! which is one value or an array of the extent of the tests; a choice of another
//! extent is refused, whether or not a test chooses it.

use crate::args::{ArgShape, CallArgs, CallModel};
use crate::model::{logical, to_bool, EvalContext};
use crate::number::{counted, Number};
use crate::value::{views, Array, ErrorKind, Grid, Val, Value};
use vstd::prelude::*;

verus! {

/// The test is an array of several cells in a position that takes arrays.
pub open spec fn chooses_cellwise(call: CallModel) -> bool {
    call.array_context && (call.scalar(0) matches Val::Array(g) && !g.single())
}

/// The position of the argument that a test chooses.
pub open spec fn branch(test: bool) -> int {
    if test {
        1
    } else {
        2
    }
}

/// Argument `i` has a slot that is not empty.
pub open spec fn given(call: CallModel, i: int) -> bool {
    i < call.args.len() && call.arg(i).shape != ArgShape::Omitted
}

/// The arguments that the call evaluates: the test, and then the chosen one, or
/// both where the test chooses cell by cell.
pub open spec fn forces(call: CallModel, i: int) -> bool {
    i == 0 || (given(call, i) && if chooses_cellwise(call) {
        (i == 1 || i == 2) && given(call, 1) && given(call, 2)
    } else {
        logical(call.scalar(0)) matches Ok(test) && i == branch(test)
    })
}

/// A choice has a value for every test of a rectangle: it is one value, or an array
/// of the extent of the rectangle.
pub open spec fn fits(choice: Val, g: Grid) -> bool {
    choice matches Val::Array(c) ==> c.single() || (c.rows == g.rows && c.cols == g.cols)
}

/// The value of a choice that fits which answers a test at position `p` of a
/// rectangle: the cell at that position, or the one value there is.
pub open spec fn counterpart(choice: Val, p: int) -> Val {
    match choice {
        Val::Array(c) => if c.single() {
            c.at(0, 0)
        } else {
            c.cells[p]
        },
        _ => choice,
    }
}

/// What the test at position `p` of a rectangle chooses.
pub open spec fn chosen(g: Grid, yes: Val, no: Val, p: int) -> Val {
    match logical(g.cells[p]) {
        Ok(test) => counterpart(
            if test {
                yes
            } else {
                no
            },
            p,
        ),
        Err(k) => Val::Error(k),
    }
}

/// The result of a rectangle of tests.
pub open spec fn selection(g: Grid, yes: Val, no: Val) -> Val {
    if !fits(yes, g) || !fits(no, g) {
        Val::Error(ErrorKind::Unsupported)
    } else {
        Val::Array(
            Grid {
                rows: g.rows,
                cols: g.cols,
                cells: Seq::new(g.cells.len(), |p: int| chosen(g, yes, no, p)),
            },
        )
    }
}

/// The result of the call.
pub open spec fn result(call: CallModel) -> Val {
    if chooses_cellwise(call) {
        if given(call, 1) && given(call, 2) {
            selection(call.scalar(0)->Array_0, call.scalar(1), call.scalar(2))
        } else {
            Val::Error(ErrorKind::Unsupported)
        }
    } else {
        match logical(call.scalar(0)) {
            Err(k) => Val::Error(k),
            Ok(test) => if branch(test) >= call.args.len() {
                Val::Bool(false)
            } else if !given(call, branch(test)) {
                Val::Number(counted(0))
            } else {
                call.scalar(branch(test))
            },
        }
    }
}

/// The value of `choice` that answers a test at position `p` of the array `tests`,
/// unless the choice does not fit the tests.
pub fn branch_elem(choice: &Value, p: usize, tests: &Array) -> (r: Option<Value>)
    requires
        p < tests@.cells.len(),
    ensures
        match r {
            Some(v) => fits(choice@, tests@) && v@ == counterpart(choice@, p as int),
            None => !fits(choice@, tests@),
        },
{
    match choice {
        Value::Array(a) => match a.as_scalar() {
            Some(v) => Some(v.duplicate()),
            None => if a.rows() == tests.rows() && a.cols() == tests.cols() {
                let cells = a.data();
                let others = tests.data();
                assert(cells@.len() == others@.len()) by {
                    assert(views(cells@).len() == cells@.len());
                    assert(views(others@).len() == others@.len());
                }
                Some(cells[p].duplicate())
            } else {
                None
            },
        },
        _ => Some(choice.duplicate()),
    }
}

/// Whether a choice has a value for every test of the array `tests`.
fn has_values_for(choice: &Value, tests: &Array) -> (b: bool)
    ensures
        b == fits(choice@, tests@),
{
    match choice {
        Value::Array(a) => a.as_scalar().is_some() || (a.rows() == tests.rows() && a.cols() == tests.cols()),
        _ => true,
    }
}

/// Chooses cell by cell between the arguments after the first. Both are evaluated where
/// both are given, and else neither, which is refused.
pub fn array_select<A: CallArgs>(args: &A, tests: &Array) -> (v: Value)
    requires
        given(args.call(), 1) && given(args.call(), 2) ==> args.forceable(1) && args.forceable(2),
    ensures
        v@ == if given(args.call(), 1) && given(args.call(), 2) {
            selection(tests@, args.call().scalar(1), args.call().scalar(2))
        } else {
            Val::Error(ErrorKind::Unsupported)
        },
{
    if args.count() < 3 || args.shape(1) == ArgShape::Omitted || args.shape(2) == ArgShape::Omitted {
        return Value::Error(ErrorKind::Unsupported);
    }
    let yes = args.eval_scalar(1);
    let no = args.eval_scalar(2);
    if !has_values_for(&yes, tests) || !has_values_for(&no, tests) {
        return Value::Error(ErrorKind::Unsupported);
    }
    let ghost g = tests@;
    let cells = tests.data();
    assert(views(cells@).len() == cells@.len());
    let mut data: Vec<Value> = Vec::new();
    for p in 0..cells.len()
        invariant
            g == tests@,
            views(cells@) == g.cells,
            cells@.len() == g.cells.len(),
            data@.len() == p,
            yes@ == args.call().scalar(1),
            no@ == args.call().scalar(2),
            given(args.call(), 1),
            given(args.call(), 2),
            fits(yes@, g),
            fits(no@, g),
            forall|q: int| 0 <= q < p ==> (#[trigger] data@[q])@ == chosen(g, yes@, no@, q),
    {
        assert(g.cells[p as int] == cells@[p as int]@);
        let el = match to_bool(&cells[p]) {
            Ok(test) => if test {
                branch_elem(&yes, p, tests)
            } else {
                branch_elem(&no, p, tests)
            },
            Err(k) => Some(Value::Error(k)),
        };
        match el {
            Some(v) => data.push(v),
            None => {
                return Value::Error(ErrorKind::Unsupported);
            },
        }
    }
    assert(views(data@) == Seq::new(g.cells.len(), |q: int| chosen(g, yes@, no@, q)));
    match Array::new(tests.rows(), tests.cols(), data) {
        Some(a) => Value::Array(a),
        None => Value::Error(ErrorKind::Unsupported),
    }
}

/// Evaluates the call, and of its arguments only those that it must.
pub fn eval<A: CallArgs>(_ctx: &EvalContext, args: &A) -> (v: Value)
    requires
        forall|i: int| forces(args.call(), i) ==> args.forceable(i),
    ensures
        v@ == result(args.call()),
{
    assert(forces(args.call(), 0));
    let test_value = args.eval_scalar(0);
    if args.array_arg_ctx() {
        if let Value::Array(tests) = &test_value {
            if tests.as_scalar().is_none() {
                assert(given(args.call(), 1) && given(args.call(), 2) ==> forces(args.call(), 1) && forces(
                    args.call(),
                    2,
                ));
                return array_select(args, tests);
            }
        }
    }
    let test = match to_bool(&test_value) {
        Ok(b) => b,
        Err(k) => {
            return Value::Error(k);
        },
    };
    let chosen_arg: usize = if test {
        1
    } else {
        2
    };
    if chosen_arg >= args.count() {
        return Value::Bool(false);
    }
    if args.shape(chosen_arg) == ArgShape::Omitted {
        return Value::Number(Number::from_count(0));
    }
    assert(forces(args.call(), chosen_arg as int));
    args.eval_scalar(chosen_arg)
}

/// The law of cellwise choice: where both choices fit the tests, the result has the
/// extent of the tests, and each of its cells is the error of its test or what that
/// test chooses. Choices of another extent are refused whatever the tests are.
pub proof fn law_choices_must_fit(g: Grid, yes: Val, no: Val, p: int)
    requires
        0 <= p < g.cells.len(),
    ensures
        !fits(yes, g) || !fits(no, g) ==> selection(g, yes, no) == Val::Error(ErrorKind::Unsupported),
        fits(yes, g) && fits(no, g) ==> (selection(g, yes, no) matches Val::Array(r) && r.rows == g.rows && r.cols
            == g.cols && r.cells.len() == g.cells.len() && r.cells[p] == match logical(g.cells[p]) {
            Ok(true) => counterpart(yes, p),
            Ok(false) => counterpart(no, p),
            Err(k) => Val::Error(k),
        }),
{
}

/// The law of lazy choice: the result depends on the test and on the chosen
/// argument alone. Two calls that agree on them, on their shapes and on their
/// number of arguments have the same result, whatever the other argument holds.
pub proof fn law_unchosen_argument_is_irrelevant(a: CallModel, b: CallModel)
    requires
        !chooses_cellwise(a),
        a.array_context == b.array_context,
        a.args.len() == b.args.len(),
        a.scalar(0) == b.scalar(0),
        logical(a.scalar(0)) matches Ok(test) ==> a.arg(branch(test)) == b.arg(branch(test)),
    ensures
        result(a) == result(b),
{
}

/// The law of the choice: a single test that stands for true chooses the second argument
/// and one that stands for false the third. Without the slot the result is the logical
/// false, and of an empty slot it is zero.
pub proof fn law_test_chooses(call: CallModel)
    requires
        !(call.array_context && call.scalar(0) is Array),
    ensures
        match logical(call.scalar(0)) {
            Err(k) => result(call) == Val::Error(k),
            Ok(true) => if call.args.len() <= 1 {
                result(call) == Val::Bool(false)
            } else if call.arg(1).shape == ArgShape::Omitted {
                result(call) matches Val::Number(n) && n.units() == 0
            } else {
                result(call) == call.scalar(1)
            },
            Ok(false) => if call.args.len() <= 2 {
                result(call) == Val::Bool(false)
            } else if call.arg(2).shape == ArgShape::Omitted {
                result(call) matches Val::Number(n) && n.units() == 0
            } else {
                result(call) == call.scalar(2)
            },
        },
{
    crate::number::lemma_counted_exactly(0);
}

/// The value `x` is what the choice holds for position `p` of an array of the extent of
/// `g`: the cell there, or the one value that the choice is.
pub open spec fn holds_at(choice: Val, g: Grid, p: int, x: Val) -> bool {
    match choice {
        Val::Array(c) => if c.rows == 1 && c.cols == 1 {
            x == c.cells[0]
        } else {
            x == c.cells[p]
        },
        v => x == v,
    }
}

/// The law of the cells: where an array is taken, each cell of an array of several tests
/// chooses between what the second and the third argument hold for its position. Without
/// either argument, or with an array of another extent for one, the call is refused.
pub proof fn law_each_test_chooses(call: CallModel, g: Grid, p: int)
    requires
        call.array_context,
        call.scalar(0) == Val::Array(g),
        g.rows != 1 || g.cols != 1,
        0 <= p < g.cells.len(),
    ensures
        call.args.len() < 3 || call.arg(1).shape == ArgShape::Omitted || call.arg(2).shape == ArgShape::Omitted ==> result(
            call,
        ) == Val::Error(ErrorKind::Unsupported),
        (call.scalar(1) matches Val::Array(c) && (c.rows != 1 || c.cols != 1) && (c.rows != g.rows || c.cols != g.cols))
            ==> result(call) == Val::Error(ErrorKind::Unsupported),
        (call.scalar(2) matches Val::Array(c) && (c.rows != 1 || c.cols != 1) && (c.rows != g.rows || c.cols != g.cols))
            ==> result(call) == Val::Error(ErrorKind::Unsupported),
        call.args.len() >= 3 && call.arg(1).shape != ArgShape::Omitted && call.arg(2).shape != ArgShape::Omitted && (
        call.scalar(1) matches Val::Array(c) ==> (c.rows == 1 && c.cols == 1) || (c.rows == g.rows && c.cols == g.cols)) && (
        call.scalar(2) matches Val::Array(c) ==> (c.rows == 1 && c.cols == 1) || (c.rows == g.rows && c.cols == g.cols))
            ==> (result(call) matches Val::Array(r) && r.rows == g.rows && r.cols == g.cols && r.cells.len()
            == g.cells.len() && match logical(g.cells[p]) {
            Ok(true) => holds_at(call.scalar(1), g, p, r.cells[p]),
            Ok(false) => holds_at(call.scalar(2), g, p, r.cells[p]),
            Err(k) => r.cells[p] == Val::Error(k),
        }),
{
}

} // verus!
