//! `NOT(logical)`: the opposite of a logical value.
//!
//! Where an array is taken, an array of several cells is negated cell by cell.

use crate::args::{ready, CallArgs, CallModel};
use crate::model::{logical, to_bool, EvalContext};
use crate::value::{views, Array, ErrorKind, Grid, Val, Value};
use vstd::prelude::*;

verus! {

/// The opposite of the logical value that `v` stands for, or the error that it
/// does not stand for one.
pub open spec fn negation(v: Val) -> Val {
    match logical(v) {
        Ok(b) => Val::Bool(!b),
        Err(k) => Val::Error(k),
    }
}

/// The result of the call.
pub open spec fn result(call: CallModel) -> Val {
    match call.scalar(0) {
        Val::Array(g) => if call.array_context && !g.single() {
            Val::Array(
                Grid { rows: g.rows, cols: g.cols, cells: g.cells.map_values(|v: Val| negation(v)) },
            )
        } else {
            negation(call.scalar(0))
        },
        v => negation(v),
    }
}

fn negate(v: &Value) -> (r: Value)
    ensures
        r@ == negation(v@),
{
    match to_bool(v) {
        Ok(b) => Value::Bool(!b),
        Err(k) => Value::Error(k),
    }
}

fn negate_all(a: &Array) -> (v: Value)
    ensures
        v@ == Val::Array(
            (Grid {
                rows: a@.rows,
                cols: a@.cols,
                cells: a@.cells.map_values(|v: Val| negation(v)),
            }),
        ),
{
    let cells = a.data();
    let mut data: Vec<Value> = Vec::new();
    for i in 0..cells.len()
        invariant
            data@.len() == i,
            forall|j: int| 0 <= j < i ==> (#[trigger] data@[j])@ == negation(cells@[j]@),
    {
        data.push(negate(&cells[i]));
    }
    assert(views(data@) == a@.cells.map_values(|v: Val| negation(v)));
    assert(data@.len() == a@.cells.len());
    match Array::new(a.rows(), a.cols(), data) {
        Some(arr) => Value::Array(arr),
        None => Value::Error(ErrorKind::Unsupported),
    }
}

/// Evaluates the call.
pub fn eval<A: CallArgs>(_ctx: &EvalContext, args: &A) -> (v: Value)
    requires
        ready(args),
    ensures
        v@ == result(args.call()),
{
    let v = args.eval_scalar(0);
    if args.array_arg_ctx() {
        if let Value::Array(a) = &v {
            if a.as_scalar().is_none() {
                return negate_all(a);
            }
        }
    }
    negate(&v)
}

/// Negating a negation gives back the logical value that the argument stands for.
pub proof fn law_double_negation(v: Val)
    requires
        logical(v) is Ok,
    ensures
        negation(negation(v)) == Val::Bool(logical(v)->Ok_0),
{
}

/// The law of the opposite: the result is true exactly where the argument stands for
/// false, and the error where it stands for no logical value. Where an array is taken, an
/// array of several cells is answered cell by cell.
pub proof fn law_result_is_the_opposite(call: CallModel, p: int)
    ensures
        !(call.array_context && call.scalar(0) is Array) ==> match logical(call.scalar(0)) {
            Ok(b) => result(call) matches Val::Bool(r) && r != b,
            Err(k) => result(call) == Val::Error(k),
        },
        (call.scalar(0) matches Val::Array(g) && call.array_context && (g.rows != 1 || g.cols != 1) && 0 <= p
            < g.cells.len()) ==> (result(call) matches Val::Array(r) && r.rows == call.scalar(0)->Array_0.rows && r.cols
            == call.scalar(0)->Array_0.cols && r.cells.len() == call.scalar(0)->Array_0.cells.len() && match logical(
            call.scalar(0)->Array_0.cells[p],
        ) {
            Ok(b) => r.cells[p] matches Val::Bool(x) && x != b,
            Err(k) => r.cells[p] == Val::Error(k),
        }),
{
}

} // verus!
