//! `ISBLANK(value)`: whether a value is blank.
//!
//! Where an array is taken, an array of several cells is tested cell by cell.

use crate::args::{ready, CallArgs, CallModel};
use crate::model::EvalContext;
use crate::value::{views, Array, ErrorKind, Grid, Val, Value};
use vstd::prelude::*;

verus! {

/// The answer for a value. A refusal of the evaluator is handed on.
pub open spec fn verdict(v: Val) -> Val {
    match v {
        Val::Error(k) if k.sentinel() => v,
        _ => Val::Bool(v is Blank),
    }
}

/// The answers for the cells of a rectangle.
pub open spec fn verdicts(g: Grid) -> Val {
    Val::Array(Grid { rows: g.rows, cols: g.cols, cells: g.cells.map_values(|v: Val| verdict(v)) })
}

/// The result of the call.
pub open spec fn result(call: CallModel) -> Val {
    match call.scalar(0) {
        Val::Array(g) => if call.array_context && !g.single() {
            verdicts(g)
        } else {
            verdict(call.scalar(0))
        },
        v => verdict(v),
    }
}

fn test(v: &Value) -> (r: Value)
    ensures
        r@ == verdict(v@),
{
    if let Value::Error(k) = v {
        if k.is_recalc_sentinel() {
            return Value::Error(*k);
        }
    }
    Value::Bool(v.is_blank())
}

/// Tests the cells of an array.
pub fn map_isblank(a: &Array) -> (v: Value)
    ensures
        v@ == verdicts(a@),
{
    let cells = a.data();
    let mut data: Vec<Value> = Vec::new();
    for i in 0..cells.len()
        invariant
            data@.len() == i,
            forall|j: int| 0 <= j < i ==> (#[trigger] data@[j])@ == verdict(cells@[j]@),
    {
        data.push(test(&cells[i]));
    }
    assert(views(data@) == a@.cells.map_values(|v: Val| verdict(v)));
    assert(data@.len() == a@.cells.len());
    match Array::new(a.rows(), a.cols(), data) {
        Some(arr) => Value::Array(arr),
        None => Value::Error(ErrorKind::Unsupported),
    }
}

/// Evaluates the call.
pub fn eval<A: CallArgs>(_ctx: &EvalContext, args: &A) -> (v: Value)
    requires
        ready(args),
    ensures
        v@ == result(args.call()),
{
    let v = args.eval_scalar(0);
    if args.array_arg_ctx() {
        if let Value::Array(a) = &v {
            if a.as_scalar().is_none() {
                return map_isblank(a);
            }
        }
    }
    test(&v)
}

/// The law of the answer: of a single value it is true exactly of a blank. A refusal of the evaluator is handed on.
pub proof fn law_answer_follows_the_kind(call: CallModel)
    ensures
        (call.scalar(0) matches Val::Error(k) && (k == ErrorKind::Unsupported || k == ErrorKind::Blocked || k
            == ErrorKind::Resource)) ==> result(call) == call.scalar(0),
        !(call.scalar(0) matches Val::Error(k) && (k == ErrorKind::Unsupported || k == ErrorKind::Blocked || k
            == ErrorKind::Resource)) && !(call.scalar(0) is Array) ==> (result(call) matches Val::Bool(b) && (b <==> call.scalar(0) is Blank)),
{
}

/// The law of the cells: where an array is taken, an array of several cells is answered
/// cell by cell, each as a single value is; anywhere else an array is not blank.
pub proof fn law_cells_are_answered_one_by_one(call: CallModel, g: Grid, p: int)
    requires
        call.scalar(0) == Val::Array(g),
        0 <= p < g.cells.len(),
    ensures
        call.array_context && (g.rows != 1 || g.cols != 1) ==> (result(call) matches Val::Array(r) && r.rows == g.rows
            && r.cols == g.cols && r.cells.len() == g.cells.len() && match g.cells[p] {
            Val::Error(ErrorKind::Unsupported) => r.cells[p] == g.cells[p],
            Val::Error(ErrorKind::Blocked) => r.cells[p] == g.cells[p],
            Val::Error(ErrorKind::Resource) => r.cells[p] == g.cells[p],
            Val::Blank => r.cells[p] == Val::Bool(true),
            _ => r.cells[p] == Val::Bool(false),
        }),
        !call.array_context || (g.rows == 1 && g.cols == 1) ==> result(call) == Val::Bool(false),
{
}

} // verus!
