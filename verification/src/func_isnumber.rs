//! `ISNUMBER(value)`: whether a value is a number. Arrays are refused.

use crate::args::{ready, CallArgs, CallModel};
use crate::model::EvalContext;
use crate::value::{ErrorKind, Val, Value};
use vstd::prelude::*;

verus! {

/// The answer for a value. A refusal of the evaluator is handed on.
pub open spec fn verdict(v: Val) -> Val {
    match v {
        Val::Error(k) if k.sentinel() => v,
        Val::Array(_) => Val::Error(ErrorKind::Unsupported),
        _ => Val::Bool(v is Number),
    }
}

/// The result of the call.
pub open spec fn result(call: CallModel) -> Val {
    verdict(call.scalar(0))
}

/// Evaluates the call.
pub fn eval<A: CallArgs>(_ctx: &EvalContext, args: &A) -> (v: Value)
    requires
        ready(args),
    ensures
        v@ == result(args.call()),
{
    let v = args.eval_scalar(0);
    if let Value::Array(_) = &v {
        return Value::Error(ErrorKind::Unsupported);
    }
    if let Value::Error(k) = &v {
        if k.is_recalc_sentinel() {
            return v;
        }
    }
    let b = match &v {
        Value::Number(_) => true,
        _ => false,
    };
    Value::Bool(b)
}

/// The law of the answer: it is true exactly of a number, and an array is refused. A refusal of the evaluator is handed on.
pub proof fn law_answer_follows_the_kind(call: CallModel)
    ensures
        (call.scalar(0) matches Val::Error(k) && (k == ErrorKind::Unsupported || k == ErrorKind::Blocked || k
            == ErrorKind::Resource)) ==> result(call) == call.scalar(0),
        call.scalar(0) is Array ==> result(call) == Val::Error(ErrorKind::Unsupported),
        !(call.scalar(0) matches Val::Error(k) && (k == ErrorKind::Unsupported || k == ErrorKind::Blocked || k
            == ErrorKind::Resource)) && !(call.scalar(0) is Array) ==> (result(call) matches Val::Bool(b) && (b <==> call.scalar(0) is Number)),
{
}

} // verus!
