//! `ISERR(value)`: whether a value is an error other than the one for a value
//! that is not available.

use crate::args::{ready, CallArgs, CallModel};
use crate::model::EvalContext;
use crate::value::{ErrorKind, Val, Value};
use vstd::prelude::*;

verus! {

/// The answer for a value. A refusal of the evaluator is handed on.
pub open spec fn verdict(v: Val) -> Val {
    match v {
        Val::Error(k) if k.sentinel() => v,
        _ => Val::Bool(v is Error && v != Val::Error(ErrorKind::Na)),
    }
}

/// The result of the call.
pub open spec fn result(call: CallModel) -> Val {
    verdict(call.scalar(0))
}

/// Evaluates the call.
pub fn eval<A: CallArgs>(_ctx: &EvalContext, args: &A) -> (v: Value)
    requires
        ready(args),
    ensures
        v@ == result(args.call()),
{
    let v = args.eval_scalar(0);
    if let Value::Error(k) = &v {
        if k.is_recalc_sentinel() {
            return v;
        }
    }
    let b = match &v {
        Value::Error(k) => *k != ErrorKind::Na,
        _ => false,
    };
    Value::Bool(b)
}

/// The law of the answer: it is true exactly of an error other than the one for a value that is
/// not available. A refusal of the evaluator is handed on.
pub proof fn law_answer_follows_the_kind(call: CallModel)
    ensures
        (call.scalar(0) matches Val::Error(k) && (k == ErrorKind::Unsupported || k == ErrorKind::Blocked || k
            == ErrorKind::Resource)) ==> result(call) == call.scalar(0),
        !(call.scalar(0) matches Val::Error(k) && (k == ErrorKind::Unsupported || k == ErrorKind::Blocked || k
            == ErrorKind::Resource)) ==> (result(call) matches Val::Bool(b) && (b <==> (call.scalar(0) is Error && call.scalar(0) != Val::Error(ErrorKind::Na)))),
{
}

} // verus!
