//! `ISERROR(value)`: whether a value is an error. Arrays are refused.

use crate::args::{ready, CallArgs, CallModel};
use crate::model::EvalContext;
use crate::value::{ErrorKind, Val, Value};
use vstd::prelude::*;

verus! {

/// The answer for a value. A refusal of the evaluator is handed on.
pub open spec fn verdict(v: Val) -> Val {
    match v {
        Val::Error(k) if k.sentinel() => v,
        Val::Array(_) => Val::Error(ErrorKind::Unsupported),
        _ => Val::Bool(v is Error),
    }
}

/// The result of the call.
pub open spec fn result(call: CallModel) -> Val {
    verdict(call.scalar(0))
}

/// Evaluates the call.
pub fn eval<A: CallArgs>(_ctx: &EvalContext, args: &A) -> (v: Value)
    requires
        ready(args),
    ensures
        v@ == result(args.call()),
{
    let v = args.eval_scalar(0);
    if let Value::Array(_) = &v {
        return Value::Error(ErrorKind::Unsupported);
    }
    if let Value::Error(k) = &v {
        if k.is_recalc_sentinel() {
            return v;
        }
    }
    let b = match &v {
        Value::Error(_) => true,
        _ => false,
    };
    Value::Bool(b)
}

/// The law of the error tests: a value that none of them refuses is an error
/// exactly where it is one of those that `ISERR` or `ISNA` answers for, and no
/// value is both.
pub proof fn law_error_is_err_or_na(v: Val)
    requires
        !(v is Array),
        !(v matches Val::Error(k) && k.sentinel()),
    ensures
        (verdict(v) == Val::Bool(true)) == (crate::func_iserr::verdict(v) == Val::Bool(true)
            || crate::func_isna::verdict(v) == Val::Bool(true)),
        !(crate::func_iserr::verdict(v) == Val::Bool(true) && crate::func_isna::verdict(v)
            == Val::Bool(true)),
{
}

/// The law of refusals: a refusal of the evaluator passes through every test.
pub proof fn law_refusals_pass_through(k: ErrorKind)
    requires
        k.sentinel(),
    ensures
        verdict(Val::Error(k)) == Val::Error(k),
        crate::func_iserr::verdict(Val::Error(k)) == Val::Error(k),
        crate::func_isna::verdict(Val::Error(k)) == Val::Error(k),
        crate::func_isnumber::verdict(Val::Error(k)) == Val::Error(k),
        crate::func_istext::verdict(Val::Error(k)) == Val::Error(k),
        crate::func_isblank::verdict(Val::Error(k)) == Val::Error(k),
{
}

/// The law of the answer: it is true exactly of an error, and an array is refused. A refusal of the evaluator is handed on.
pub proof fn law_answer_follows_the_kind(call: CallModel)
    ensures
        (call.scalar(0) matches Val::Error(k) && (k == ErrorKind::Unsupported || k == ErrorKind::Blocked || k
            == ErrorKind::Resource)) ==> result(call) == call.scalar(0),
        call.scalar(0) is Array ==> result(call) == Val::Error(ErrorKind::Unsupported),
        !(call.scalar(0) matches Val::Error(k) && (k == ErrorKind::Unsupported || k == ErrorKind::Blocked || k
            == ErrorKind::Resource)) && !(call.scalar(0) is Array) ==> (result(call) matches Val::Bool(b) && (b <==> call.scalar(0) is Error)),
{
}

} // verus!
