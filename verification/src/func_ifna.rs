//! `IFNA(value, value_if_na)`: the value, unless it is the error for a value
//! that is not available.
//!
//! The fallback is evaluated only where it is needed. Ranges and array constants
//! are refused in both positions, the fallback's only where it is needed.

use crate::args::{ArgShape, CallArgs, CallModel};
use crate::model::EvalContext;
use crate::value::{ErrorKind, Val, Value};
use vstd::prelude::*;

verus! {

/// Argument `i` is a range or an array constant.
pub open spec fn array_operand(call: CallModel, i: int) -> bool {
    call.arg(i).shape == ArgShape::Range || call.arg(i).shape == ArgShape::Array
}

/// The arguments that the call evaluates.
pub open spec fn forces(call: CallModel, i: int) -> bool {
    !array_operand(call, 0) && (i == 0 || (i == 1 && call.scalar(0) == Val::Error(ErrorKind::Na)
        && !array_operand(call, 1)))
}

/// The result of the call.
pub open spec fn result(call: CallModel) -> Val {
    if array_operand(call, 0) {
        Val::Error(ErrorKind::Unsupported)
    } else if call.scalar(0) != Val::Error(ErrorKind::Na) {
        call.scalar(0)
    } else if array_operand(call, 1) {
        Val::Error(ErrorKind::Unsupported)
    } else {
        call.scalar(1)
    }
}

/// Whether argument `index` is a range or an array constant.
pub fn is_array_operand<A: CallArgs>(args: &A, index: usize) -> (b: bool)
    ensures
        b == array_operand(args.call(), index as int),
{
    match args.shape(index) {
        ArgShape::Range => true,
        ArgShape::Array => true,
        _ => false,
    }
}

/// Evaluates the call, and of its arguments only those that it must.
pub fn eval<A: CallArgs>(_ctx: &EvalContext, args: &A) -> (v: Value)
    requires
        forall|i: int| forces(args.call(), i) ==> args.forceable(i),
    ensures
        v@ == result(args.call()),
{
    if is_array_operand(args, 0) {
        return Value::Error(ErrorKind::Unsupported);
    }
    assert(forces(args.call(), 0));
    let value = args.eval_scalar(0);
    match value.error() {
        Some(k) => {
            if k != ErrorKind::Na {
                return value;
            }
        },
        None => {
            return value;
        },
    }
    if is_array_operand(args, 1) {
        return Value::Error(ErrorKind::Unsupported);
    }
    assert(forces(args.call(), 1));
    args.eval_scalar(1)
}

/// The law of the fallback: only the error for a value that is not available gives way to
/// the fallback. A range or an array constant for the value is refused, and one for the
/// fallback where it is needed.
pub proof fn law_only_na_gives_way(call: CallModel)
    ensures
        call.arg(0).shape == ArgShape::Range || call.arg(0).shape == ArgShape::Array ==> result(call) == Val::Error(
            ErrorKind::Unsupported,
        ),
        call.arg(0).shape != ArgShape::Range && call.arg(0).shape != ArgShape::Array ==> {
            &&& call.scalar(0) != Val::Error(ErrorKind::Na) ==> result(call) == call.scalar(0)
            &&& call.scalar(0) == Val::Error(ErrorKind::Na) ==> result(call) == (if call.arg(1).shape == ArgShape::Range
                || call.arg(1).shape == ArgShape::Array {
                Val::Error(ErrorKind::Unsupported)
            } else {
                call.scalar(1)
            })
        },
{
}

} // verus!
