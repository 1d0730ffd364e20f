//! `IFS(logical_test1, value1, [logical_test2, value2], ...)`: the value that
//! goes with the first test that holds.
//!
//! Tests are evaluated in turn up to the first that holds or fails, and of the
//! values only the one that goes with it. Where no test holds the result is the
//! error for a value that is not available; an odd number of arguments is refused.

use crate::args::{CallArgs, CallModel};
use crate::model::{logical, to_bool, EvalContext};
use crate::value::{ErrorKind, Val, Value};
use vstd::prelude::*;

verus! {

/// The outcome of test `k`, counted from zero.
pub open spec fn test(call: CallModel, k: int) -> Result<bool, ErrorKind> {
    logical(call.scalar(2 * k))
}

/// Every test before test `k` came out false.
pub open spec fn reached(call: CallModel, k: int) -> bool {
    forall|j: int| 0 <= j < k ==> #[trigger] test(call, j) == Ok::<bool, ErrorKind>(false)
}

/// The arguments that the call evaluates.
pub open spec fn forces(call: CallModel, i: int) -> bool {
    &&& call.args.len() % 2 == 0
    &&& 0 <= i < call.args.len()
    &&& reached(call, i / 2)
    &&& i % 2 == 1 ==> test(call, i / 2) == Ok::<bool, ErrorKind>(true)
}

/// The result of the pairs from pair `k` on.
pub open spec fn result_from(call: CallModel, k: int) -> Val
    decreases call.args.len() + 1 - 2 * k,
{
    if 2 * k >= call.args.len() {
        Val::Error(ErrorKind::Na)
    } else {
        match test(call, k) {
            Ok(true) => call.scalar(2 * k + 1),
            Ok(false) => result_from(call, k + 1),
            Err(e) => Val::Error(e),
        }
    }
}

/// The result of the call.
pub open spec fn result(call: CallModel) -> Val {
    if call.args.len() % 2 != 0 {
        Val::Error(ErrorKind::Unsupported)
    } else {
        result_from(call, 0)
    }
}

/// Evaluates the call, and of its arguments only those that it must.
pub fn eval<A: CallArgs>(_ctx: &EvalContext, args: &A) -> (v: Value)
    requires
        forall|i: int| forces(args.call(), i) ==> args.forceable(i),
    ensures
        v@ == result(args.call()),
{
    let count = args.count();
    if count % 2 != 0 {
        return Value::Error(ErrorKind::Unsupported);
    }
    let pairs = count / 2;
    for k in 0..pairs
        invariant
            count == args.call().args.len(),
            count % 2 == 0,
            pairs == count / 2,
            forall|i: int| forces(args.call(), i) ==> args.forceable(i),
            reached(args.call(), k as int),
            result(args.call()) == result_from(args.call(), k as int),
    {
        assert(forces(args.call(), 2 * k));
        match to_bool(&args.eval_scalar(2 * k)) {
            Ok(b) => {
                if b {
                    assert(forces(args.call(), 2 * k + 1));
                    return args.eval_scalar(2 * k + 1);
                }
            },
            Err(e) => {
                return Value::Error(e);
            },
        }
    }
    Value::Error(ErrorKind::Na)
}

/// The law of the first true test: where every test before test `k` came out
/// false and test `k` holds, the result is the value that goes with it, whatever
/// the arguments after it are.
pub proof fn law_first_true_test_decides(call: CallModel, k: int)
    requires
        call.args.len() % 2 == 0,
        0 <= k,
        2 * k < call.args.len(),
        reached(call, k),
        test(call, k) == Ok::<bool, ErrorKind>(true),
    ensures
        result(call) == call.scalar(2 * k + 1),
{
    lemma_skips_false_tests(call, 0, k);
}

proof fn lemma_skips_false_tests(call: CallModel, from: int, k: int)
    requires
        0 <= from <= k,
        2 * k <= call.args.len(),
        reached(call, k),
    ensures
        result_from(call, from) == result_from(call, k),
    decreases k - from,
{
    if from < k {
        assert(test(call, from) == Ok::<bool, ErrorKind>(false));
        lemma_skips_false_tests(call, from + 1, k);
    }
}

/// Where no test holds and none fails, the value is not available.
pub proof fn law_no_true_test_is_na(call: CallModel)
    requires
        call.args.len() % 2 == 0,
        reached(call, (call.args.len() / 2) as int),
    ensures
        result(call) == Val::Error(ErrorKind::Na),
{
    lemma_skips_false_tests(call, 0, (call.args.len() / 2) as int);
}

/// The test in argument `2 * j` stands for false.
pub open spec fn turned_down(call: CallModel, j: int) -> bool {
    logical(call.scalar(2 * j)) == Ok::<bool, ErrorKind>(false)
}

/// The law of the result: it is the argument after the first test that does not stand for
/// false, where that test stands for true, and else the error of that test; where all
/// stand for false, the value is not available; an odd number of arguments is refused.
pub proof fn law_first_test_not_false_decides(call: CallModel, k: int)
    ensures
        call.args.len() % 2 == 1 ==> result(call) == Val::Error(ErrorKind::Unsupported),
        call.args.len() % 2 == 0 && 0 <= k && 2 * k < call.args.len() && (forall|j: int|
            0 <= j < k ==> #[trigger] turned_down(call, j)) ==> match logical(call.scalar(2 * k)) {
            Ok(true) => result(call) == call.scalar(2 * k + 1),
            Err(e) => result(call) == Val::Error(e),
            Ok(false) => true,
        },
        call.args.len() % 2 == 0 && (forall|j: int| 0 <= j && 2 * j < call.args.len() ==> #[trigger] turned_down(call, j))
            ==> result(call) == Val::Error(ErrorKind::Na),
{
    if call.args.len() % 2 == 0 {
        if 0 <= k && 2 * k < call.args.len() && (forall|j: int| 0 <= j < k ==> #[trigger] turned_down(call, j)) {
            lemma_passed_over(call, 0, k);
        }
        if forall|j: int| 0 <= j && 2 * j < call.args.len() ==> #[trigger] turned_down(call, j) {
            lemma_passed_over(call, 0, (call.args.len() / 2) as int);
        }
    }
}

/// Tests that stand for false are passed over.
proof fn lemma_passed_over(call: CallModel, from: int, k: int)
    requires
        0 <= from <= k,
        2 * k <= call.args.len(),
        forall|j: int| 0 <= j < k ==> #[trigger] turned_down(call, j),
    ensures
        result_from(call, from) == result_from(call, k),
    decreases k - from,
{
    if from < k {
        assert(turned_down(call, from));
        lemma_passed_over(call, from + 1, k);
    }
}

} // verus!
