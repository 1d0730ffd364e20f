//! Leading arguments taken as numbers.

use crate::args::{ready, CallArgs, CallModel};
use crate::model::ValueModel;
use crate::number::Number;
use crate::value::ErrorKind;
use vstd::prelude::*;

verus! {

/// The numbers that the first `n` arguments stand for, or the first error in the
/// order of the arguments.
pub open spec fn operands(m: &ValueModel, call: CallModel, n: nat) -> Result<Seq<Number>, ErrorKind>
    decreases n,
{
    if n == 0 {
        Ok(Seq::empty())
    } else {
        match operands(m, call, (n - 1) as nat) {
            Err(k) => Err(k),
            Ok(ns) => match m.numeric(call.scalar(n - 1)) {
                Ok(x) => Ok(ns.push(x)),
                Err(k) => Err(k),
            },
        }
    }
}

/// An error among the first operands is the error of all.
proof fn lemma_error_is_final(m: &ValueModel, call: CallModel, i: nat, n: nat)
    requires
        i <= n,
        operands(m, call, i) is Err,
    ensures
        operands(m, call, n) == operands(m, call, i),
    decreases n - i,
{
    if i < n {
        lemma_error_is_final(m, call, i, (n - 1) as nat);
    }
}

/// Each operand is the number that its own argument stands for.
pub proof fn lemma_operand(m: &ValueModel, call: CallModel, n: nat)
    ensures
        operands(m, call, n) matches Ok(ns) ==> ns.len() == n && forall|i: int|
            0 <= i < n ==> m.numeric(call.scalar(i)) == Ok::<Number, ErrorKind>(#[trigger] ns[i]),
    decreases n,
{
    if n > 0 {
        lemma_operand(m, call, (n - 1) as nat);
    }
}

/// The numbers that the first `n` arguments stand for, or the first error in the
/// order of the arguments.
pub fn coerce_operands<A: CallArgs>(m: &ValueModel, args: &A, n: usize) -> (r: Result<
    Vec<Number>,
    ErrorKind,
>)
    requires
        ready(args),
    ensures
        match r {
            Ok(ns) => ns@.len() == n && operands(m, args.call(), n as nat) == Ok::<
                Seq<Number>,
                ErrorKind,
            >(ns@),
            Err(k) => operands(m, args.call(), n as nat) == Err::<Seq<Number>, ErrorKind>(k),
        },
{
    let mut ns: Vec<Number> = Vec::new();
    assert(ns@ == Seq::<Number>::empty());
    for i in 0..n
        invariant
            ready(args),
            ns@.len() == i,
            operands(m, args.call(), i as nat) == Ok::<Seq<Number>, ErrorKind>(ns@),
    {
        match m.to_number(&args.eval_scalar(i)) {
            Ok(x) => {
                ns.push(x);
            },
            Err(k) => {
                proof {
                    lemma_error_is_final(m, args.call(), (i + 1) as nat, n as nat);
                }
                return Err(k);
            },
        }
    }
    Ok(ns)
}

/// The number `n` is the one that argument `i` stands for.
pub open spec fn stands(m: &ValueModel, call: CallModel, i: int, n: Number) -> bool {
    m.numeric(call.scalar(i)) == Ok::<Number, ErrorKind>(n)
}

/// Each of the first `n` arguments stands for a number.
pub open spec fn all_stand(m: &ValueModel, call: CallModel, n: int) -> bool {
    forall|i: int| 0 <= i < n ==> m.numeric(#[trigger] call.scalar(i)) is Ok
}

/// Argument `i` is the first of the first `n` that stands for no number, with the error `k`.
pub open spec fn fails_as(m: &ValueModel, call: CallModel, n: int, i: int, k: ErrorKind) -> bool {
    0 <= i < n && m.numeric(call.scalar(i)) == Err::<Number, ErrorKind>(k) && all_stand(m, call, i)
}

/// The law of the operands: each is the number that the argument at its own place stands
/// for, and the first argument that stands for none decides.
pub proof fn law_operands_are_the_arguments(m: &ValueModel, call: CallModel, n: nat)
    ensures
        operands(m, call, n) matches Ok(ns) ==> ns.len() == n && all_stand(m, call, n as int) && forall|i: int|
            0 <= i < n ==> stands(m, call, i, #[trigger] ns[i]),
        operands(m, call, n) matches Err(k) ==> exists|i: int| fails_as(m, call, n as int, i, k),
    decreases n,
{
    if n > 0 {
        law_operands_are_the_arguments(m, call, (n - 1) as nat);
        match operands(m, call, (n - 1) as nat) {
            Err(k) => {
                let before = n - 1;
                let i = choose|i: int| fails_as(m, call, before, i, k);
                assert(fails_as(m, call, n as int, i, k));
            },
            Ok(ns) => {
                if m.numeric(call.scalar(n - 1)) is Err {
                    assert(fails_as(m, call, n as int, n - 1, m.numeric(call.scalar(n - 1))->Err_0));
                }
            },
        }
    }
}

} // verus!
