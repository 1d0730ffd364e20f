//! `INT(number)`: the number rounded down to a whole number.

use crate::args::{ready, CallArgs};
use crate::model::EvalContext;
use crate::number::{one, Number};
use crate::value::{Val, Value};
use vstd::prelude::*;

verus! {

/// The number `r` is the largest whole number at or below `n`. A whole number is
/// itself, with the sign of a zero kept; a fraction above zero gives a zero
/// without a sign.
pub open spec fn is_floor(r: Number, n: Number) -> bool {
    &&& r.units() == (n.units() / one()) * one()
    &&& n.whole() ==> r == n
    &&& !n.whole() && r.units() == 0 ==> r.bits() == 0
}

/// Evaluates the call.
pub fn eval<A: CallArgs>(ctx: &EvalContext, args: &A) -> (v: Value)
    requires
        ready(args),
    ensures
        match ctx.model.numeric(args.call().scalar(0)) {
            Ok(n) => v@ matches Val::Number(r) && is_floor(r, n),
            Err(k) => v@ == Val::Error(k),
        },
{
    match ctx.model.to_number(&args.eval_scalar(0)) {
        Ok(n) => Value::Number(n.floor()),
        Err(k) => Value::Error(k),
    }
}

/// The law of rounding down: the result is a whole number, at or below the
/// number and less than one below it.
pub proof fn law_floor_is_next_below(r: Number, n: Number)
    requires
        is_floor(r, n),
    ensures
        r.whole(),
        r.units() <= n.units() < r.units() + one(),
{
    vstd::arithmetic::power2::lemma_pow2_pos(1074);
    let q = n.units() / one();
    vstd::arithmetic::div_mod::lemma_fundamental_div_mod(n.units(), one());
    assert(one() * q == q * one()) by (nonlinear_arith);
    vstd::arithmetic::div_mod::lemma_mod_multiples_basic(q, one());
}

/// Rounding down twice changes nothing more.
pub proof fn law_floor_is_idempotent(r: Number, s: Number, n: Number)
    requires
        is_floor(r, n),
        is_floor(s, r),
    ensures
        s == r,
{
    law_floor_is_next_below(r, n);
}

/// Rounding down keeps the order of numbers.
pub proof fn law_floor_is_monotone(r: Number, s: Number, m: Number, n: Number)
    requires
        is_floor(r, m),
        is_floor(s, n),
        m.units() <= n.units(),
    ensures
        r.units() <= s.units(),
{
    vstd::arithmetic::power2::lemma_pow2_pos(1074);
    vstd::arithmetic::div_mod::lemma_div_is_ordered(m.units(), n.units(), one());
    let p = m.units() / one();
    let q = n.units() / one();
    assert(p * one() <= q * one()) by (nonlinear_arith)
        requires
            p <= q,
            one() > 0,
    ;
}

} // verus!
