//! `PI()`: the double nearest to the circle constant.

use crate::args::CallArgs;
use crate::model::EvalContext;
use crate::number::{EXPONENT_LIMIT, HIDDEN, SIGN, Number};
use crate::value::{ErrorKind, Val, Value};
use vstd::arithmetic::power2::pow2;
use vstd::prelude::*;

verus! {

/// The encoding of the double nearest to the circle constant.
pub const PI_BITS: u64 = 0x4009_21FB_5444_2D18;

/// Evaluates the call.
pub fn eval<A: CallArgs>(_ctx: &EvalContext, _args: &A) -> (v: Value)
    ensures
        v@ matches Val::Number(n) && n.bits() == PI_BITS,
{
    assert((PI_BITS % SIGN) / HIDDEN < EXPONENT_LIMIT);
    match Number::from_bits(PI_BITS) {
        Some(n) => Value::Number(n),
        None => Value::Error(ErrorKind::Num),
    }
}

/// The constant is nearer than any other double to the circle constant, of which
/// 35 decimal places are 3.14159265358979323846264338327950288: its significand
/// is the whole number nearest to the circle constant times two to the 51, and
/// doubles of this size are two to the power of minus 51 apart.
pub proof fn law_nearest_double(n: Number)
    requires
        n.bits() == PI_BITS,
    ensures
        n.units() == 0x19_21FB_5444_2D18 * pow2(1023),
        2 * (0x19_21FB_5444_2D18 * 100000000000000000000000000000000000
            - 314159265358979323846264338327950288 * 0x8_0000_0000_0000)
            < 100000000000000000000000000000000000 - 0x10_0000_0000_0000,
        -2 * (0x19_21FB_5444_2D18 * 100000000000000000000000000000000000
            - 314159265358979323846264338327950288 * 0x8_0000_0000_0000)
            < 100000000000000000000000000000000000 - 0x10_0000_0000_0000,
{
    assert(PI_BITS as int / (HIDDEN as int) == 1024);
    assert(HIDDEN + PI_BITS as int % (HIDDEN as int) == 0x19_21FB_5444_2D18);
}

} // verus!
