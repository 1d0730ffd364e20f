//! `LOG(number, [base])`: the logarithm to a base, which is ten where none is given.
//!
//! Of a number that is not positive the logarithm is a number error, and so is
//! one to a base that is not positive; to the base one it is a division by zero.

use crate::args::{ready, CallArgs, CallModel};
use crate::model::{EvalContext, ValueModel};
use crate::number::{counted, lemma_counted_exactly, one, Number};
use crate::value::ErrorKind;
use vstd::prelude::*;

verus! {

/// Which logarithm is asked for.
#[derive(Clone, Copy, Debug, PartialEq)]
pub enum Terms {
    /// To the base ten.
    Decimal { number: Number },
    /// To the base two.
    Binary { number: Number },
    /// To another base.
    Based { number: Number, base: Number },
}

/// The terms that a number and a base give.
pub open spec fn terms_of(number: Number, base: Number) -> Result<Terms, ErrorKind> {
    if number.units() <= 0 {
        Err(ErrorKind::Num)
    } else if base.units() == one() {
        Err(ErrorKind::Div0)
    } else if base.units() <= 0 {
        Err(ErrorKind::Num)
    } else if base.units() == 10 * one() {
        Ok(Terms::Decimal { number })
    } else if base.units() == 2 * one() {
        Ok(Terms::Binary { number })
    } else {
        Ok(Terms::Based { number, base })
    }
}

/// The outcome of the call.
pub open spec fn outcome(m: &ValueModel, call: CallModel) -> Result<Terms, ErrorKind> {
    match m.numeric(call.scalar(0)) {
        Err(k) => Err(k),
        Ok(number) => if call.args.len() > 1 {
            match m.numeric(call.scalar(1)) {
                Err(k) => Err(k),
                Ok(base) => terms_of(number, base),
            }
        } else {
            terms_of(number, counted(10))
        },
    }
}

/// The terms of the call, or the error that it results in.
pub fn terms<A: CallArgs>(ctx: &EvalContext, args: &A) -> (r: Result<Terms, ErrorKind>)
    requires
        ready(args),
    ensures
        r == outcome(&ctx.model, args.call()),
{
    let number = match ctx.model.to_number(&args.eval_scalar(0)) {
        Ok(n) => n,
        Err(k) => {
            return Err(k);
        },
    };
    let ten = Number::from_count(10);
    let two = Number::from_count(2);
    proof {
        lemma_counted_exactly(10);
        lemma_counted_exactly(2);
    }
    let base = if args.count() > 1 {
        match ctx.model.to_number(&args.eval_scalar(1)) {
            Ok(n) => n,
            Err(k) => {
                return Err(k);
            },
        }
    } else {
        ten
    };
    if !number.is_positive() {
        return Err(ErrorKind::Num);
    }
    if base.same(Number::one()) {
        return Err(ErrorKind::Div0);
    }
    if !base.is_positive() {
        return Err(ErrorKind::Num);
    }
    if base.same(ten) {
        Ok(Terms::Decimal { number })
    } else if base.same(two) {
        Ok(Terms::Binary { number })
    } else {
        Ok(Terms::Based { number, base })
    }
}

/// A base of ten may be left out.
pub proof fn law_base_defaults_to_ten(number: Number, base: Number)
    requires
        base.units() == 10 * one(),
    ensures
        terms_of(number, base) == terms_of(number, counted(10)),
{
    lemma_counted_exactly(10);
}

/// The law of the terms: the number is the first argument, and the base the second, or
/// ten where there is none. Both must be positive, and the base not one.
pub proof fn law_terms_are_the_arguments(m: &ValueModel, call: CallModel)
    ensures
        outcome(m, call) matches Ok(Terms::Decimal { number }) ==> m.numeric(call.scalar(0)) == Ok::<Number, ErrorKind>(number)
            && number.units() > 0 && (call.args.len() > 1 ==> (m.numeric(call.scalar(1)) matches Ok(b) && b.units() == 10
            * one())),
        outcome(m, call) matches Ok(Terms::Binary { number }) ==> m.numeric(call.scalar(0)) == Ok::<Number, ErrorKind>(number)
            && number.units() > 0 && call.args.len() > 1 && (m.numeric(call.scalar(1)) matches Ok(b) && b.units() == 2 * one()),
        outcome(m, call) matches Ok(Terms::Based { number, base }) ==> m.numeric(call.scalar(0)) == Ok::<Number, ErrorKind>(
            number,
        ) && number.units() > 0 && call.args.len() > 1 && m.numeric(call.scalar(1)) == Ok::<Number, ErrorKind>(base)
            && base.units() > 0 && base.units() != one() && base.units() != 2 * one() && base.units() != 10 * one(),
        outcome(m, call) matches Err(k) ==> match m.numeric(call.scalar(0)) {
            Err(e) => k == e,
            Ok(n) => if call.args.len() <= 1 {
                k == ErrorKind::Num && n.units() <= 0
            } else {
                match m.numeric(call.scalar(1)) {
                    Err(e) => k == e,
                    Ok(b) => if n.units() <= 0 {
                        k == ErrorKind::Num
                    } else if b.units() == one() {
                        k == ErrorKind::Div0
                    } else {
                        k == ErrorKind::Num && b.units() <= 0
                    },
                }
            },
        },
{
    lemma_counted_exactly(10);
    crate::number::lemma_whole_ones(10);
}

} // verus!
