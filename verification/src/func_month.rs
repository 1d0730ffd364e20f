//! `MONTH(serial_number)`: the month of a date, from 1 to 12.
//!
//! The serial number is rounded down. One that is negative or past the year 9999
//! is a number error; day 0 of the numbering from 1900 is in month 1.

use crate::args::{ready, CallArgs, CallModel};
use crate::calendar::{
    coerce_serial, date_error, dated, fault, map_date_error, serial_of, serial_to_ymd, Date, DateError,
};
use crate::model::{DateSystem, EvalContext, ValueModel};
use crate::number::{counted, from_whole, lemma_from_whole, Number};
use crate::value::{ErrorKind, Val, Value};
use vstd::prelude::*;

verus! {

/// The value `v` is the month of the day with the given serial number.
pub open spec fn month_is(system: DateSystem, serial: int, v: Val) -> bool {
    match fault(system, serial) {
        None => exists|d: Date| #[trigger] dated(system, serial, d) && v == Val::Number(counted(d.month as nat)),
        Some(DateError::JanuaryZero) => v == Val::Number(counted(1)),
        Some(e) => v == Val::Error(date_error(e)),
    }
}

/// The result of the call is `v`.
pub open spec fn result_is(m: &ValueModel, system: DateSystem, call: CallModel, v: Val) -> bool {
    match serial_of(m, call.scalar(0)) {
        Err(k) => v == Val::Error(k),
        Ok(serial) => month_is(system, serial, v),
    }
}

/// Evaluates the call.
pub fn eval<A: CallArgs>(ctx: &EvalContext, args: &A) -> (v: Value)
    requires
        ready(args),
    ensures
        result_is(&ctx.model, ctx.date_system, args.call(), v@),
{
    let serial = match coerce_serial(&ctx.model, &args.eval_scalar(0)) {
        Ok(s) => s,
        Err(k) => {
            return Value::Error(k);
        },
    };
    match serial_to_ymd(serial, ctx.date_system) {
        Ok(d) => {
            assert(dated(ctx.date_system, serial as int, d));
            Value::Number(Number::from_count(d.month as u128))
        },
        Err(DateError::JanuaryZero) => Value::Number(Number::from_count(1)),
        Err(e) => Value::Error(map_date_error(e)),
    }
}

/// The law of the range: every month is from 1 to 12.
pub proof fn law_month_in_range(system: DateSystem, serial: int, d: Date)
    requires
        dated(system, serial, d),
    ensures
        1 <= d.month <= 12,
{
}

/// The law of months: a serial number has one month.
pub proof fn law_month_is_unique(system: DateSystem, serial: int, v: Val, w: Val)
    requires
        month_is(system, serial, v),
        month_is(system, serial, w),
    ensures
        v == w,
{
    if fault(system, serial) is None {
        let c = choose|d: Date| #[trigger] dated(system, serial, d) && v == Val::Number(counted(d.month as nat));
        let d = choose|d: Date| #[trigger] dated(system, serial, d) && w == Val::Number(counted(d.month as nat));
        crate::calendar::law_serial_determines_date(system, serial, c, d);
    }
}

/// The law of the result: a number that lies on a day that stands for a date gives the
/// month of that date; day 0 of the numbering from 1900 is in the first month; a negative
/// number and one past the year 9999 is a number error, and the error of an argument that
/// stands for no number is handed on.
pub proof fn law_result_is_the_month(m: &ValueModel, system: DateSystem, call: CallModel, day: int, d: Date, v: Val)
    requires
        result_is(m, system, call, v),
    ensures
        m.numeric(call.scalar(0)) matches Err(k) ==> v == Val::Error(k),
        m.numeric(call.scalar(0)) matches Ok(n) ==> {
            &&& from_whole(n.units(), day) && 1 <= day <= 2957003 && dated(system, day, d) ==> v == Val::Number(
                counted(d.month as nat),
            )
            &&& from_whole(n.units(), day) && 2957003 < day <= 2958465 && system == DateSystem::From1900 && dated(
                system,
                day,
                d,
            ) ==> v == Val::Number(counted(d.month as nat))
            &&& from_whole(n.units(), 0) ==> v == Val::Number(counted(1))
            &&& n.units() < 0 || (from_whole(n.units(), day) && (day > 2958465 || (day > 2957003 && system
                == DateSystem::From1904))) ==> v == Val::Error(ErrorKind::Num)
        },
{
    if m.numeric(call.scalar(0)) is Ok {
        let u = m.numeric(call.scalar(0))->Ok_0.units();
        lemma_from_whole(u, day);
        lemma_from_whole(u, 0);
        let serial = serial_of(m, call.scalar(0))->Ok_0;
        if fault(system, serial) is None {
            let c = choose|c: Date| #[trigger] dated(system, serial, c) && v == Val::Number(counted(c.month as nat));
            if from_whole(u, day) && 1 <= day <= 2958465 && dated(system, day, d) {
                crate::calendar::law_serial_determines_date(system, serial, c, d);
            }
            if from_whole(u, 0) && system == DateSystem::From1904 {
                crate::calendar::law_numberings_start(c);
            }
        }
    }
}

} // verus!
