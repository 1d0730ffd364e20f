//! `NETWORKDAYS(start_date, end_date, [holidays])`: the number of working days
//! from one day to another, both counted.
//!
//! Saturdays, Sundays and the holidays do not count. Holidays are whole days, and
//! among their cells blanks are passed over; an error is the result, and a text or
//! a logical value is a value error. A day that stands for no date is an error, and
//! an end before the start is refused, after the holidays have been looked at.

use crate::args::{ready, CallArgs, CallModel};
use crate::calendar::{coerce_serial, date_error, fault, map_date_error, serial_of, serial_to_ymd};
use crate::model::{DateSystem, EvalContext, ValueModel};
use crate::number::{clamp_i64, counted, one, Number};
use crate::value::{views, ErrorKind, Val, Value};
use vstd::prelude::*;

verus! {

/// The day is a Saturday or a Sunday. Day 1 is a Sunday.
pub open spec fn weekend(serial: int) -> bool {
    serial % 7 == 0 || serial % 7 == 1
}

/// The serial number of argument `i`, which must stand for a date.
pub open spec fn endpoint(m: &ValueModel, system: DateSystem, call: CallModel, i: int) -> Result<
    int,
    ErrorKind,
> {
    match serial_of(m, call.scalar(i)) {
        Err(k) => Err(k),
        Ok(s) => match fault(system, s) {
            Some(e) => Err(date_error(e)),
            None => Ok(s),
        },
    }
}

/// The holiday that a cell states, if it states one.
pub open spec fn holiday(v: Val) -> Result<Option<int>, ErrorKind> {
    match v {
        Val::Number(n) => Ok(Some(clamp_i64(n.units() / one()))),
        Val::Blank => Ok(None),
        Val::Error(k) => Err(k),
        Val::Lambda(_) => Err(ErrorKind::Unsupported),
        _ => Err(ErrorKind::Value),
    }
}

/// The holidays that cells state, or the first error among them.
pub open spec fn holidays_of(cells: Seq<Val>) -> Result<Seq<int>, ErrorKind>
    decreases cells.len(),
{
    if cells.len() == 0 {
        Ok(Seq::empty())
    } else {
        match (holidays_of(cells.drop_last()), holiday(cells.last())) {
            (Err(k), _) => Err(k),
            (Ok(_), Err(k)) => Err(k),
            (Ok(hs), Ok(None)) => Ok(hs),
            (Ok(hs), Ok(Some(h))) => Ok(hs.push(h)),
        }
    }
}

/// The day is a working day.
pub open spec fn working(day: int, holidays: Seq<int>) -> bool {
    !weekend(day) && !holidays.contains(day)
}

/// The number of working days from `start` to `end`, both counted.
pub open spec fn working_days(start: int, end: int, holidays: Seq<int>) -> nat
    decreases end - start + 1,
{
    if end < start {
        0
    } else {
        working_days(start, end - 1, holidays) + if working(end, holidays) {
            1nat
        } else {
            0nat
        }
    }
}

/// The result of the call.
pub open spec fn result(m: &ValueModel, system: DateSystem, call: CallModel) -> Val {
    let holidays = if call.args.len() >= 3 {
        holidays_of(call.arg(2).cells)
    } else {
        Ok(Seq::empty())
    };
    match (endpoint(m, system, call, 0), endpoint(m, system, call, 1), holidays) {
        (Err(k), _, _) => Val::Error(k),
        (Ok(_), Err(k), _) => Val::Error(k),
        (Ok(_), Ok(_), Err(k)) => Val::Error(k),
        (Ok(start), Ok(end), Ok(hs)) => if end < start {
            Val::Error(ErrorKind::Unsupported)
        } else {
            Val::Number(counted(working_days(start, end, hs)))
        },
    }
}

/// Whether the day is a Saturday or a Sunday.
pub fn is_weekend(serial: i64) -> (b: bool)
    ensures
        b == weekend(serial as int),
{
    match serial.checked_rem_euclid(7) {
        Some(r) => r == 0 || r == 1,
        None => false,
    }
}

/// The serial number of argument `index`, which must stand for a date.
pub fn eval_endpoint<A: CallArgs>(ctx: &EvalContext, args: &A, index: usize) -> (r: Result<i64, ErrorKind>)
    requires
        args.forceable(index as int),
    ensures
        match r {
            Ok(s) => {
                &&& endpoint(&ctx.model, ctx.date_system, args.call(), index as int) == Ok::<int, ErrorKind>(
                    s as int,
                )
                &&& 0 <= s <= 2958465
            },
            Err(k) => endpoint(&ctx.model, ctx.date_system, args.call(), index as int) == Err::<
                int,
                ErrorKind,
            >(k),
        },
{
    let serial = match coerce_serial(&ctx.model, &args.eval_scalar(index)) {
        Ok(s) => s,
        Err(k) => {
            return Err(k);
        },
    };
    match serial_to_ymd(serial, ctx.date_system) {
        Ok(_) => Ok(serial),
        Err(e) => Err(map_date_error(e)),
    }
}

fn coerce_holiday(v: &Value) -> (r: Result<Option<i64>, ErrorKind>)
    ensures
        match r {
            Ok(Some(h)) => holiday(v@) == Ok::<Option<int>, ErrorKind>(Some(h as int)),
            Ok(None) => holiday(v@) == Ok::<Option<int>, ErrorKind>(None),
            Err(k) => holiday(v@) == Err::<Option<int>, ErrorKind>(k),
        },
{
    match v {
        Value::Number(n) => Ok(Some(n.floored())),
        Value::Blank => Ok(None),
        Value::Error(k) => Err(*k),
        Value::Lambda(_) => Err(ErrorKind::Unsupported),
        _ => Err(ErrorKind::Value),
    }
}

spec fn days(hs: Seq<i64>) -> Seq<int> {
    hs.map_values(|h: i64| h as int)
}

/// An error among the first cells is the result of all.
proof fn lemma_error_is_final(cells: Seq<Val>, i: int)
    requires
        0 <= i <= cells.len(),
        holidays_of(cells.take(i)) is Err,
    ensures
        holidays_of(cells) == holidays_of(cells.take(i)),
    decreases cells.len() - i,
{
    if i < cells.len() {
        assert(cells.take(i + 1).drop_last() == cells.take(i));
        lemma_error_is_final(cells, i + 1);
    } else {
        assert(cells.take(i) == cells);
    }
}

fn collect_holidays(cells: &Vec<Value>) -> (r: Result<Vec<i64>, ErrorKind>)
    ensures
        match r {
            Ok(hs) => holidays_of(views(cells@)) == Ok::<Seq<int>, ErrorKind>(days(hs@)),
            Err(k) => holidays_of(views(cells@)) == Err::<Seq<int>, ErrorKind>(k),
        },
{
    let ghost all = views(cells@);
    let mut hs: Vec<i64> = Vec::new();
    assert(all.take(0) == Seq::<Val>::empty());
    assert(days(hs@) == Seq::<int>::empty());
    for i in 0..cells.len()
        invariant
            all == views(cells@),
            holidays_of(all.take(i as int)) == Ok::<Seq<int>, ErrorKind>(days(hs@)),
    {
        assert(all.take(i + 1).drop_last() == all.take(i as int));
        assert(all.take(i + 1).last() == cells@[i as int]@);
        let ghost before = hs@;
        match coerce_holiday(&cells[i]) {
            Ok(Some(h)) => {
                hs.push(h);
                assert(days(hs@) == days(before).push(h as int));
            },
            Ok(None) => {},
            Err(k) => {
                proof {
                    lemma_error_is_final(all, i + 1);
                }
                return Err(k);
            },
        }
    }
    assert(all.take(all.len() as int) == all);
    Ok(hs)
}

fn is_holiday(hs: &Vec<i64>, day: i64) -> (b: bool)
    ensures
        b == days(hs@).contains(day as int),
{
    for i in 0..hs.len()
        invariant
            forall|j: int| 0 <= j < i ==> hs@[j] != day,
    {
        if hs[i] == day {
            assert(days(hs@)[i as int] == day as int);
            return true;
        }
    }
    assert(!days(hs@).contains(day as int)) by {
        if days(hs@).contains(day as int) {
            let j = choose|j: int| 0 <= j < days(hs@).len() && days(hs@)[j] == day as int;
            assert(hs@[j] == day);
        }
    }
    false
}

/// Evaluates the call.
pub fn eval<A: CallArgs>(ctx: &EvalContext, args: &A) -> (v: Value)
    requires
        ready(args),
    ensures
        v@ == result(&ctx.model, ctx.date_system, args.call()),
{
    let start = match eval_endpoint(ctx, args, 0) {
        Ok(s) => s,
        Err(k) => {
            return Value::Error(k);
        },
    };
    let end = match eval_endpoint(ctx, args, 1) {
        Ok(s) => s,
        Err(k) => {
            return Value::Error(k);
        },
    };
    let holidays: Vec<i64> = if args.count() >= 3 {
        match collect_holidays(&args.cells(2)) {
            Ok(hs) => hs,
            Err(k) => {
                return Value::Error(k);
            },
        }
    } else {
        let none: Vec<i64> = Vec::new();
        assert(days(none@) == Seq::<int>::empty());
        none
    };
    if end < start {
        return Value::Error(ErrorKind::Unsupported);
    }
    let ghost hs = days(holidays@);
    let mut count: u64 = 0;
    let mut day: i64 = start;
    while day <= end
        invariant
            0 <= start <= day <= end + 1,
            end <= 2958465,
            hs == days(holidays@),
            count == working_days(start as int, day - 1, hs),
            count <= day - start,
        decreases end + 1 - day,
    {
        if !is_weekend(day) && !is_holiday(&holidays, day) {
            count = count + 1;
        }
        day = day + 1;
    }
    Value::Number(Number::from_count(count as u128))
}

/// The law of adjoining spans: the working days of two spans that adjoin add up to
/// those of the whole.
pub proof fn law_spans_add_up(start: int, mid: int, end: int, holidays: Seq<int>)
    requires
        start <= mid + 1,
        mid <= end,
    ensures
        working_days(start, end, holidays) == working_days(start, mid, holidays) + working_days(
            mid + 1,
            end,
            holidays,
        ),
    decreases end - mid,
{
    if mid < end {
        law_spans_add_up(start, mid, end - 1, holidays);
    }
}

/// The law of the week: without holidays any seven days have five working days.
pub proof fn law_week_has_five_working_days(start: int)
    ensures
        working_days(start, start + 6, Seq::empty()) == 5,
{
    reveal_with_fuel(working_days, 8);
    let none = Seq::<int>::empty();
    assert(forall|d: int| !none.contains(d));
}

/// The law of holidays: only which working days of the span are holidays matters.
/// Holidays that are repeated, out of the span or on a weekend change nothing, nor
/// does their order.
pub proof fn law_only_working_holidays_matter(start: int, end: int, a: Seq<int>, b: Seq<int>)
    requires
        forall|d: int|
            start <= d <= end && !#[trigger] weekend(d) ==> (a.contains(d) == b.contains(d)),
    ensures
        working_days(start, end, a) == working_days(start, end, b),
    decreases end - start + 1,
{
    if end >= start {
        law_only_working_holidays_matter(start, end - 1, a, b);
        assert(weekend(end) == weekend(end));
    }
}

/// The law of the bounds: there are no more working days than days.
pub proof fn law_no_more_than_days(start: int, end: int, holidays: Seq<int>)
    requires
        start <= end + 1,
    ensures
        working_days(start, end, holidays) <= end - start + 1,
    decreases end - start + 1,
{
    if end >= start {
        law_no_more_than_days(start, end - 1, holidays);
    }
}

/// The number `n` lies on day `d`: the day is its whole part.
pub open spec fn on_day(n: Number, d: int) -> bool {
    d * one() <= n.units() < (d + 1) * one()
}

/// A day that stands for a date in the date system.
pub open spec fn is_date(system: DateSystem, d: int) -> bool {
    match system {
        DateSystem::From1900 => 1 <= d <= 2958465,
        DateSystem::From1904 => 0 <= d <= 2957003,
    }
}

/// A cell of the third argument states the day as a holiday.
pub open spec fn day_off(call: CallModel, d: int) -> bool {
    call.args.len() >= 3 && exists|i: int|
        0 <= i < call.arg(2).cells.len() && (#[trigger] call.arg(2).cells[i] matches Val::Number(n) && on_day(n, d))
}

/// The error that a cell of the third argument ends the call with, if it does.
pub open spec fn spoils(v: Val) -> Option<ErrorKind> {
    match v {
        Val::Number(_) => None,
        Val::Blank => None,
        Val::Error(k) => Some(k),
        Val::Lambda(_) => Some(ErrorKind::Unsupported),
        _ => Some(ErrorKind::Value),
    }
}

/// The days `list` are, in order, the days from `start` to `end` that are neither a
/// Saturday nor a Sunday nor a holiday.
pub open spec fn lists_working_days(call: CallModel, start: int, end: int, list: Seq<int>) -> bool {
    &&& forall|a: int, b: int| 0 <= a < b < list.len() ==> (#[trigger] list[a]) < (#[trigger] list[b])
    &&& forall|d: int|
        #[trigger] list.contains(d) <==> start <= d <= end && d % 7 != 0 && d % 7 != 1 && !day_off(call, d)
}

/// A number within the range of dates lies on the day that it is rounded down to.
proof fn lemma_on_day(n: Number, d: int)
    requires
        i64::MIN < d < i64::MAX,
    ensures
        on_day(n, d) <==> clamp_i64(n.units() / one()) == d,
{
    crate::number::lemma_whole_ones(d);
    let o = one() as int;
    let u = n.units();
    let q = u / o;
    vstd::arithmetic::div_mod::lemma_fundamental_div_mod(u, o);
    assert(0 <= u % o < o);
    assert(o * q == q * o) by (nonlinear_arith);
    assert((d + 1) * o == d * o + o) by (nonlinear_arith);
    if q < d {
        assert(q * o + o <= d * o) by (nonlinear_arith)
            requires
                q + 1 <= d,
                o > 0,
        ;
    } else if q > d {
        assert(q * o >= d * o + o) by (nonlinear_arith)
            requires
                q >= d + 1,
                o > 0,
        ;
    }
}

/// The law of the holiday cells: where no cell is an error, a text or a logical value, a
/// day is among the holidays if and only if some cell is a number that lies on it; else
/// the first such cell decides.
pub proof fn law_holidays_are_the_days_of_the_cells(cells: Seq<Val>, d: int)
    requires
        i64::MIN < d < i64::MAX,
    ensures
        (forall|i: int| 0 <= i < cells.len() ==> spoils(#[trigger] cells[i]) is None) ==> (holidays_of(cells) matches Ok(
            hs,
        ) && (hs.contains(d) <==> exists|i: int|
            0 <= i < cells.len() && (#[trigger] cells[i] matches Val::Number(n) && on_day(n, d)))),
        forall|j: int|
            0 <= j < cells.len() && spoils(#[trigger] cells[j]) is Some && (forall|i: int|
                0 <= i < j ==> spoils(#[trigger] cells[i]) is None) ==> holidays_of(cells) == Err::<Seq<int>, ErrorKind>(
                spoils(cells[j])->0,
            ),
    decreases cells.len(),
{
    if cells.len() > 0 {
        let front = cells.drop_last();
        let last = cells.last();
        let z = cells.len() - 1;
        law_holidays_are_the_days_of_the_cells(front, d);
        assert forall|i: int| 0 <= i < front.len() implies front[i] == #[trigger] cells[i] by {}
        if forall|i: int| 0 <= i < cells.len() ==> spoils(#[trigger] cells[i]) is None {
            assert forall|i: int| 0 <= i < front.len() implies spoils(#[trigger] front[i]) is None by {
                assert(front[i] == cells[i]);
            }
            assert(spoils(cells[z]) is None);
            let before = holidays_of(front)->Ok_0;
            if last is Number {
                let n = last->Number_0;
                let h = clamp_i64(n.units() / one());
                lemma_on_day(n, d);
                let hs = before.push(h);
                assert(holidays_of(cells) == Ok::<Seq<int>, ErrorKind>(hs));
                assert(hs.contains(d) == (before.contains(d) || h == d)) by {
                    assert(hs[before.len() as int] == h);
                    if before.contains(d) {
                        let p = choose|p: int| 0 <= p < before.len() && before[p] == d;
                        assert(hs[p] == d);
                    }
                    if hs.contains(d) && h != d {
                        let p = choose|p: int| 0 <= p < hs.len() && hs[p] == d;
                        assert(before[p] == d);
                    }
                }
            }
            let stated = exists|i: int|
                0 <= i < cells.len() && (#[trigger] cells[i] matches Val::Number(n) && on_day(n, d));
            let stated_before = exists|i: int|
                0 <= i < front.len() && (#[trigger] front[i] matches Val::Number(n) && on_day(n, d));
            if stated_before {
                let i = choose|i: int|
                    0 <= i < front.len() && (#[trigger] front[i] matches Val::Number(n) && on_day(n, d));
                assert(cells[i] == front[i]);
                assert(stated);
            }
            if stated && !stated_before {
                let i = choose|i: int|
                    0 <= i < cells.len() && (#[trigger] cells[i] matches Val::Number(n) && on_day(n, d));
                if i < z {
                    assert(front[i] == cells[i]);
                }
            }
            assert(cells[z] == last);
        }
        assert forall|j: int|
            0 <= j < cells.len() && spoils(#[trigger] cells[j]) is Some && (forall|i: int|
                0 <= i < j ==> spoils(#[trigger] cells[i]) is None) implies holidays_of(cells) == Err::<
            Seq<int>,
            ErrorKind,
        >(spoils(cells[j])->0) by {
            assert forall|i: int| 0 <= i < j implies spoils(#[trigger] front[i]) is None by {
                assert(front[i] == cells[i]);
            }
            if j < z {
                assert(front[j] == cells[j]);
            } else {
                assert forall|i: int| 0 <= i < front.len() implies spoils(#[trigger] front[i]) is None by {
                    assert(front[i] == cells[i]);
                }
                assert(holidays_of(front) is Ok);
            }
        }
    }
}

/// The working days of a span can be listed.
proof fn lemma_list(call: CallModel, start: int, end: int, hs: Seq<int>) -> (list: Seq<int>)
    requires
        0 <= start <= end + 1,
        end < i64::MAX,
        forall|d: int| 0 <= d <= end ==> (#[trigger] hs.contains(d) <==> day_off(call, d)),
    ensures
        lists_working_days(call, start, end, list),
        list.len() == working_days(start, end, hs),
    decreases end - start + 1,
{
    if end < start {
        Seq::empty()
    } else {
        let front = lemma_list(call, start, end - 1, hs);
        assert(hs.contains(end) <==> day_off(call, end));
        if working(end, hs) {
            let list = front.push(end);
            assert forall|a: int, b: int| 0 <= a < b < list.len() implies (#[trigger] list[a]) < (#[trigger] list[b]) by {
                assert(front.contains(front[a]));
            }
            assert forall|d: int| #[trigger] list.contains(d) <==> start <= d <= end && d % 7 != 0 && d % 7 != 1
                && !day_off(call, d) by {
                assert(front.contains(d) <==> start <= d <= end - 1 && d % 7 != 0 && d % 7 != 1 && !day_off(call, d));
                assert(list[front.len() as int] == end);
                if front.contains(d) {
                    let p = choose|p: int| 0 <= p < front.len() && front[p] == d;
                    assert(list[p] == d);
                }
                if list.contains(d) && d != end {
                    let p = choose|p: int| 0 <= p < list.len() && list[p] == d;
                    assert(front[p] == d);
                }
            }
            list
        } else {
            assert forall|d: int| #[trigger] front.contains(d) <==> start <= d <= end && d % 7 != 0 && d % 7 != 1
                && !day_off(call, d) by {}
            front
        }
    }
}

/// The law of the count: from one date to another that is not before it, the result is
/// the number of days that are neither a Saturday nor a Sunday and on which no number
/// among the cells of the third argument lies.
pub proof fn law_result_counts_the_working_days(
    m: &ValueModel,
    system: DateSystem,
    call: CallModel,
    start: int,
    end: int,
)
    requires
        m.numeric(call.scalar(0)) matches Ok(n) && on_day(n, start),
        m.numeric(call.scalar(1)) matches Ok(n) && on_day(n, end),
        is_date(system, start),
        is_date(system, end),
        call.args.len() >= 3 ==> forall|i: int|
            0 <= i < call.arg(2).cells.len() ==> spoils(#[trigger] call.arg(2).cells[i]) is None,
    ensures
        start <= end ==> exists|list: Seq<int>| #[trigger]
            lists_working_days(call, start, end, list) && result(m, system, call) == Val::Number(counted(list.len())),
        end < start ==> result(m, system, call) == Val::Error(ErrorKind::Unsupported),
{
    lemma_on_day(m.numeric(call.scalar(0))->Ok_0, start);
    lemma_on_day(m.numeric(call.scalar(1))->Ok_0, end);
    let cells = call.arg(2).cells;
    let hs = if call.args.len() >= 3 {
        holidays_of(cells)->Ok_0
    } else {
        Seq::empty()
    };
    law_holidays_are_the_days_of_the_cells(cells, 0);
    assert forall|d: int| 0 <= d <= end implies (#[trigger] hs.contains(d) <==> day_off(call, d)) by {
        law_holidays_are_the_days_of_the_cells(cells, d);
    }
    if start <= end {
        let list = lemma_list(call, start, end, hs);
        assert(lists_working_days(call, start, end, list) && result(m, system, call) == Val::Number(counted(list.len())));
    }
}

/// The law of the errors: a start that is no number comes first, or one that is no date,
/// then an end, and then the first cell of the third argument that is neither a number
/// nor blank.
pub proof fn law_errors_come_in_order(m: &ValueModel, system: DateSystem, call: CallModel, start: int, end: int, j: int)
    ensures
        m.numeric(call.scalar(0)) matches Err(k) ==> result(m, system, call) == Val::Error(k),
        m.numeric(call.scalar(0)) matches Ok(n) ==> (n.units() < 0 || n.units() >= 2958466 * one() || (system
            == DateSystem::From1904 && n.units() >= 2957004 * one()) ==> result(m, system, call) == Val::Error(
            ErrorKind::Num,
        )),
        m.numeric(call.scalar(0)) matches Ok(n) ==> (system == DateSystem::From1900 && 0 <= n.units() < one() ==> result(
            m,
            system,
            call,
        ) == Val::Error(ErrorKind::Unsupported)),
        (m.numeric(call.scalar(0)) matches Ok(n) && on_day(n, start)) && is_date(system, start) ==> {
            &&& m.numeric(call.scalar(1)) matches Err(k) ==> result(m, system, call) == Val::Error(k)
            &&& m.numeric(call.scalar(1)) matches Ok(n) ==> (n.units() < 0 || n.units() >= 2958466 * one() || (system
                == DateSystem::From1904 && n.units() >= 2957004 * one()) ==> result(m, system, call) == Val::Error(
                ErrorKind::Num,
            ))
            &&& m.numeric(call.scalar(1)) matches Ok(n) ==> (system == DateSystem::From1900 && 0 <= n.units() < one()
                ==> result(m, system, call) == Val::Error(ErrorKind::Unsupported))
            &&& (m.numeric(call.scalar(1)) matches Ok(n) && on_day(n, end)) && is_date(system, end) && call.args.len()
                >= 3 && 0 <= j < call.arg(2).cells.len() && spoils(call.arg(2).cells[j]) is Some && (forall|i: int|
                0 <= i < j ==> spoils(#[trigger] call.arg(2).cells[i]) is None) ==> result(m, system, call) == Val::Error(
                spoils(call.arg(2).cells[j])->0,
            )
        },
{
    assert forall|i: int, n: Number| m.numeric(#[trigger] call.scalar(i)) == Ok::<Number, ErrorKind>(n) implies {
        &&& #[trigger] n.units() < 0 || n.units() >= 2958466 * one() || (system == DateSystem::From1904 && n.units()
            >= 2957004 * one()) ==> endpoint(m, system, call, i) == Err::<int, ErrorKind>(ErrorKind::Num)
        &&& system == DateSystem::From1900 && 0 <= n.units() < one() ==> endpoint(m, system, call, i) == Err::<
            int,
            ErrorKind,
        >(ErrorKind::Unsupported)
    } by {
        lemma_out_of_range(n);
    }
    if m.numeric(call.scalar(0)) is Ok && is_date(system, start) {
        lemma_on_day(m.numeric(call.scalar(0))->Ok_0, start);
    }
    if m.numeric(call.scalar(1)) is Ok && is_date(system, end) {
        lemma_on_day(m.numeric(call.scalar(1))->Ok_0, end);
    }
    law_holidays_are_the_days_of_the_cells(call.arg(2).cells, 0);
}

/// Whole parts of numbers that lie on no date.
proof fn lemma_out_of_range(n: Number)
    ensures
        n.units() < 0 ==> n.units() / one() < 0,
        n.units() >= 2958466 * one() ==> n.units() / one() > 2958465,
        n.units() >= 2957004 * one() ==> n.units() / one() > 2957003,
        0 <= n.units() < one() ==> n.units() / one() == 0,
{
    crate::number::lemma_whole_ones(0);
    let o = one() as int;
    let u = n.units();
    let q = u / o;
    vstd::arithmetic::div_mod::lemma_fundamental_div_mod(u, o);
    assert(o * q == q * o) by (nonlinear_arith);
    assert(0 <= u % o < o);
    if u < 0 && q >= 0 {
        assert(q * o >= 0) by (nonlinear_arith)
            requires
                q >= 0,
                o > 0,
        ;
    }
    if u >= 2958466 * o && q <= 2958465 {
        assert(q * o <= 2958465 * o) by (nonlinear_arith)
            requires
                q <= 2958465,
                o > 0,
        ;
    }
    if u >= 2957004 * o && q <= 2957003 {
        assert(q * o <= 2957003 * o) by (nonlinear_arith)
            requires
                q <= 2957003,
                o > 0,
        ;
    }
    if 0 <= u < o {
        vstd::arithmetic::div_mod::lemma_basic_div(u, o);
    }
}

} // verus!
