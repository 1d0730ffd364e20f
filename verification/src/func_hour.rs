//! `HOUR(serial_number)`: the hour of a point in time, from 0 to 23.
//!
//! The fraction of the serial number is the part of the day that has passed. It is
//! taken as seconds, to the nearest second, so that the last half second of an
//! hour belongs to the next. A negative serial number is a number error. A text
//! that does not read as a number is read as a time of day: `H:MM` or `H:MM:SS` in
//! digits, and after white space `AM` or `PM` in either case, or neither. Any other
//! text is refused.

use crate::args::{ready, CallArgs, CallModel};
use crate::letters::{ascii_upper, is_white_space, to_upper, trim, trim_end, trimmed, trimmed_end, white_space};
use crate::model::{EvalContext, ValueModel};
use crate::number::{
    counted, lead, lemma_nearest_scaled, lemma_scaled_division, nearest_double, one,
    round_to_53, wide_power_of_two, Number, HIDDEN,
};
use crate::value::{ErrorKind, Val, Value};
use vstd::arithmetic::power2::{
    lemma2_to64, lemma2_to64_rest, lemma_pow2_adds, lemma_pow2_pos, lemma_pow2_strictly_increases, pow2,
};
use vstd::prelude::*;

verus! {

/// The half of the day that a time is given in.
#[derive(Clone, Copy, Debug, PartialEq, Eq, Structural)]
pub enum Meridiem {
    Am,
    Pm,
}

/// The seconds of the day at a point in time: the fraction of the day times the
/// seconds of a day, as a double, to the nearest whole number.
pub open spec fn seconds(n: Number) -> int {
    let product = nearest_double(((n.units() % one()) * 86400) as nat);
    (2 * product + one()) / (2 * one())
}

/// The hour at a number of seconds of the day.
pub open spec fn hour_at(seconds: int) -> int {
    (seconds / 3600) % 24
}

/// The half of the day that a text ends with.
pub open spec fn meridiem(s: Seq<char>) -> Option<Meridiem> {
    let n = s.len();
    if n < 2 || ascii_upper(s[n - 1]) != 'M' {
        None
    } else if ascii_upper(s[n - 2]) == 'P' {
        Some(Meridiem::Pm)
    } else if ascii_upper(s[n - 2]) == 'A' {
        Some(Meridiem::Am)
    } else {
        None
    }
}

/// The text before the half of the day that it ends with.
pub open spec fn clock(s: Seq<char>) -> Seq<char> {
    if meridiem(s) is Some {
        trimmed_end(s.take(s.len() - 2))
    } else {
        s
    }
}

/// White space sets the half of the day apart that a text ends with.
pub open spec fn set_apart(s: Seq<char>) -> bool {
    meridiem(s) is Some ==> s.len() > 2 && white_space(s[s.len() - 3])
}

/// The parts of a text between colons.
pub open spec fn fields(s: Seq<char>) -> Seq<Seq<char>>
    decreases s.len(),
{
    if s.len() == 0 {
        seq![Seq::empty()]
    } else {
        let before = fields(s.drop_last());
        if s.last() == ':' {
            before.push(Seq::empty())
        } else {
            before.drop_last().push(before.last().push(s.last()))
        }
    }
}

/// A decimal digit.
pub open spec fn digit(c: char) -> bool {
    '0' <= c <= '9'
}

/// The number that decimal digits write.
pub open spec fn decimal(s: Seq<char>) -> nat
    decreases s.len(),
{
    if s.len() == 0 {
        0
    } else {
        decimal(s.drop_last()) * 10 + (s.last() as int - '0' as int) as nat
    }
}

/// The number of 32 bits that a text writes in nothing but decimal digits.
pub open spec fn written(s: Seq<char>) -> Option<nat> {
    if s.len() > 0 && (forall|i: int| 0 <= i < s.len() ==> digit(#[trigger] s[i])) && decimal(s)
        <= u32::MAX {
        Some(decimal(s))
    } else {
        None
    }
}

/// The hour of the day for an hour as it is read.
pub open spec fn hour_of_day(hour: nat, half: Option<Meridiem>) -> Option<nat> {
    match half {
        None => if hour <= 23 {
            Some(hour)
        } else {
            None
        },
        Some(Meridiem::Am) => if hour == 12 {
            Some(0)
        } else if 1 <= hour <= 11 {
            Some(hour)
        } else {
            None
        },
        Some(Meridiem::Pm) => if hour == 12 {
            Some(12)
        } else if 1 <= hour <= 11 {
            Some(hour + 12)
        } else {
            None
        },
    }
}

/// The seconds of the day that hour, minute and second stand for.
pub open spec fn clock_seconds(
    hour: Option<nat>,
    minute: Option<nat>,
    second: Option<nat>,
    half: Option<Meridiem>,
) -> Option<nat> {
    match (hour, minute, second) {
        (Some(h), Some(m), Some(s)) => if m < 60 && s < 60 {
            match hour_of_day(h, half) {
                Some(h) => Some(h * 3600 + m * 60 + s),
                None => None,
            }
        } else {
            None
        },
        _ => None,
    }
}

/// The seconds of the day that a text stands for as a time of day: hours and
/// minutes, and seconds or none, with or without a half of the day, which white
/// space sets apart. White space around the text does not matter.
pub open spec fn time_of_day(text: Seq<char>) -> Option<nat> {
    let s = trimmed(text);
    let parts = fields(clock(s));
    if !set_apart(s) {
        None
    } else if parts.len() == 2 {
        clock_seconds(written(parts[0]), written(parts[1]), Some(0), meridiem(s))
    } else if parts.len() == 3 {
        clock_seconds(written(parts[0]), written(parts[1]), written(parts[2]), meridiem(s))
    } else {
        None
    }
}

/// The result of the call.
pub open spec fn result(m: &ValueModel, call: CallModel) -> Val {
    match m.numeric(call.scalar(0)) {
        Ok(n) => if n.units() < 0 {
            Val::Error(ErrorKind::Num)
        } else {
            Val::Number(counted(hour_at(seconds(n)) as nat))
        },
        Err(k) => match call.scalar(0) {
            Val::Text(t) => match time_of_day(t) {
                Some(s) => Val::Number(counted(hour_at(s as int) as nat)),
                None => Val::Error(ErrorKind::Unsupported),
            },
            _ => Val::Error(k),
        },
    }
}

/// Splits the half of the day off the end of a text.
pub fn split_meridiem(s: &Vec<char>) -> (r: (Vec<char>, Option<Meridiem>))
    ensures
        r.0@ == clock(s@),
        r.1 == meridiem(s@),
{
    let n = s.len();
    let half = if n < 2 || to_upper(s[n - 1]) != 'M' {
        None
    } else if to_upper(s[n - 2]) == 'P' {
        Some(Meridiem::Pm)
    } else if to_upper(s[n - 2]) == 'A' {
        Some(Meridiem::Am)
    } else {
        None
    };
    if half.is_some() {
        return (trim_end(s, n - 2), half);
    }
    let mut body: Vec<char> = Vec::new();
    for i in 0..n
        invariant
            n == s@.len(),
            body@ == s@.take(i as int),
    {
        body.push(s[i]);
        assert(s@.take(i + 1) == s@.take(i as int).push(s@[i as int]));
    }
    assert(s@.take(n as int) == s@);
    (body, half)
}

spec fn texts(parts: Seq<Vec<char>>) -> Seq<Seq<char>> {
    parts.map_values(|v: Vec<char>| v@)
}

fn split_fields(s: &Vec<char>) -> (r: Vec<Vec<char>>)
    ensures
        texts(r@) == fields(s@),
        r@.len() == fields(s@).len(),
{
    let mut done: Vec<Vec<char>> = Vec::new();
    let mut part: Vec<char> = Vec::new();
    proof {
        assert(s@.take(0) == Seq::<char>::empty());
        assert(part@ == Seq::<char>::empty());
        assert(texts(done@).push(part@) == seq![Seq::<char>::empty()]);
    }
    for i in 0..s.len()
        invariant
            fields(s@.take(i as int)) == texts(done@).push(part@),
    {
        let ghost before = texts(done@);
        assert(s@.take(i + 1).drop_last() == s@.take(i as int));
        assert(s@.take(i + 1).last() == s@[i as int]);
        assert(before.push(part@).drop_last() == before);
        assert(before.push(part@).last() == part@);
        if s[i] == ':' {
            let ghost ended = part@;
            done.push(part);
            part = Vec::new();
            assert(part@ == Seq::<char>::empty());
            assert(texts(done@) == before.push(ended));
        } else {
            part.push(s[i]);
        }
    }
    assert(s@.take(s@.len() as int) == s@);
    let ghost before = texts(done@);
    let ghost last = part@;
    done.push(part);
    assert(texts(done@) == before.push(last));
    done
}

/// More digits write a number that is no smaller.
proof fn lemma_decimal_grows(s: Seq<char>, i: int)
    requires
        0 <= i <= s.len(),
        forall|j: int| 0 <= j < s.len() ==> digit(#[trigger] s[j]),
    ensures
        decimal(s.take(i)) <= decimal(s),
    decreases s.len() - i,
{
    if i < s.len() {
        lemma_decimal_grows(s, i + 1);
        assert(s.take(i + 1).drop_last() == s.take(i));
        assert(digit(s[i]));
    } else {
        assert(s.take(i) == s);
    }
}

fn digit_value(c: char) -> (d: u64)
    requires
        digit(c),
    ensures
        d == c as int - '0' as int,
        d <= 9,
{
    (c as u32 - '0' as u32) as u64
}

/// The number of 32 bits that a text writes.
pub fn parse_number(s: &Vec<char>) -> (r: Option<u32>)
    ensures
        match r {
            Some(n) => written(s@) == Some(n as nat),
            None => written(s@) is None,
        },
{
    if s.len() == 0 {
        return None;
    }
    for i in 0..s.len()
        invariant
            forall|j: int| 0 <= j < i ==> digit(#[trigger] s@[j]),
    {
        if !('0' <= s[i] && s[i] <= '9') {
            assert(!digit(s@[i as int]));
            return None;
        }
    }
    let mut n: u64 = 0;
    assert(s@.take(0) == Seq::<char>::empty());
    for i in 0..s.len()
        invariant
            forall|j: int| 0 <= j < s@.len() ==> digit(#[trigger] s@[j]),
            n == decimal(s@.take(i as int)),
            n <= u32::MAX,
    {
        assert(digit(s@[i as int]));
        assert(s@.take(i + 1).drop_last() == s@.take(i as int));
        n = n * 10 + digit_value(s[i]);
        if n > u32::MAX as u64 {
            proof {
                lemma_decimal_grows(s@, i + 1);
            }
            return None;
        }
    }
    assert(s@.take(s@.len() as int) == s@);
    Some(n as u32)
}

fn resolve_hour(hour: u32, half: Option<Meridiem>) -> (r: Option<u32>)
    ensures
        match r {
            Some(h) => hour_of_day(hour as nat, half) == Some(h as nat) && h <= 23,
            None => hour_of_day(hour as nat, half) is None,
        },
{
    match half {
        None => if hour <= 23 {
            Some(hour)
        } else {
            None
        },
        Some(Meridiem::Am) => if hour == 12 {
            Some(0)
        } else if 1 <= hour && hour <= 11 {
            Some(hour)
        } else {
            None
        },
        Some(Meridiem::Pm) => if hour == 12 {
            Some(12)
        } else if 1 <= hour && hour <= 11 {
            Some(hour + 12)
        } else {
            None
        },
    }
}

/// The seconds of the day that a text stands for as a time of day.
pub fn parse_time_of_day(text: &Vec<char>) -> (r: Option<u32>)
    ensures
        match r {
            Some(s) => time_of_day(text@) == Some(s as nat) && s < 86400,
            None => time_of_day(text@) is None,
        },
{
    let s = trim(text);
    let (body, half) = split_meridiem(&s);
    if half.is_some() && (s.len() < 3 || !is_white_space(s[s.len() - 3])) {
        return None;
    }
    let parts = split_fields(&body);
    if parts.len() != 2 && parts.len() != 3 {
        return None;
    }
    assert(texts(parts@)[0] == parts@[0]@);
    assert(texts(parts@)[1] == parts@[1]@);
    let hour = match parse_number(&parts[0]) {
        Some(n) => n,
        None => {
            return None;
        },
    };
    let minute = match parse_number(&parts[1]) {
        Some(n) => n,
        None => {
            return None;
        },
    };
    let second = if parts.len() == 3 {
        assert(texts(parts@)[2] == parts@[2]@);
        match parse_number(&parts[2]) {
            Some(n) => n,
            None => {
                return None;
            },
        }
    } else {
        0
    };
    if minute >= 60 || second >= 60 {
        return None;
    }
    match resolve_hour(hour, half) {
        Some(h) => Some(h * 3600 + minute * 60 + second),
        None => None,
    }
}

/// The seconds of the day at a point in time that is not negative.
pub fn seconds_of_day(n: Number) -> (s: u128)
    requires
        n.units() >= 0,
    ensures
        s == seconds(n),
{
    let (numerator, shift) = n.fraction();
    let product = numerator as u128 * 86400;
    let ghost k = pow2((1074 - shift) as nat);
    let ghost exact = nearest_double(product as nat);
    proof {
        lemma2_to64();
        lemma2_to64_rest();
        lemma_pow2_pos((1074 - shift) as nat);
        lemma_nearest_scaled(product as nat, (1074 - shift) as nat);
        assert((numerator * k) * 86400 == (numerator * 86400) * k) by (nonlinear_arith);
        assert(n.units() % one() == numerator * k);
        assert(nearest_double(((n.units() % one()) * 86400) as nat) == exact * k);
        lemma_pow2_adds(shift as nat, (1074 - shift) as nat);
        lemma_pow2_pos(shift as nat);
        let d = pow2(shift as nat) as int;
        assert(one() == d * k);
        assert(2 * (exact * k) + d * k == (2 * exact + d) * k) by (nonlinear_arith);
        assert(2 * (d * k) == (2 * d) * k) by (nonlinear_arith);
    }
    let rounded: u128 = if product < 0x20_0000_0000_0000 {
        product
    } else {
        let (significand, power) = round_to_53(product);
        proof {
            lemma_pow2_adds(6, 64);
            lemma_lead_below(product as nat, 70);
            if power < 17 {
                lemma_pow2_strictly_increases(power as nat, 17);
            }
            assert(significand * pow2(power as nat) <= 2 * HIDDEN * 0x20000) by (nonlinear_arith)
                requires
                    0 <= significand <= 2 * HIDDEN,
                    0 <= pow2(power as nat) <= 0x20000,
            ;
        }
        significand as u128 * wide_power_of_two(power)
    };
    proof {
        assert(rounded == exact);
        assert(exact >= 0);
        let d = pow2(shift as nat) as int;
        lemma_scaled_division(2 * exact + d, 2 * d, k as int);
    }
    if shift >= 80 {
        proof {
            let d = pow2(shift as nat) as int;
            lemma_pow2_adds(16, 64);
            if shift > 80 {
                lemma_pow2_strictly_increases(80, shift as nat);
            }
            assert(0 <= 2 * exact + d < 2 * d);
            vstd::arithmetic::div_mod::lemma_fundamental_div_mod_converse(
                2 * exact + d,
                2 * d,
                0,
                2 * exact + d,
            );
        }
        0
    } else {
        let d = wide_power_of_two(shift);
        proof {
            lemma_pow2_adds(16, 64);
            if shift < 80 {
                lemma_pow2_strictly_increases(shift as nat, 80);
            }
        }
        (2 * rounded + d) / (2 * d)
    }
}

/// A count below a power of two has a leading power below it.
proof fn lemma_lead_below(x: nat, e: nat)
    requires
        0 < x < pow2(e),
    ensures
        lead(x) < e,
{
    crate::number::lemma_lead_bounds(x);
    if lead(x) >= e {
        if lead(x) > e {
            lemma_pow2_strictly_increases(e, lead(x));
        }
    }
}

/// Evaluates the call.
pub fn eval<A: CallArgs>(ctx: &EvalContext, args: &A) -> (v: Value)
    requires
        ready(args),
    ensures
        v@ == result(&ctx.model, args.call()),
{
    let arg = args.eval_scalar(0);
    match ctx.model.to_number(&arg) {
        Ok(n) => {
            if n.is_negative() {
                return Value::Error(ErrorKind::Num);
            }
            let s = seconds_of_day(n);
            Value::Number(Number::from_count((s / 3600) % 24))
        },
        Err(k) => match &arg {
            Value::Text(t) => match parse_time_of_day(t.chars()) {
                Some(s) => Value::Number(Number::from_count(((s / 3600) % 24) as u128)),
                None => Value::Error(ErrorKind::Unsupported),
            },
            _ => Value::Error(k),
        },
    }
}

/// The law of the clock: a time of day that is read is in the hour it names.
pub proof fn law_clock_keeps_hour(h: nat, m: nat, s: nat, half: Option<Meridiem>)
    requires
        clock_seconds(Some(h), Some(m), Some(s), half) is Some,
    ensures
        hour_of_day(h, half) == Some(hour_at(clock_seconds(Some(h), Some(m), Some(s), half)->0 as int) as nat),
{
    let d = hour_of_day(h, half)->0 as int;
    let t = d * 3600 + m * 60 + s;
    assert(t / 3600 == d && d % 24 == d);
}

/// The law of the range: an hour is from 0 to 23.
pub proof fn law_hour_in_range(seconds: int)
    ensures
        0 <= hour_at(seconds) <= 23,
{
}

/// The law of the fraction: points in time whose serial numbers differ by whole
/// days have the same second, and so the same hour.
pub proof fn law_whole_days_do_not_matter(a: Number, b: Number)
    requires
        a.units() % one() == b.units() % one(),
    ensures
        seconds(a) == seconds(b),
{
}

/// The whole seconds `s` are nearest to the part of the day that has passed at the serial
/// number `n`, and at a half the later ones. The seconds that have passed are a double.
pub open spec fn nearest_second(n: Number, s: int) -> bool {
    let passed = nearest_double(((n.units() % one()) * 86400) as nat);
    (2 * s - 1) * one() <= 2 * passed < (2 * s + 1) * one()
}

/// The second `s` of the day lies in the hour `h`. The end of the day lies in the first.
pub open spec fn within_hour(s: int, h: nat) -> bool {
    h < 24 && (3600 * h <= s < 3600 * (h + 1) || (s == 86400 && h == 0))
}

/// The law of the hour: at a serial number that is not negative the result is the hour
/// that the nearest second lies in. A negative one is a number error.
pub proof fn law_hour_holds_the_second(m: &ValueModel, call: CallModel)
    requires
        m.numeric(call.scalar(0)) is Ok,
    ensures
        m.numeric(call.scalar(0))->Ok_0.units() < 0 ==> result(m, call) == Val::Error(ErrorKind::Num),
        m.numeric(call.scalar(0))->Ok_0.units() >= 0 ==> exists|s: int, h: nat| #[trigger]
            within_hour(s, h) && nearest_second(m.numeric(call.scalar(0))->Ok_0, s) && result(m, call) == Val::Number(
                counted(h),
            ),
{
    let n = m.numeric(call.scalar(0))->Ok_0;
    if n.units() >= 0 {
        let s = seconds(n);
        let h = hour_at(s) as nat;
        lemma_nearest_second(n);
        assert(within_hour(s, h));
        assert(within_hour(s, h) && nearest_second(n, s) && result(m, call) == Val::Number(counted(h)));
    }
}

/// The seconds of a serial number are the nearest, and no more than a day has.
proof fn lemma_nearest_second(n: Number)
    ensures
        nearest_second(n, seconds(n)),
        0 <= seconds(n) <= 86400,
{
    crate::number::lemma_whole_ones(86400);
    let o = one() as int;
    let f = n.units() % o;
    assert(0 <= f < o);
    assert(0 <= f * 86400 <= 86400 * o) by (nonlinear_arith)
        requires
            0 <= f < o,
    ;
    let p = nearest_double((f * 86400) as nat);
    crate::number::law_nearest_double_is_nearest((f * 86400) as nat);
    assert(0 <= p && p - f * 86400 <= o / 4) by {
        lemma2_to64();
        lemma_pow2_adds(2, 1072);
        assert(f * 86400 <= 0x20000 * o);
    }
    let s = (2 * p + o) / (2 * o);
    vstd::arithmetic::div_mod::lemma_fundamental_div_mod(2 * p + o, 2 * o);
    assert((2 * o) * s == 2 * s * o) by (nonlinear_arith);
    assert((2 * s - 1) * o == 2 * s * o - o) by (nonlinear_arith);
    assert((2 * s + 1) * o == 2 * s * o + o) by (nonlinear_arith);
    if s < 0 {
        assert(2 * s * o <= -2 * o) by (nonlinear_arith)
            requires
                s <= -1,
                o > 0,
        ;
    }
    assert(0 <= (2 * p + o) % (2 * o) < 2 * o);
    assert(2 * s * o <= 2 * p + o);
    assert(2 * p <= 172800 * o + o);
    if s > 86400 {
        assert(2 * s * o >= 172802 * o) by (nonlinear_arith)
            requires
                s >= 86401,
                o > 0,
        ;
    }
}

/// The number that one or two decimal digits write.
pub open spec fn few_digits(p: Seq<char>) -> nat {
    if p.len() == 1 {
        (p[0] as int - '0' as int) as nat
    } else {
        ((p[0] as int - '0' as int) * 10 + (p[1] as int - '0' as int)) as nat
    }
}

/// The text is one or two decimal digits.
pub open spec fn is_few_digits(p: Seq<char>) -> bool {
    (p.len() == 1 || p.len() == 2) && forall|i: int| 0 <= i < p.len() ==> '0' <= #[trigger] p[i] <= '9'
}

/// Digits for hours and for minutes, and for seconds or none, between colons.
pub open spec fn spelled(hours: Seq<char>, minutes: Seq<char>, seconds: Option<Seq<char>>) -> Seq<char> {
    match seconds {
        None => hours + seq![':'] + minutes,
        Some(p) => hours + seq![':'] + minutes + seq![':'] + p,
    }
}

/// The hour of the day that hours before or after noon stand for.
pub open spec fn hour_named(h: nat, half: Option<Meridiem>) -> Option<nat> {
    match half {
        None => if h < 24 {
            Some(h)
        } else {
            None
        },
        Some(half) => if 0 < h <= 12 {
            Some((h % 12) + if half == Meridiem::Pm {
                12nat
            } else {
                0nat
            })
        } else {
            None
        },
    }
}

/// The text names the half of the day, set apart by a blank, or is empty and names none.
pub open spec fn names_half(tail: Seq<char>, half: Option<Meridiem>) -> bool {
    match half {
        None => tail.len() == 0,
        Some(half) => {
            &&& tail.len() == 3
            &&& tail[0] == ' '
            &&& tail[2] == 'M' || tail[2] == 'm'
            &&& if half == Meridiem::Pm {
                tail[1] == 'P' || tail[1] == 'p'
            } else {
                tail[1] == 'A' || tail[1] == 'a'
            }
        },
    }
}

/// The law of the written time: a text that is no number, of one or two digits each for
/// hours, minutes and maybe seconds and then maybe the half of the day, is in the hour it names,
/// and is refused where it names no time of day.
pub proof fn law_written_time_names_its_hour(
    m: &ValueModel,
    call: CallModel,
    hours: Seq<char>,
    minutes: Seq<char>,
    secs: Option<Seq<char>>,
    tail: Seq<char>,
    half: Option<Meridiem>,
)
    requires
        call.scalar(0) == Val::Text(spelled(hours, minutes, secs) + tail),
        m.numeric(call.scalar(0)) is Err,
        is_few_digits(hours),
        is_few_digits(minutes),
        secs matches Some(p) ==> is_few_digits(p),
        names_half(tail, half),
    ensures
        result(m, call) == (if few_digits(minutes) < 60 && (secs matches Some(p) ==> few_digits(p) < 60) && hour_named(
            few_digits(hours),
            half,
        ) is Some {
            Val::Number(counted(hour_named(few_digits(hours), half)->0))
        } else {
            Val::Error(ErrorKind::Unsupported)
        }),
{
    let s = spelled(hours, minutes, secs);
    let t = s + tail;
    lemma_unspaced(t);
    lemma_split(s, tail, half);
    lemma_few_digits(hours);
    lemma_few_digits(minutes);
    lemma_fields_plain(hours);
    lemma_fields_append(hours, minutes);
    if secs is Some {
        lemma_few_digits(secs->0);
        lemma_fields_append(hours + seq![':'] + minutes, secs->0);
    }
    if time_of_day(t) is Some {
        let h = hour_of_day(few_digits(hours), half)->0 as int;
        let x = time_of_day(t)->0 as int;
        assert(hour_at(x) == h);
    }
}

/// A text of digits, colons and letters that a digit begins and a digit or letter ends is
/// not trimmed.
proof fn lemma_unspaced(t: Seq<char>)
    requires
        t.len() > 0,
        !white_space(t[0]),
        !white_space(t.last()),
    ensures
        trimmed(t) == t,
{
}

/// The half of the day is split off the text before it.
proof fn lemma_split(s: Seq<char>, tail: Seq<char>, half: Option<Meridiem>)
    requires
        s.len() > 0,
        digit(s.last()),
        names_half(tail, half),
    ensures
        meridiem(s + tail) == half,
        clock(s + tail) == s,
        set_apart(s + tail),
{
    let t = s + tail;
    if half is Some {
        let n = t.len() as int;
        assert(t[n - 1] == tail[2]);
        assert(t[n - 2] == tail[1]);
        assert(t[n - 3] == tail[0]);
        let rest = t.take(n - 2);
        assert(rest.last() == ' ');
        assert(rest.drop_last() =~= s);
        assert(trimmed_end(s) == s);
        assert(trimmed_end(rest) == trimmed_end(rest.drop_last()));
    } else {
        assert(t =~= s);
    }
}

proof fn lemma_few_digits(p: Seq<char>)
    requires
        is_few_digits(p),
    ensures
        written(p) == Some(few_digits(p)),
{
    assert(p[0] == p[0] && p[p.len() - 1] == p.last());
    if p.len() == 1 {
        assert(p.drop_last() =~= Seq::<char>::empty());
    } else {
        assert(p.drop_last().drop_last() =~= Seq::<char>::empty());
        assert(p.drop_last().last() == p[0]);
    }
    reveal_with_fuel(decimal, 3);
}

proof fn lemma_fields_plain(p: Seq<char>)
    requires
        forall|i: int| 0 <= i < p.len() ==> #[trigger] p[i] != ':',
    ensures
        fields(p) == seq![p],
    decreases p.len(),
{
    if p.len() > 0 {
        let front = p.drop_last();
        assert forall|i: int| 0 <= i < front.len() implies #[trigger] front[i] != ':' by {
            assert(front[i] == p[i]);
        }
        lemma_fields_plain(front);
        assert(p[p.len() - 1] != ':');
        assert(front.push(p.last()) =~= p);
        assert(seq![front].drop_last() =~= Seq::<Seq<char>>::empty());
        assert(seq![front].drop_last().push(seq![front].last().push(p.last())) =~= seq![p]);
    } else {
        assert(p =~= Seq::<char>::empty());
    }
}

proof fn lemma_fields_append(s: Seq<char>, p: Seq<char>)
    requires
        forall|i: int| 0 <= i < p.len() ==> #[trigger] p[i] != ':',
    ensures
        fields(s + seq![':'] + p) == fields(s).push(p),
    decreases p.len(),
{
    let t = s + seq![':'] + p;
    if p.len() > 0 {
        let front = p.drop_last();
        assert forall|i: int| 0 <= i < front.len() implies #[trigger] front[i] != ':' by {
            assert(front[i] == p[i]);
        }
        lemma_fields_append(s, front);
        assert(p[p.len() - 1] != ':');
        assert(t.last() == p.last());
        assert(t.drop_last() =~= s + seq![':'] + front);
        assert(front.push(p.last()) =~= p);
        assert(fields(s).push(front).drop_last() =~= fields(s));
        assert(fields(s).push(front).last() == front);
    } else {
        assert(p =~= Seq::<char>::empty());
        assert(t.last() == ':');
        assert(t.drop_last() =~= s);
    }
}

/// The law of text and serial number: a point in time whose nearest second is the one that
/// a text stands for is in the hour of the text.
pub proof fn law_text_and_serial_agree(m: &ValueModel, serial: CallModel, text: CallModel, t: Seq<char>, s: nat)
    requires
        m.numeric(serial.scalar(0)) matches Ok(n) && n.units() >= 0 && nearest_second(n, s as int),
        text.scalar(0) == Val::Text(t),
        m.numeric(text.scalar(0)) is Err,
        time_of_day(t) == Some(s),
    ensures
        result(m, serial) == result(m, text),
{
    let n = m.numeric(serial.scalar(0))->Ok_0;
    lemma_nearest_second(n);
    let o = one() as int;
    crate::number::lemma_whole_ones(0);
    let p = nearest_double(((n.units() % one()) * 86400) as nat);
    let q = seconds(n);
    assert((2 * q - 1) * o == 2 * (q * o) - o) by (nonlinear_arith);
    assert((2 * q + 1) * o == 2 * (q * o) + o) by (nonlinear_arith);
    assert((2 * s - 1) * o == 2 * (s * o) - o) by (nonlinear_arith);
    assert((2 * s + 1) * o == 2 * (s * o) + o) by (nonlinear_arith);
    assert(q * o - s * o == (q - s) * o) by (nonlinear_arith);
    assert(q == s) by (nonlinear_arith)
        requires
            -o < (q - s) * o < o,
            o > 0,
    ;
}

/// The text is nothing but white space.
pub open spec fn all_white(s: Seq<char>) -> bool {
    forall|i: int| 0 <= i < s.len() ==> white_space(#[trigger] s[i])
}

/// The law of the space around a time: white space before and after a text that is no number
/// changes nothing of its result.
pub proof fn law_space_around_does_not_matter(
    m: &ValueModel,
    padded: CallModel,
    bare: CallModel,
    before: Seq<char>,
    t: Seq<char>,
    after: Seq<char>,
)
    requires
        padded.scalar(0) == Val::Text(before + t + after),
        bare.scalar(0) == Val::Text(t),
        m.numeric(padded.scalar(0)) is Err,
        m.numeric(bare.scalar(0)) is Err,
        all_white(before),
        all_white(after),
        t.len() > 0,
        !white_space(t[0]),
        !white_space(t.last()),
    ensures
        result(m, padded) == result(m, bare),
{
    let s = before + t + after;
    assert(s[before.len() as int] == t[0]);
    let (a, b) = lemma_trim_bounds(s);
    assert(s[before.len() + t.len() - 1] == t.last());
    assert forall|i: int| 0 <= i < before.len() implies white_space(#[trigger] s[i]) by {
        assert(s[i] == before[i]);
    }
    assert forall|i: int| before.len() + t.len() <= i < s.len() implies white_space(#[trigger] s[i]) by {
        assert(s[i] == after[i - before.len() - t.len()]);
    }
    assert(a == before.len() && b == before.len() + t.len());
    assert(s.subrange(a, b) =~= t);
    lemma_unspaced(t);
}

/// Where the trimmed text begins and ends.
proof fn lemma_trim_bounds(s: Seq<char>) -> (bounds: (int, int))
    requires
        exists|i: int| 0 <= i < s.len() && !white_space(#[trigger] s[i]),
    ensures
        0 <= bounds.0 < bounds.1 <= s.len(),
        trimmed(s) == s.subrange(bounds.0, bounds.1),
        !white_space(s[bounds.0]),
        !white_space(s[bounds.1 - 1]),
        forall|i: int| 0 <= i < bounds.0 || bounds.1 <= i < s.len() ==> white_space(#[trigger] s[i]),
{
    crate::letters::law_trimming_drops_only_white_space(s);
    let (a, b) = choose|a: int, b: int|
        0 <= a <= b <= s.len() && trimmed(s) == #[trigger] s.subrange(a, b) && (forall|i: int|
            0 <= i < a || b <= i < s.len() ==> white_space(#[trigger] s[i]));
    let i = choose|i: int| 0 <= i < s.len() && !white_space(#[trigger] s[i]);
    assert(a <= i < b);
    assert(trimmed(s)[0] == s[a]);
    assert(trimmed(s).last() == s[b - 1]);
    (a, b)
}

/// The law of other texts: one without a colon that is no number is refused, and so is a
/// time to which the half of the day is joined without white space.
pub proof fn law_other_texts_are_refused(m: &ValueModel, call: CallModel, t: Seq<char>, s: Seq<char>, tail: Seq<char>)
    requires
        call.scalar(0) == Val::Text(t),
        m.numeric(call.scalar(0)) is Err,
    ensures
        (forall|i: int| 0 <= i < t.len() ==> #[trigger] t[i] != ':') ==> result(m, call) == Val::Error(ErrorKind::Unsupported),
        t == s + tail && s.len() > 0 && !white_space(s[0]) && digit(s.last()) && tail.len() == 2 && (tail[0] == 'A' || tail[0]
            == 'a' || tail[0] == 'P' || tail[0] == 'p') && (tail[1] == 'M' || tail[1] == 'm') ==> result(m, call)
            == Val::Error(ErrorKind::Unsupported),
{
    if forall|i: int| 0 <= i < t.len() ==> #[trigger] t[i] != ':' {
        crate::letters::law_trimming_drops_only_white_space(t);
        let (a, b) = choose|a: int, b: int|
            0 <= a <= b <= t.len() && trimmed(t) == #[trigger] t.subrange(a, b) && (forall|i: int|
                0 <= i < a || b <= i < t.len() ==> white_space(#[trigger] t[i]));
        let u = trimmed(t);
        assert forall|i: int| 0 <= i < u.len() implies #[trigger] u[i] != ':' by {
            assert(u[i] == t[a + i]);
        }
        let c = clock(u);
        lemma_end_is_prefix(u.take(u.len() - 2));
        assert forall|i: int| 0 <= i < c.len() implies #[trigger] c[i] != ':' by {
            assert(c[i] == u[i]);
        }
        lemma_fields_plain(c);
    }
    if t == s + tail && s.len() > 0 && !white_space(s[0]) && digit(s.last()) && tail.len() == 2 && (tail[0] == 'A' || tail[0]
        == 'a' || tail[0] == 'P' || tail[0] == 'p') && (tail[1] == 'M' || tail[1] == 'm') {
        let n = t.len() as int;
        assert(t[0] == s[0]);
        assert(t[n - 1] == tail[1]);
        assert(t[n - 2] == tail[0]);
        assert(t[n - 3] == s.last());
        lemma_unspaced(t);
        assert(meridiem(t) is Some);
        assert(!set_apart(t));
    }
}

/// A text without the white space at its end begins the text.
proof fn lemma_end_is_prefix(s: Seq<char>)
    ensures
        trimmed_end(s).len() <= s.len(),
        forall|i: int| 0 <= i < trimmed_end(s).len() ==> #[trigger] trimmed_end(s)[i] == s[i],
    decreases s.len(),
{
    if s.len() > 0 && white_space(s.last()) {
        lemma_end_is_prefix(s.drop_last());
    }
}

} // verus!
