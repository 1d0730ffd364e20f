//! Functions of dates and times.

use xl_fn::{
    Arg, ArgShape, Array, Call, CallArgs, Criterion, DateSystem, ErrorKind, EvalContext,
    Number, RefRect, Relation, Standing, Text, Value, ValueModel, func_hour, func_month,
    func_networkdays,
};

const POISON: u64 = u64::MAX;

fn number(x: f64) -> Option<Number> {
    Number::from_bits(x.to_bits())
}

fn num(x: f64) -> Value {
    Value::number(number(x))
}

fn txt(s: &str) -> Value {
    Value::text(s)
}

fn double(n: Number) -> f64 {
    f64::from_bits(n.to_bits())
}

fn string(t: &Text) -> String {
    t.chars().iter().collect()
}

fn scalar(v: Value) -> Arg {
    Arg::Scalar(v)
}

fn block(rows: usize, cols: usize, data: Vec<Value>) -> Array {
    Array::new(rows, cols, data).unwrap()
}

fn range(data: Vec<Value>) -> Arg {
    Arg::Range(block(data.len(), 1, data))
}

/// A call over evaluated arguments that panics where a poisoned one is evaluated.
struct Strict {
    call: Call,
}

impl Strict {
    fn check(&self, i: usize) {
        if let Some(Arg::Scalar(Value::Lambda(POISON))) = self.call.args.get(i) {
            panic!("argument {i} must not be evaluated");
        }
    }
}

impl CallArgs for Strict {
    fn count(&self) -> usize {
        self.call.count()
    }

    fn shape(&self, i: usize) -> ArgShape {
        self.call.shape(i)
    }

    fn is_reference(&self, i: usize) -> bool {
        self.call.is_reference(i)
    }

    fn array_arg_ctx(&self) -> bool {
        self.call.array_arg_ctx()
    }

    fn eval_scalar(&self, i: usize) -> Value {
        self.check(i);
        self.call.eval_scalar(i)
    }

    fn eval_scalar_array_arg(&self, i: usize) -> Value {
        self.check(i);
        self.call.eval_scalar_array_arg(i)
    }

    fn cells(&self, i: usize) -> Vec<Value> {
        self.check(i);
        self.call.cells(i)
    }

    fn rows(&self, i: usize) -> Result<Vec<Vec<Value>>, ErrorKind> {
        self.check(i);
        self.call.rows(i)
    }

    fn used_rows(&self, i: usize) -> Result<Vec<(u32, Vec<Value>)>, ErrorKind> {
        self.check(i);
        self.call.used_rows(i)
    }

    fn used_cols(&self, i: usize) -> Result<Vec<(u32, Vec<Value>)>, ErrorKind> {
        self.check(i);
        self.call.used_cols(i)
    }

    fn arg_ref_extent(&self, i: usize) -> Option<RefRect> {
        self.call.arg_ref_extent(i)
    }

    fn cell_at(&self, i: usize, row: u32, col: u32) -> Option<Value> {
        self.check(i);
        self.call.cell_at(i, row, col)
    }
}

/// The values in an argument.
fn values_of(arg: &Arg) -> Vec<Value> {
    match arg {
        Arg::Omitted => Vec::new(),
        Arg::Scalar(v) | Arg::CellRef(v) => vec![v.duplicate()],
        Arg::Range(a) | Arg::Constant(a) => a.data().iter().map(|v| v.duplicate()).collect(),
        Arg::Unbounded(vs) => vs.iter().map(|v| v.duplicate()).collect(),
        Arg::UsedRows(lines) | Arg::UsedCols(lines) => {
            lines.iter().flat_map(|(_, vs)| vs.iter().map(|v| v.duplicate())).collect()
        }
        Arg::RefCells(_, cells) => cells.iter().map(|(_, _, v)| v.duplicate()).collect(),
    }
}

/// The number that a text reads as in the model of these tests.
fn reading(s: &str) -> Option<f64> {
    if s == "2020-01-06" {
        return Some(43836.0);
    }
    s.trim().parse::<f64>().ok().filter(|x| x.is_finite())
}

/// How the model of these tests orders two values.
fn standing(a: &Value, b: &Value) -> Result<Standing, ErrorKind> {
    let kind = |v: &Value| match v {
        Value::Number(_) => Ok(0),
        Value::Text(_) => Ok(1),
        Value::Bool(_) => Ok(2),
        Value::Error(k) => Err(*k),
        _ => Err(ErrorKind::Unsupported),
    };
    let (left, right) = (kind(a)?, kind(b)?);
    let ordering = match (a, b) {
        (Value::Number(x), Value::Number(y)) => double(*x).partial_cmp(&double(*y)).unwrap(),
        (Value::Text(x), Value::Text(y)) => string(x).to_lowercase().cmp(&string(y).to_lowercase()),
        (Value::Bool(x), Value::Bool(y)) => x.cmp(y),
        _ => left.cmp(&right),
    };
    Ok(match ordering {
        std::cmp::Ordering::Less => Standing::Below,
        std::cmp::Ordering::Equal => Standing::Level,
        std::cmp::Ordering::Greater => Standing::Above,
    })
}

/// The facts of the model of these tests for the values of a call.
fn facts(args: &[Arg]) -> ValueModel {
    let all: Vec<Value> = args.iter().flat_map(values_of).collect();
    let mut model = ValueModel {
        readings: Vec::new(),
        renderings: Vec::new(),
        relations: Vec::new(),
        criteria: criteria(args, &all),
    };
    for v in &all {
        if let Value::Text(t) = v {
            if let Some(n) = reading(&string(t)).and_then(number) {
                model.readings.push((t.duplicate(), n));
            }
        }
        if let Value::Number(n) = v {
            model.renderings.push((*n, Text::new(&format!("{}", double(*n)))));
        }
        for key in args {
            if let Arg::Scalar(key) = key {
                let order = standing(v, key);
                model.relations.push(Relation {
                    left: v.duplicate(),
                    right: key.duplicate(),
                    order,
                    equal: order.map(|s| s == Standing::Level),
                });
            }
        }
    }
    model
}

fn context(args: &[Arg]) -> EvalContext {
    EvalContext { model: facts(args), date_system: DateSystem::From1900, spill_cap: 1000 }
}

fn eval_direct<T>(f: fn(&EvalContext, &Strict) -> T, args: Vec<Arg>) -> T {
    let ctx = context(&args);
    f(&ctx, &Strict { call: Call { args, array_context: false } })
}

/// No criteria occur in these tests.
fn criteria(_args: &[Arg], _all: &[Value]) -> Vec<Criterion> {
    Vec::new()
}

// HOUR.

#[test]
fn noon_is_12() {
    assert_eq!(eval_direct(func_hour::eval, vec![scalar(num(0.5))]), num(12.0));
}

#[test]
fn midnight_is_0() {
    assert_eq!(eval_direct(func_hour::eval, vec![scalar(num(0.0))]), num(0.0));
}

#[test]
fn quarter_day_is_6() {
    assert_eq!(eval_direct(func_hour::eval, vec![scalar(num(0.25))]), num(6.0));
}

#[test]
fn ms_learn_cited_example_0_75_is_18() {
    assert_eq!(eval_direct(func_hour::eval, vec![scalar(num(0.75))]), num(18.0));
}

#[test]
fn datetime_serial_uses_only_the_fraction() {
    assert_eq!(eval_direct(func_hour::eval, vec![scalar(num(100.5))]), num(12.0));
    assert_eq!(eval_direct(func_hour::eval, vec![scalar(num(44_927.25))]), num(6.0));
}

#[test]
fn func_hour_error_propagates() {
    assert_eq!(
        eval_direct(func_hour::eval, vec![scalar(Value::Error(ErrorKind::Div0))]),
        Value::Error(ErrorKind::Div0)
    );
}

#[test]
fn oxp132_negative_serials_are_num_error() {
    for s in [-0.5, -1.25, -0.25] {
        assert_eq!(
            eval_direct(func_hour::eval, vec![scalar(num(s))]),
            Value::Error(ErrorKind::Num),
            "HOUR({s})"
        );
    }
}

#[test]
fn oxp133_subsecond_rounds_to_nearest_second() {
    assert_eq!(eval_direct(func_hour::eval, vec![scalar(num(0.5))]), num(12.0));
    assert_eq!(
        eval_direct(func_hour::eval, vec![scalar(num(0.5 - 0.000_000_1))]),
        num(12.0)
    );
    assert_eq!(eval_direct(func_hour::eval, vec![scalar(num(13.0 / 24.0))]), num(13.0));
    assert_eq!(
        eval_direct(func_hour::eval, vec![scalar(num(1.0 - 0.000_000_1))]),
        num(0.0)
    );
}

#[test]
fn oxp134_parses_documented_time_strings() {
    assert_eq!(
        eval_direct(func_hour::eval, vec![scalar(txt("6:45 PM"))]),
        num(18.0)
    );
    assert_eq!(
        eval_direct(func_hour::eval, vec![scalar(txt("18:45"))]),
        num(18.0)
    );
    assert_eq!(
        eval_direct(func_hour::eval, vec![scalar(txt("6:45"))]),
        num(6.0)
    );
}

#[test]
fn garbage_text_is_unsupported_not_guessed() {
    assert_eq!(
        eval_direct(func_hour::eval, vec![scalar(txt("not a time"))]),
        Value::Error(ErrorKind::Unsupported)
    );
}

#[test]
fn numeric_text_still_coerces() {
    assert_eq!(
        eval_direct(func_hour::eval, vec![scalar(txt("0.75"))]),
        num(18.0)
    );
}

// MONTH.

#[test]
fn oxp090_serial_zero_is_month_one() {
    assert_eq!(eval_direct(func_month::eval, vec![scalar(num(0.0))]), num(1.0));
}

// NETWORKDAYS.

const FRI_2020_01_03: i64 = 43833;
const SAT_2020_01_04: i64 = 43834;
const MON_2020_01_06: i64 = 43836;
const WED_2020_01_08: i64 = 43838;
const FRI_2020_01_10: i64 = 43840;
const MON_2020_01_13: i64 = 43843;

#[test]
fn weekend_anchor_against_known_dates() {
    assert!(!func_networkdays::is_weekend(FRI_2020_01_03));
    assert!(func_networkdays::is_weekend(SAT_2020_01_04));
    assert!(func_networkdays::is_weekend(SAT_2020_01_04 + 1));
    assert!(!func_networkdays::is_weekend(MON_2020_01_06));
    assert!(func_networkdays::is_weekend(1));
}

#[test]
fn same_day_weekday_is_one() {
    let got = eval_direct(
        func_networkdays::eval,
        vec![
            scalar(num(MON_2020_01_06 as f64)),
            scalar(num(MON_2020_01_06 as f64)),
        ],
    );
    assert_eq!(got, num(1.0));
}

#[test]
fn same_day_weekend_is_zero() {
    let got = eval_direct(
        func_networkdays::eval,
        vec![
            scalar(num(SAT_2020_01_04 as f64)),
            scalar(num(SAT_2020_01_04 as f64)),
        ],
    );
    assert_eq!(got, num(0.0));
}

#[test]
fn full_week_mon_to_fri_is_five() {
    let got = eval_direct(
        func_networkdays::eval,
        vec![
            scalar(num(MON_2020_01_06 as f64)),
            scalar(num(FRI_2020_01_10 as f64)),
        ],
    );
    assert_eq!(got, num(5.0));
}

#[test]
fn span_crossing_a_weekend_excludes_sat_sun() {
    let got = eval_direct(
        func_networkdays::eval,
        vec![
            scalar(num(FRI_2020_01_03 as f64)),
            scalar(num(MON_2020_01_06 as f64)),
        ],
    );
    assert_eq!(got, num(2.0));
}

#[test]
fn holiday_inside_range_reduces_count() {
    let got = eval_direct(
        func_networkdays::eval,
        vec![
            scalar(num(MON_2020_01_06 as f64)),
            scalar(num(FRI_2020_01_10 as f64)),
            range(vec![num(WED_2020_01_08 as f64)]),
        ],
    );
    assert_eq!(got, num(4.0));
}

#[test]
fn holiday_outside_range_has_no_effect() {
    let got = eval_direct(
        func_networkdays::eval,
        vec![
            scalar(num(MON_2020_01_06 as f64)),
            scalar(num(FRI_2020_01_10 as f64)),
            range(vec![num(MON_2020_01_13 as f64)]),
        ],
    );
    assert_eq!(got, num(5.0));
}

#[test]
fn holiday_on_a_weekend_has_no_effect() {
    let got = eval_direct(
        func_networkdays::eval,
        vec![
            scalar(num(FRI_2020_01_03 as f64)),
            scalar(num(MON_2020_01_06 as f64)),
            range(vec![num(SAT_2020_01_04 as f64)]),
        ],
    );
    assert_eq!(got, num(2.0));
}

#[test]
fn duplicate_holiday_counts_once() {
    let got = eval_direct(
        func_networkdays::eval,
        vec![
            scalar(num(MON_2020_01_06 as f64)),
            scalar(num(FRI_2020_01_10 as f64)),
            range(vec![num(WED_2020_01_08 as f64), num(WED_2020_01_08 as f64)]),
        ],
    );
    assert_eq!(got, num(4.0));
}

#[test]
fn blank_holiday_cell_is_ignored() {
    let got = eval_direct(
        func_networkdays::eval,
        vec![
            scalar(num(MON_2020_01_06 as f64)),
            scalar(num(FRI_2020_01_10 as f64)),
            range(vec![Value::Blank, num(WED_2020_01_08 as f64)]),
        ],
    );
    assert_eq!(got, num(4.0));
}

#[test]
fn end_before_start_is_deferred_unsupported() {
    let got = eval_direct(
        func_networkdays::eval,
        vec![
            scalar(num(FRI_2020_01_10 as f64)),
            scalar(num(MON_2020_01_06 as f64)),
        ],
    );
    assert_eq!(got, Value::Error(ErrorKind::Unsupported));
}

#[test]
fn non_integer_dates_truncate_toward_the_day() {
    let got = eval_direct(
        func_networkdays::eval,
        vec![
            scalar(num(MON_2020_01_06 as f64 + 0.9)),
            scalar(num(FRI_2020_01_10 as f64 + 0.9)),
        ],
    );
    assert_eq!(got, num(5.0));
}

#[test]
fn start_date_error_propagates() {
    let got = eval_direct(
        func_networkdays::eval,
        vec![
            scalar(Value::Error(ErrorKind::Div0)),
            scalar(num(MON_2020_01_06 as f64)),
        ],
    );
    assert_eq!(got, Value::Error(ErrorKind::Div0));
}

#[test]
fn end_date_error_propagates() {
    let got = eval_direct(
        func_networkdays::eval,
        vec![
            scalar(num(MON_2020_01_06 as f64)),
            scalar(Value::Error(ErrorKind::Na)),
        ],
    );
    assert_eq!(got, Value::Error(ErrorKind::Na));
}

#[test]
fn date_like_text_start_now_coerces() {
    let got = eval_direct(
        func_networkdays::eval,
        vec![
            scalar(txt("2020-01-06")),
            scalar(num(FRI_2020_01_10 as f64)),
        ],
    );
    assert_eq!(got, num(5.0));

    let numeric = eval_direct(
        func_networkdays::eval,
        vec![
            scalar(num(MON_2020_01_06 as f64)),
            scalar(num(FRI_2020_01_10 as f64)),
        ],
    );
    assert_eq!(got, numeric);
}

#[test]
fn holiday_error_propagates() {
    let got = eval_direct(
        func_networkdays::eval,
        vec![
            scalar(num(MON_2020_01_06 as f64)),
            scalar(num(FRI_2020_01_10 as f64)),
            range(vec![Value::Error(ErrorKind::Na)]),
        ],
    );
    assert_eq!(got, Value::Error(ErrorKind::Na));
}

#[test]
fn non_numeric_holiday_is_value_error() {
    let got = eval_direct(
        func_networkdays::eval,
        vec![
            scalar(num(MON_2020_01_06 as f64)),
            scalar(num(FRI_2020_01_10 as f64)),
            range(vec![txt("2020-01-08")]),
        ],
    );
    assert_eq!(got, Value::Error(ErrorKind::Value));

    let got = eval_direct(
        func_networkdays::eval,
        vec![
            scalar(num(MON_2020_01_06 as f64)),
            scalar(num(FRI_2020_01_10 as f64)),
            range(vec![Value::Bool(true)]),
        ],
    );
    assert_eq!(got, Value::Error(ErrorKind::Value));
}

#[test]
fn out_of_range_start_is_num() {
    let got = eval_direct(
        func_networkdays::eval,
        vec![scalar(num(-5.0)), scalar(num(MON_2020_01_06 as f64))],
    );
    assert_eq!(got, Value::Error(ErrorKind::Num));
}
