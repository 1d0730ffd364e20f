//! Functions of finance, with the formulas that their terms stand for.

use xl_fn::{
    Arg, ArgShape, Array, Call, CallArgs, Criterion, DateSystem, ErrorKind, EvalContext,
    Number, RefRect, Relation, Standing, Text, Value, ValueModel, func_fv, func_ipmt, func_irr,
    func_npv, func_pmt, func_ppmt, func_pv,
};

const POISON: u64 = u64::MAX;

fn number(x: f64) -> Option<Number> {
    Number::from_bits(x.to_bits())
}

fn num(x: f64) -> Value {
    Value::number(number(x))
}

fn txt(s: &str) -> Value {
    Value::text(s)
}

fn double(n: Number) -> f64 {
    f64::from_bits(n.to_bits())
}

fn string(t: &Text) -> String {
    t.chars().iter().collect()
}

fn scalar(v: Value) -> Arg {
    Arg::Scalar(v)
}

fn block(rows: usize, cols: usize, data: Vec<Value>) -> Array {
    Array::new(rows, cols, data).unwrap()
}

fn range(data: Vec<Value>) -> Arg {
    Arg::Range(block(data.len(), 1, data))
}

/// A call over evaluated arguments that panics where a poisoned one is evaluated.
struct Strict {
    call: Call,
}

impl Strict {
    fn check(&self, i: usize) {
        if let Some(Arg::Scalar(Value::Lambda(POISON))) = self.call.args.get(i) {
            panic!("argument {i} must not be evaluated");
        }
    }
}

impl CallArgs for Strict {
    fn count(&self) -> usize {
        self.call.count()
    }

    fn shape(&self, i: usize) -> ArgShape {
        self.call.shape(i)
    }

    fn is_reference(&self, i: usize) -> bool {
        self.call.is_reference(i)
    }

    fn array_arg_ctx(&self) -> bool {
        self.call.array_arg_ctx()
    }

    fn eval_scalar(&self, i: usize) -> Value {
        self.check(i);
        self.call.eval_scalar(i)
    }

    fn eval_scalar_array_arg(&self, i: usize) -> Value {
        self.check(i);
        self.call.eval_scalar_array_arg(i)
    }

    fn cells(&self, i: usize) -> Vec<Value> {
        self.check(i);
        self.call.cells(i)
    }

    fn rows(&self, i: usize) -> Result<Vec<Vec<Value>>, ErrorKind> {
        self.check(i);
        self.call.rows(i)
    }

    fn used_rows(&self, i: usize) -> Result<Vec<(u32, Vec<Value>)>, ErrorKind> {
        self.check(i);
        self.call.used_rows(i)
    }

    fn used_cols(&self, i: usize) -> Result<Vec<(u32, Vec<Value>)>, ErrorKind> {
        self.check(i);
        self.call.used_cols(i)
    }

    fn arg_ref_extent(&self, i: usize) -> Option<RefRect> {
        self.call.arg_ref_extent(i)
    }

    fn cell_at(&self, i: usize, row: u32, col: u32) -> Option<Value> {
        self.check(i);
        self.call.cell_at(i, row, col)
    }
}

/// The values in an argument.
fn values_of(arg: &Arg) -> Vec<Value> {
    match arg {
        Arg::Omitted => Vec::new(),
        Arg::Scalar(v) | Arg::CellRef(v) => vec![v.duplicate()],
        Arg::Range(a) | Arg::Constant(a) => a.data().iter().map(|v| v.duplicate()).collect(),
        Arg::Unbounded(vs) => vs.iter().map(|v| v.duplicate()).collect(),
        Arg::UsedRows(lines) | Arg::UsedCols(lines) => {
            lines.iter().flat_map(|(_, vs)| vs.iter().map(|v| v.duplicate())).collect()
        }
        Arg::RefCells(_, cells) => cells.iter().map(|(_, _, v)| v.duplicate()).collect(),
    }
}

/// The number that a text reads as in the model of these tests.
fn reading(s: &str) -> Option<f64> {
    s.trim().parse::<f64>().ok().filter(|x| x.is_finite())
}

/// How the model of these tests orders two values.
fn standing(a: &Value, b: &Value) -> Result<Standing, ErrorKind> {
    let kind = |v: &Value| match v {
        Value::Number(_) => Ok(0),
        Value::Text(_) => Ok(1),
        Value::Bool(_) => Ok(2),
        Value::Error(k) => Err(*k),
        _ => Err(ErrorKind::Unsupported),
    };
    let (left, right) = (kind(a)?, kind(b)?);
    let ordering = match (a, b) {
        (Value::Number(x), Value::Number(y)) => double(*x).partial_cmp(&double(*y)).unwrap(),
        (Value::Text(x), Value::Text(y)) => string(x).to_lowercase().cmp(&string(y).to_lowercase()),
        (Value::Bool(x), Value::Bool(y)) => x.cmp(y),
        _ => left.cmp(&right),
    };
    Ok(match ordering {
        std::cmp::Ordering::Less => Standing::Below,
        std::cmp::Ordering::Equal => Standing::Level,
        std::cmp::Ordering::Greater => Standing::Above,
    })
}

/// The facts of the model of these tests for the values of a call.
fn facts(args: &[Arg]) -> ValueModel {
    let all: Vec<Value> = args.iter().flat_map(values_of).collect();
    let mut model = ValueModel {
        readings: Vec::new(),
        renderings: Vec::new(),
        relations: Vec::new(),
        criteria: criteria(args, &all),
    };
    for v in &all {
        if let Value::Text(t) = v {
            if let Some(n) = reading(&string(t)).and_then(number) {
                model.readings.push((t.duplicate(), n));
            }
        }
        if let Value::Number(n) = v {
            model.renderings.push((*n, Text::new(&format!("{}", double(*n)))));
        }
        for key in args {
            if let Arg::Scalar(key) = key {
                let order = standing(v, key);
                model.relations.push(Relation {
                    left: v.duplicate(),
                    right: key.duplicate(),
                    order,
                    equal: order.map(|s| s == Standing::Level),
                });
            }
        }
    }
    model
}

fn context(args: &[Arg]) -> EvalContext {
    EvalContext { model: facts(args), date_system: DateSystem::From1900, spill_cap: 1000 }
}

fn eval_direct<T>(f: fn(&EvalContext, &Strict) -> T, args: Vec<Arg>) -> T {
    let ctx = context(&args);
    f(&ctx, &Strict { call: Call { args, array_context: false } })
}

/// No criteria occur in these tests.
fn criteria(_args: &[Arg], _all: &[Value]) -> Vec<Criterion> {
    Vec::new()
}

fn cell_ref(v: Value) -> Arg {
    Arg::CellRef(v)
}

fn array(data: Vec<Value>) -> Arg {
    Arg::Constant(block(1, data.len(), data))
}

/// The factor by which payments at the start of a period are worth more.
fn timing(rate: f64, due: bool) -> f64 {
    if due {
        1.0 + rate
    } else {
        1.0
    }
}

fn fv_eval(ctx: &EvalContext, args: &Strict) -> Value {
    match func_fv::terms(ctx, args) {
        Err(k) => Value::Error(k),
        Ok(func_fv::Terms::Straight { nper, pmt, pv }) => num(-(double(pv) + double(pmt) * double(nper))),
        Ok(func_fv::Terms::Compound { rate, nper, pmt, pv, due }) => {
            let rate = double(rate);
            let p = (1.0 + rate).powf(double(nper));
            num(-(double(pv) * p + double(pmt) * timing(rate, due) * (p - 1.0) / rate))
        }
    }
}

fn pv_eval(ctx: &EvalContext, args: &Strict) -> Value {
    match func_pv::terms(ctx, args) {
        Err(k) => Value::Error(k),
        Ok(func_pv::Terms::Straight { nper, pmt, fv }) => num(-(double(pmt) * double(nper) + double(fv))),
        Ok(func_pv::Terms::Compound { rate, nper, pmt, fv, due }) => {
            let rate = double(rate);
            let p = (1.0 + rate).powf(double(nper));
            num(-(double(fv) + double(pmt) * timing(rate, due) * (p - 1.0) / rate) / p)
        }
    }
}

fn pmt_eval(ctx: &EvalContext, args: &Strict) -> Value {
    match func_pmt::terms(ctx, args) {
        Err(k) => Value::Error(k),
        Ok(func_pmt::Terms::Straight { nper, pv, fv }) => num(-(double(pv) + double(fv)) / double(nper)),
        Ok(func_pmt::Terms::Compound { rate, nper, pv, fv, due }) => {
            let rate = double(rate);
            let p = (1.0 + rate).powf(double(nper));
            let denominator = (p - 1.0) * timing(rate, due);
            let payment = -(double(pv) * p + double(fv)) * rate / denominator;
            func_pmt::settle(number(denominator), number(payment))
        }
    }
}

/// The payment of a loan, in floating point.
fn payment(rate: f64, nper: f64, pv: f64, fv: f64, due: bool) -> f64 {
    let p = (1.0 + rate).powf(nper);
    -(pv * p + fv) * rate / ((p - 1.0) * timing(rate, due))
}

/// The payment of a loan and its interest part in the period `per`, counted from one,
/// in floating point.
fn payment_and_interest(rate: f64, per: f64, nper: f64, pv: f64, fv: f64, due: bool) -> (f64, f64) {
    let pmt = payment(rate, nper, pv, fv, due);
    let q = (1.0 + rate).powf(per - 1.0);
    let balance = pv * q + pmt * timing(rate, due) * (q - 1.0) / rate;
    (pmt, -balance * rate / timing(rate, due))
}

fn ipmt_eval(ctx: &EvalContext, args: &Strict) -> Value {
    match func_ipmt::terms(ctx, args) {
        Err(k) => Value::Error(k),
        Ok(func_ipmt::Terms::Zero) => num(0.0),
        Ok(func_ipmt::Terms::Interest { rate, per, nper, pv, fv, due }) => {
            let rate = double(rate);
            let (_, interest) = payment_and_interest(rate, double(per), double(nper), double(pv), double(fv), due);
            num(interest)
        }
    }
}

fn ppmt_eval(ctx: &EvalContext, args: &Strict) -> Value {
    match func_ppmt::terms(ctx, args) {
        Err(k) => Value::Error(k),
        Ok(func_ppmt::Terms::Straight { nper, pv, fv }) => num(-(double(pv) + double(fv)) / double(nper)),
        Ok(func_ppmt::Terms::First { rate, nper, pv, fv }) => {
            num(payment(double(rate), double(nper), double(pv), double(fv), true))
        }
        Ok(func_ppmt::Terms::Principal { rate, per, nper, pv, fv, due }) => {
            let rate = double(rate);
            let (pmt, interest) = payment_and_interest(rate, double(per), double(nper), double(pv), double(fv), due);
            num(pmt - interest)
        }
    }
}

fn npv_eval(ctx: &EvalContext, args: &Strict) -> Value {
    match func_npv::terms(ctx, args) {
        Err(k) => Value::Error(k),
        Ok(t) => {
            let base = 1.0 + double(t.rate);
            let mut sum = 0.0;
            for (i, n) in t.flows.iter().enumerate() {
                sum += double(*n) / base.powi(i as i32 + 1);
            }
            num(sum)
        }
    }
}

/// The present value of flows and its slope at a rate.
fn value_and_slope(flows: &[f64], rate: f64) -> (f64, f64) {
    let base = 1.0 + rate;
    let (mut value, mut slope) = (0.0, 0.0);
    for (i, v) in flows.iter().enumerate() {
        let discount = base.powi(i as i32);
        value += v / discount;
        if i > 0 {
            slope -= (i as f64) * v / (discount * base);
        }
    }
    (value, slope)
}

fn irr_eval(ctx: &EvalContext, args: &Strict) -> Value {
    let t = match func_irr::terms(ctx, args) {
        Err(k) => return Value::Error(k),
        Ok(t) => t,
    };
    let flows: Vec<f64> = t.flows.iter().map(|n| double(*n)).collect();
    let mut rate = double(func_irr::start(&t));
    let mut rounds = func_irr::Rounds::new();
    loop {
        let (value, slope) = value_and_slope(&flows, rate);
        let next = rate - value / slope;
        let step = rounds.advance(func_irr::Round {
            value_finite: value.is_finite(),
            slope: number(slope),
            next: number(next),
            settled: (next - rate).abs() <= 1e-12 * (1.0 + rate.abs()),
        });
        match step {
            func_irr::Step::Done(v) => return v,
            func_irr::Step::Again(n) => rate = double(n),
            func_irr::Step::Weigh(n) => {
                let (value, _) = value_and_slope(&flows, double(n));
                let size: f64 = flows.iter().map(|v| v.abs()).sum();
                let within = value.is_finite() && size > 0.0 && value.abs() <= 1e-10 * size;
                return func_irr::weigh(n, within);
            }
        }
    }
}

// FV.

fn fv_as_num(v: Value) -> f64 {
    match v {
        Value::Number(n) => double(n),
        other => panic!("expected a number, got {other:?}"),
    }
}

const FV_CENT: f64 = 0.005;
const FV_TIGHT: f64 = 1e-9;
const FV_TOL: f64 = 1e-6;

#[test]
fn canonical_ms_examples() {
    let e1 = fv_as_num(eval_direct(
        fv_eval,
        vec![
            scalar(num(0.06 / 12.0)),
            scalar(num(10.0)),
            scalar(num(-200.0)),
            scalar(num(-500.0)),
            scalar(num(1.0)),
        ],
    ));
    assert!((e1 - 2581.40).abs() < FV_CENT, "got {e1}");

    let e2 = fv_as_num(eval_direct(
        fv_eval,
        vec![
            scalar(num(0.12 / 12.0)),
            scalar(num(12.0)),
            scalar(num(-1000.0)),
        ],
    ));
    assert!((e2 - 12682.50).abs() < FV_CENT, "got {e2}");

    let e3 = fv_as_num(eval_direct(
        fv_eval,
        vec![
            scalar(num(0.11 / 12.0)),
            scalar(num(35.0)),
            scalar(num(-2000.0)),
            Arg::Omitted,
            scalar(num(1.0)),
        ],
    ));
    assert!((e3 - 82846.25).abs() < FV_CENT, "got {e3}");
    assert!(
        e3 > 0.0,
        "negative payments accumulate a positive FV, got {e3}"
    );
}

#[test]
fn func_fv_rate_zero_is_exact_straight_line() {
    assert_eq!(
        eval_direct(
            fv_eval,
            vec![scalar(num(0.0)), scalar(num(10.0)), scalar(num(100.0))],
        ),
        num(-1000.0)
    );

    assert_eq!(
        eval_direct(
            fv_eval,
            vec![
                scalar(num(0.0)),
                scalar(num(10.0)),
                scalar(num(100.0)),
                scalar(num(50.0)),
            ],
        ),
        num(-1050.0)
    );
}

#[test]
fn func_fv_type1_is_type0_times_one_plus_rate() {
    let rate = 0.05;
    let t0 = fv_as_num(eval_direct(
        fv_eval,
        vec![
            scalar(num(rate)),
            scalar(num(10.0)),
            scalar(num(100.0)),
            scalar(num(0.0)),
            scalar(num(0.0)),
        ],
    ));
    let t1 = fv_as_num(eval_direct(
        fv_eval,
        vec![
            scalar(num(rate)),
            scalar(num(10.0)),
            scalar(num(100.0)),
            scalar(num(0.0)),
            scalar(num(1.0)),
        ],
    ));
    assert!((t1 - t0 * (1.0 + rate)).abs() < FV_TIGHT, "t0 {t0}, t1 {t1}");
}

#[test]
fn func_fv_type_nonzero_collapses_to_one_oxp_118() {
    let t2 = eval_direct(
        fv_eval,
        vec![
            scalar(num(0.05)),
            scalar(num(10.0)),
            scalar(num(100.0)),
            scalar(num(0.0)),
            scalar(num(2.0)),
        ],
    );
    let t1 = eval_direct(
        fv_eval,
        vec![
            scalar(num(0.05)),
            scalar(num(10.0)),
            scalar(num(100.0)),
            scalar(num(0.0)),
            scalar(num(1.0)),
        ],
    );
    assert_eq!(t2, t1, "nonzero type must collapse to type == 1");
}

#[test]
fn loan_repaid_by_pmt_has_zero_future_value() {
    let (rate, nper, pv) = (0.05, 12.0, 10000.0);
    let pmt = fv_as_num(eval_direct(
        pmt_eval,
        vec![scalar(num(rate)), scalar(num(nper)), scalar(num(pv))],
    ));
    let residual = fv_as_num(eval_direct(
        fv_eval,
        vec![
            scalar(num(rate)),
            scalar(num(nper)),
            scalar(num(pmt)),
            scalar(num(pv)),
        ],
    ));
    assert!(
        residual.abs() < FV_TOL,
        "residual FV should be ~0, got {residual}"
    );
}

#[test]
fn func_fv_sign_flips_with_pmt_sign() {
    let got = fv_as_num(eval_direct(
        fv_eval,
        vec![scalar(num(0.05)), scalar(num(12.0)), scalar(num(250.0))],
    ));
    assert!(got < 0.0, "positive payment → negative FV, got {got}");
}

#[test]
fn func_fv_numeric_text_and_logical_coerce() {
    let got = fv_as_num(eval_direct(
        fv_eval,
        vec![scalar(num(0.0)), scalar(num(10.0)), scalar(txt("-100"))],
    ));
    assert!((got - 1000.0).abs() < FV_TIGHT, "got {got}");

    let with_bool = eval_direct(
        fv_eval,
        vec![
            scalar(num(0.05)),
            scalar(num(10.0)),
            scalar(num(100.0)),
            scalar(num(0.0)),
            scalar(Value::Bool(true)),
        ],
    );
    let with_one = eval_direct(
        fv_eval,
        vec![
            scalar(num(0.05)),
            scalar(num(10.0)),
            scalar(num(100.0)),
            scalar(num(0.0)),
            scalar(num(1.0)),
        ],
    );
    assert_eq!(with_bool, with_one, "TRUE type must equal type == 1");
}

#[test]
fn func_fv_arg_error_propagates() {
    assert_eq!(
        eval_direct(
            fv_eval,
            vec![
                scalar(Value::Error(ErrorKind::Div0)),
                scalar(num(10.0)),
                scalar(num(100.0)),
            ],
        ),
        Value::Error(ErrorKind::Div0)
    );

    assert_eq!(
        eval_direct(
            fv_eval,
            vec![scalar(num(0.05)), scalar(num(10.0)), scalar(txt("abc"))],
        ),
        Value::Error(ErrorKind::Value)
    );
}

// IPMT.

fn ipmt_as_num(v: Value) -> f64 {
    match v {
        Value::Number(n) => double(n),
        other => panic!("expected a number, got {other:?}"),
    }
}

const IPMT_CENT: f64 = 0.005;

const IPMT_TOL: f64 = 1e-9;

fn ipmt_pmt(rate: f64, nper: f64, pv: f64, fv: f64, typ: f64) -> f64 {
    if rate == 0.0 {
        -(pv + fv) / nper
    } else {
        let p = (1.0 + rate).powf(nper);
        -(pv * p + fv) * rate / ((p - 1.0) * (1.0 + rate * typ))
    }
}

#[test]
fn func_ipmt_ms_example_first_month() {
    let got = ipmt_as_num(eval_direct(
        ipmt_eval,
        vec![
            scalar(num(0.1 / 12.0)),
            scalar(num(1.0)),
            scalar(num(36.0)),
            scalar(num(8000.0)),
        ],
    ));
    assert!((got - (-66.67)).abs() < IPMT_CENT, "got {got}");

    assert!((got - (-8000.0 * (0.1 / 12.0))).abs() < IPMT_TOL, "got {got}");
}

#[test]
fn ms_example_final_year() {
    let got = ipmt_as_num(eval_direct(
        ipmt_eval,
        vec![
            scalar(num(0.1)),
            scalar(num(3.0)),
            scalar(num(3.0)),
            scalar(num(8000.0)),
        ],
    ));
    assert!((got - (-292.45)).abs() < IPMT_CENT, "got {got}");
}

#[test]
fn per_one_end_is_minus_pv_times_rate() {
    let got = ipmt_as_num(eval_direct(
        ipmt_eval,
        vec![
            scalar(num(0.1)),
            scalar(num(1.0)),
            scalar(num(3.0)),
            scalar(num(1000.0)),
        ],
    ));
    assert!((got - (-100.0)).abs() < IPMT_TOL, "got {got}");
}

#[test]
fn annuity_due_first_period_is_zero() {
    let got = eval_direct(
        ipmt_eval,
        vec![
            scalar(num(0.1)),
            scalar(num(1.0)),
            scalar(num(2.0)),
            scalar(num(1000.0)),
            scalar(num(0.0)),
            scalar(num(1.0)),
        ],
    );
    assert_eq!(got, num(0.0), "annuity-due period 1 must be exactly 0");
}

#[test]
fn annuity_due_second_period_hand_derived() {
    let got = ipmt_as_num(eval_direct(
        ipmt_eval,
        vec![
            scalar(num(0.1)),
            scalar(num(2.0)),
            scalar(num(2.0)),
            scalar(num(1000.0)),
            scalar(num(0.0)),
            scalar(num(1.0)),
        ],
    ));
    assert!((got - (-47.61904761904762)).abs() < 1e-6, "got {got}");

    assert!(
        (got - (-52.38)).abs() > 1.0,
        "must apply the annuity-due factor"
    );
}

#[test]
fn interest_plus_principal_equals_payment_over_all_periods() {
    let (rate, nper, pv, fv, typ) = (0.1, 3.0, 8000.0, 0.0, 0.0);
    let mut sum = 0.0;
    for per in 1..=(nper as i64) {
        sum += ipmt_as_num(eval_direct(
            ipmt_eval,
            vec![
                scalar(num(rate)),
                scalar(num(per as f64)),
                scalar(num(nper)),
                scalar(num(pv)),
            ],
        ));
    }
    let want = nper * ipmt_pmt(rate, nper, pv, fv, typ) + pv;
    assert!((sum - want).abs() < 1e-6, "sum {sum}, want {want}");
}

#[test]
fn zero_rate_is_zero_interest() {
    let got = eval_direct(
        ipmt_eval,
        vec![
            scalar(num(0.0)),
            scalar(num(2.0)),
            scalar(num(4.0)),
            scalar(num(1000.0)),
        ],
    );
    assert_eq!(got, num(0.0));
}

#[test]
fn per_below_range_is_num() {
    assert_eq!(
        eval_direct(
            ipmt_eval,
            vec![
                scalar(num(0.1)),
                scalar(num(0.0)),
                scalar(num(3.0)),
                scalar(num(1000.0)),
            ]
        ),
        Value::Error(ErrorKind::Num)
    );
}

#[test]
fn func_ipmt_per_above_nper_is_num() {
    assert_eq!(
        eval_direct(
            ipmt_eval,
            vec![
                scalar(num(0.1)),
                scalar(num(4.0)),
                scalar(num(3.0)),
                scalar(num(1000.0)),
            ]
        ),
        Value::Error(ErrorKind::Num)
    );
}

#[test]
fn non_integer_per_end_of_period_oxp_150() {
    let got = ipmt_as_num(eval_direct(
        ipmt_eval,
        vec![
            scalar(num(0.1)),
            scalar(num(1.5)),
            scalar(num(3.0)),
            scalar(num(1000.0)),
        ],
    ));
    assert!(
        (got - (-85.25412441989381)).abs() < 1e-6,
        "got {got}, want -85.25412441989381"
    );
}

#[test]
fn func_ipmt_fractional_per_annuity_due_is_unsupported() {
    assert_eq!(
        eval_direct(
            ipmt_eval,
            vec![
                scalar(num(0.1)),
                scalar(num(1.5)),
                scalar(num(3.0)),
                scalar(num(1000.0)),
                scalar(num(0.0)),
                scalar(num(1.0)),
            ]
        ),
        Value::Error(ErrorKind::Unsupported)
    );
}

#[test]
fn type_nonzero_collapses_to_one_oxp_151() {
    assert_eq!(
        eval_direct(
            ipmt_eval,
            vec![
                scalar(num(0.1)),
                scalar(num(1.0)),
                scalar(num(3.0)),
                scalar(num(1000.0)),
                scalar(num(0.0)),
                scalar(num(2.0)),
            ]
        ),
        num(0.0)
    );
}

#[test]
fn func_ipmt_error_argument_propagates() {
    assert_eq!(
        eval_direct(
            ipmt_eval,
            vec![
                scalar(num(0.1)),
                scalar(num(1.0)),
                scalar(num(3.0)),
                scalar(Value::Error(ErrorKind::Div0)),
            ]
        ),
        Value::Error(ErrorKind::Div0)
    );
}

// IRR.

fn irr_as_num(v: Value) -> f64 {
    match v {
        Value::Number(n) => double(n),
        other => panic!("expected a number, got {other:?}"),
    }
}

const IRR_TOL: f64 = 1e-10;

fn irr_vec_a() -> Vec<Value> {
    vec![num(-100.0), num(30.0), num(40.0), num(50.0), num(60.0)]
}
fn irr_vec_b() -> Vec<Value> {
    vec![
        num(-1000.0),
        num(500.0),
        num(400.0),
        num(300.0),
        num(200.0),
        num(100.0),
    ]
}
fn irr_vec_d() -> Vec<Value> {
    vec![num(-1.0), num(5.0), num(-6.0)]
}

#[test]
fn farm_a_default_guess() {
    let got = irr_as_num(eval_direct(irr_eval, vec![range(irr_vec_a())]));
    assert!((got - 0.24888335662133043).abs() < IRR_TOL, "got {got}");
}

#[test]
fn farm_a_explicit_guess_matches_default() {
    let default = eval_direct(irr_eval, vec![range(irr_vec_a())]);
    let explicit = eval_direct(irr_eval, vec![range(irr_vec_a()), scalar(num(0.1))]);
    assert_eq!(default, explicit, "omitted guess must equal explicit 0.1");
    assert!((irr_as_num(explicit) - 0.24888335662133043).abs() < IRR_TOL);
}

#[test]
fn farm_a_guess_half_same_root() {
    let got = irr_as_num(eval_direct(irr_eval, vec![range(irr_vec_a()), scalar(num(0.5))]));
    assert!((got - 0.24888335662407135).abs() < IRR_TOL, "got {got}");

    let default = irr_as_num(eval_direct(irr_eval, vec![range(irr_vec_a())]));
    assert!(
        (got - default).abs() < IRR_TOL,
        "guess 0.5 must find the same root"
    );
}

#[test]
fn farm_b() {
    let got = irr_as_num(eval_direct(irr_eval, vec![range(irr_vec_b())]));
    assert!((got - 0.20271969394349076).abs() < IRR_TOL, "got {got}");
}

#[test]
fn scale_invariance_real_magnitude_cashflows() {
    const UNIT_RATE: f64 = 0.24888335662133043;
    let unit = irr_as_num(eval_direct(irr_eval, vec![range(irr_vec_a())]));
    assert!((unit - UNIT_RATE).abs() < 1e-9, "unit rate {unit}");

    for &k in &[1e3_f64, 1e6, 1e9] {
        let scaled = vec![
            num(-100.0 * k),
            num(30.0 * k),
            num(40.0 * k),
            num(50.0 * k),
            num(60.0 * k),
        ];
        let got = irr_as_num(eval_direct(irr_eval, vec![range(scaled)]));
        assert!(
            (got - UNIT_RATE).abs() < 1e-9,
            "scale {k}: got {got}, want {UNIT_RATE} (scale-invariance)"
        );
        assert!(
            (got - unit).abs() < 1e-9,
            "scale {k}: got {got} must equal the ×1 rate {unit}"
        );
    }
}

#[test]
fn farm_c_all_positive_is_num() {
    assert_eq!(
        eval_direct(irr_eval, vec![range(vec![num(100.0), num(200.0), num(300.0)])]),
        Value::Error(ErrorKind::Num)
    );
}

#[test]
fn farm_d_default_guess_finds_root_one() {
    let got = irr_as_num(eval_direct(irr_eval, vec![range(irr_vec_d())]));
    assert!((got - 0.99999999999996).abs() < IRR_TOL, "got {got}");

    assert!(
        (got - 1.0).abs() < 1e-6,
        "must land on the r=1 root, got {got}"
    );
}

#[test]
fn farm_d_guess_1_5_finds_root_two() {
    let got = irr_as_num(eval_direct(irr_eval, vec![range(irr_vec_d()), scalar(num(1.5))]));
    assert!((got - 1.9999999999999987).abs() < IRR_TOL, "got {got}");
    assert!(
        (got - 2.0).abs() < 1e-6,
        "must land on the r=2 root, got {got}"
    );
}

#[test]
fn guess_selects_distinct_roots() {
    let r1 = irr_as_num(eval_direct(irr_eval, vec![range(irr_vec_d())]));
    let r2 = irr_as_num(eval_direct(irr_eval, vec![range(irr_vec_d()), scalar(num(1.5))]));
    assert!(
        (r2 - r1).abs() > 0.5,
        "guess must pick different roots: {r1} vs {r2}"
    );
}

#[test]
fn range_skips_text_blank_logical_and_preserves_order() {
    let interleaved = vec![
        num(-100.0),
        txt("note"),
        num(30.0),
        Value::Blank,
        num(40.0),
        Value::Bool(true),
        num(50.0),
        num(60.0),
    ];
    let got = irr_as_num(eval_direct(irr_eval, vec![range(interleaved)]));
    let plain = irr_as_num(eval_direct(irr_eval, vec![range(irr_vec_a())]));
    assert!((got - plain).abs() < IRR_TOL, "got {got}, want {plain}");
    assert!((got - 0.24888335662133043).abs() < IRR_TOL, "got {got}");
}

#[test]
fn all_negative_is_num() {
    assert_eq!(
        eval_direct(irr_eval, vec![range(vec![num(-100.0), num(-30.0), num(-40.0)])]),
        Value::Error(ErrorKind::Num)
    );
}

#[test]
fn single_value_is_num() {
    assert_eq!(
        eval_direct(irr_eval, vec![range(vec![num(-100.0)])]),
        Value::Error(ErrorKind::Num)
    );
}

#[test]
fn empty_values_is_num() {
    assert_eq!(
        eval_direct(irr_eval, vec![range(vec![txt("a"), Value::Blank])]),
        Value::Error(ErrorKind::Num)
    );
}

#[test]
fn error_in_values_maps_to_value_oxp192_194() {
    for kind in [ErrorKind::Div0, ErrorKind::Na, ErrorKind::Ref] {
        assert_eq!(
            eval_direct(
                irr_eval,
                vec![range(vec![num(-100.0), Value::Error(kind), num(200.0)])]
            ),
            Value::Error(ErrorKind::Value),
            "error {kind:?} in values must map to #VALUE!"
        );
    }
}

#[test]
fn error_guess_propagates() {
    assert_eq!(
        eval_direct(
            irr_eval,
            vec![range(irr_vec_a()), scalar(Value::Error(ErrorKind::Na))]
        ),
        Value::Error(ErrorKind::Na)
    );
}

#[test]
fn numeric_text_guess_coerces() {
    let got = irr_as_num(eval_direct(irr_eval, vec![range(irr_vec_a()), scalar(txt("0.5"))]));
    assert!((got - 0.24888335662407135).abs() < IRR_TOL, "got {got}");
}

#[test]
fn array_values_supported() {
    let got = irr_as_num(eval_direct(irr_eval, vec![array(irr_vec_a())]));
    assert!((got - 0.24888335662133043).abs() < IRR_TOL, "got {got}");
}

// NPV.

fn npv_as_num(v: Value) -> f64 {
    match v {
        Value::Number(n) => double(n),
        other => panic!("expected a number, got {other:?}"),
    }
}

const NPV_TOL: f64 = 1e-6;

#[test]
fn func_npv_canonical_ms_example() {
    let got = npv_as_num(eval_direct(
        npv_eval,
        vec![
            scalar(num(0.1)),
            scalar(num(-10000.0)),
            scalar(num(3000.0)),
            scalar(num(4200.0)),
            scalar(num(6800.0)),
        ],
    ));
    assert!((got - 1188.4434123352207).abs() < NPV_TOL, "got {got}");
}

#[test]
fn first_value_is_discounted_one_period() {
    let got = npv_as_num(eval_direct(
        npv_eval,
        vec![scalar(num(0.1)), scalar(num(100.0))],
    ));
    assert!((got - (100.0 / 1.1)).abs() < NPV_TOL, "got {got}");

    assert!((got - 100.0).abs() > 1.0, "must be discounted, got {got}");
}

#[test]
fn two_values_sum_of_discounts() {
    let got = npv_as_num(eval_direct(
        npv_eval,
        vec![scalar(num(0.1)), scalar(num(100.0)), scalar(num(200.0))],
    ));
    let want = 100.0 / 1.1 + 200.0 / 1.1_f64.powi(2);
    assert!((got - want).abs() < NPV_TOL, "got {got}, want {want}");
}

#[test]
fn range_skips_text_blank_and_period_advances_only_on_numbers() {
    let got = npv_as_num(eval_direct(
        npv_eval,
        vec![
            scalar(num(0.1)),
            range(vec![
                num(100.0),
                txt("x"),
                Value::Blank,
                Value::Bool(true),
                num(200.0),
            ]),
        ],
    ));
    let want = 100.0 / 1.1 + 200.0 / 1.1_f64.powi(2);
    assert!((got - want).abs() < NPV_TOL, "got {got}, want {want}");
}

#[test]
fn period_index_spans_arguments_in_order() {
    let got = npv_as_num(eval_direct(
        npv_eval,
        vec![
            scalar(num(0.05)),
            scalar(num(100.0)),
            range(vec![num(200.0), txt("skip"), num(300.0)]),
        ],
    ));
    let want = 100.0 / 1.05 + 200.0 / 1.05_f64.powi(2) + 300.0 / 1.05_f64.powi(3);
    assert!((got - want).abs() < NPV_TOL, "got {got}, want {want}");
}

#[test]
fn func_npv_scalar_coercion_text_and_logical() {
    let got = npv_as_num(eval_direct(
        npv_eval,
        vec![
            scalar(num(0.1)),
            scalar(txt("100")),
            scalar(Value::Bool(true)),
        ],
    ));
    let want = 100.0 / 1.1 + 1.0 / 1.1_f64.powi(2);
    assert!((got - want).abs() < NPV_TOL, "got {got}, want {want}");
}

#[test]
fn oxp_125_direct_scalar_true_and_numeric_text() {
    let got = npv_as_num(eval_direct(
        npv_eval,
        vec![
            scalar(num(0.1)),
            scalar(Value::Bool(true)),
            scalar(txt("5")),
        ],
    ));
    assert!((got - 5.0413223140495855).abs() < NPV_TOL, "got {got}");
}

#[test]
fn oxp_126_direct_scalar_error_propagates() {
    assert_eq!(
        eval_direct(
            npv_eval,
            vec![
                scalar(num(0.1)),
                scalar(num(100.0)),
                scalar(Value::Error(ErrorKind::Na)),
                scalar(num(200.0)),
            ]
        ),
        Value::Error(ErrorKind::Na)
    );
}

#[test]
fn rate_error_propagates() {
    assert_eq!(
        eval_direct(
            npv_eval,
            vec![scalar(Value::Error(ErrorKind::Div0)), scalar(num(100.0))]
        ),
        Value::Error(ErrorKind::Div0)
    );
}

#[test]
fn cash_flow_error_propagates() {
    assert_eq!(
        eval_direct(
            npv_eval,
            vec![
                scalar(num(0.1)),
                range(vec![num(100.0), Value::Error(ErrorKind::Value), num(200.0)])
            ]
        ),
        Value::Error(ErrorKind::Value)
    );
}

#[test]
fn rate_minus_one_is_div0() {
    assert_eq!(
        eval_direct(
            npv_eval,
            vec![scalar(num(-1.0)), scalar(num(100.0)), scalar(num(200.0))]
        ),
        Value::Error(ErrorKind::Div0)
    );
}

#[test]
fn no_numeric_cash_flows_is_zero() {
    assert_eq!(
        eval_direct(
            npv_eval,
            vec![scalar(num(0.1)), range(vec![txt("a"), Value::Blank])]
        ),
        num(0.0)
    );
}

#[test]
fn rfc0010_cash_flow_text_reference_is_ignored() {
    let got = npv_as_num(eval_direct(
        npv_eval,
        vec![scalar(num(0.1)), cell_ref(txt("x")), scalar(num(100.0))],
    ));
    assert!((got - (100.0 / 1.1)).abs() < NPV_TOL, "got {got}");
}

#[test]
fn rfc0010_scalar_literal_cash_flow_still_coerces() {
    assert_eq!(
        eval_direct(npv_eval, vec![scalar(num(0.1)), scalar(txt("x"))]),
        Value::Error(ErrorKind::Value)
    );
}

// PMT.

fn pmt_as_num(v: Value) -> f64 {
    match v {
        Value::Number(n) => double(n),
        other => panic!("expected a number, got {other:?}"),
    }
}

const PMT_CENT: f64 = 0.005;
const PMT_TIGHT: f64 = 1e-9;

#[test]
fn canonical_ms_example_type0() {
    let got = pmt_as_num(eval_direct(
        pmt_eval,
        vec![
            scalar(num(0.08 / 12.0)),
            scalar(num(10.0)),
            scalar(num(10000.0)),
        ],
    ));
    assert!((got - (-1037.03)).abs() < PMT_CENT, "got {got}");
    assert!(
        got < 0.0,
        "positive-pv loan payment must be negative, got {got}"
    );
}

#[test]
fn canonical_ms_example_type1_beginning_of_period() {
    let got = pmt_as_num(eval_direct(
        pmt_eval,
        vec![
            scalar(num(0.08 / 12.0)),
            scalar(num(10.0)),
            scalar(num(10000.0)),
            Arg::Omitted,
            scalar(num(1.0)),
        ],
    ));
    assert!((got - (-1030.16)).abs() < PMT_CENT, "got {got}");
}

#[test]
fn type1_is_type0_over_one_plus_rate() {
    let rate = 0.08 / 12.0;
    let t0 = pmt_as_num(eval_direct(
        pmt_eval,
        vec![scalar(num(rate)), scalar(num(10.0)), scalar(num(10000.0))],
    ));
    let t1 = pmt_as_num(eval_direct(
        pmt_eval,
        vec![
            scalar(num(rate)),
            scalar(num(10.0)),
            scalar(num(10000.0)),
            scalar(num(0.0)),
            scalar(num(1.0)),
        ],
    ));
    assert!(
        t1 > t0,
        "beginning-of-period payment is smaller in magnitude"
    );
    assert!((t1 * (1.0 + rate) - t0).abs() < PMT_TIGHT, "t0 {t0}, t1 {t1}");
}

#[test]
fn ms_example_with_future_value() {
    let got = pmt_as_num(eval_direct(
        pmt_eval,
        vec![
            scalar(num(0.06 / 12.0)),
            scalar(num(216.0)),
            scalar(num(0.0)),
            scalar(num(50000.0)),
        ],
    ));
    assert!((got - (-129.08)).abs() < PMT_CENT, "got {got}");
}

#[test]
fn func_pmt_rate_zero_is_exact_straight_line() {
    assert_eq!(
        eval_direct(
            pmt_eval,
            vec![scalar(num(0.0)), scalar(num(10.0)), scalar(num(1000.0))],
        ),
        num(-100.0)
    );

    assert_eq!(
        eval_direct(
            pmt_eval,
            vec![
                scalar(num(0.0)),
                scalar(num(10.0)),
                scalar(num(1000.0)),
                scalar(num(500.0)),
            ],
        ),
        num(-150.0)
    );
}

#[test]
fn sign_flips_with_pv_sign() {
    let got = pmt_as_num(eval_direct(
        pmt_eval,
        vec![scalar(num(0.05)), scalar(num(12.0)), scalar(num(-10000.0))],
    ));
    assert!(got > 0.0, "negative pv → positive payment, got {got}");
}

#[test]
fn func_pmt_numeric_text_and_logical_coerce() {
    let got = pmt_as_num(eval_direct(
        pmt_eval,
        vec![scalar(num(0.0)), scalar(num(10.0)), scalar(txt("1000"))],
    ));
    assert!((got - (-100.0)).abs() < PMT_TIGHT, "got {got}");

    let with_bool_type = pmt_as_num(eval_direct(
        pmt_eval,
        vec![
            scalar(num(0.08 / 12.0)),
            scalar(num(10.0)),
            scalar(num(10000.0)),
            scalar(num(0.0)),
            scalar(Value::Bool(true)),
        ],
    ));
    assert!(
        (with_bool_type - (-1030.16)).abs() < PMT_CENT,
        "got {with_bool_type}"
    );
}

#[test]
fn func_pmt_arg_error_propagates() {
    assert_eq!(
        eval_direct(
            pmt_eval,
            vec![
                scalar(Value::Error(ErrorKind::Div0)),
                scalar(num(10.0)),
                scalar(num(10000.0)),
            ],
        ),
        Value::Error(ErrorKind::Div0)
    );

    assert_eq!(
        eval_direct(
            pmt_eval,
            vec![scalar(num(0.05)), scalar(num(10.0)), scalar(txt("abc"))],
        ),
        Value::Error(ErrorKind::Value)
    );
}

#[test]
fn func_pmt_type_nonzero_collapses_to_one_oxp_118() {
    let got = pmt_as_num(eval_direct(
        pmt_eval,
        vec![
            scalar(num(0.05)),
            scalar(num(10.0)),
            scalar(num(10000.0)),
            scalar(num(0.0)),
            scalar(num(2.0)),
        ],
    ));
    assert!(
        (got - (-1233.3769044329204)).abs() < PMT_TIGHT,
        "got {got}, want -1233.3769044329204"
    );

    let t1 = pmt_as_num(eval_direct(
        pmt_eval,
        vec![
            scalar(num(0.05)),
            scalar(num(10.0)),
            scalar(num(10000.0)),
            scalar(num(0.0)),
            scalar(num(1.0)),
        ],
    ));
    assert!((got - t1).abs() < PMT_TIGHT, "type 2 must equal type 1");
}

#[test]
fn nper_zero_is_num_oxp_119() {
    assert_eq!(
        eval_direct(
            pmt_eval,
            vec![scalar(num(0.05)), scalar(num(0.0)), scalar(num(10000.0))],
        ),
        Value::Error(ErrorKind::Num)
    );

    assert_eq!(
        eval_direct(
            pmt_eval,
            vec![scalar(num(0.0)), scalar(num(0.0)), scalar(num(10000.0))],
        ),
        Value::Error(ErrorKind::Num)
    );
}

#[test]
fn rate_minus_one_type_one_is_num_oxp_119() {
    assert_eq!(
        eval_direct(
            pmt_eval,
            vec![
                scalar(num(-1.0)),
                scalar(num(10.0)),
                scalar(num(0.0)),
                scalar(num(500.0)),
                scalar(num(1.0)),
            ],
        ),
        Value::Error(ErrorKind::Num)
    );
}

// PPMT.

fn ppmt_as_num(v: Value) -> f64 {
    match v {
        Value::Number(n) => double(n),
        other => panic!("expected a number, got {other:?}"),
    }
}

const PPMT_TOL: f64 = 1e-6;

#[test]
fn func_ppmt_ms_example_first_month() {
    let got = ppmt_as_num(eval_direct(
        ppmt_eval,
        vec![
            scalar(num(0.1 / 12.0)),
            scalar(num(1.0)),
            scalar(num(24.0)),
            scalar(num(2000.0)),
        ],
    ));
    assert!((got - (-75.62)).abs() < 5e-3, "got {got}, want -75.62");
}

#[test]
fn ms_example_last_year() {
    let got = ppmt_as_num(eval_direct(
        ppmt_eval,
        vec![
            scalar(num(0.08)),
            scalar(num(10.0)),
            scalar(num(10.0)),
            scalar(num(200000.0)),
        ],
    ));
    assert!(
        (got - (-27598.05)).abs() < 5e-3,
        "got {got}, want -27598.05"
    );
}

#[test]
fn ppmt_plus_ipmt_equals_pmt_and_sums_to_principal() {
    let ppmt1 = ppmt_as_num(eval_direct(
        ppmt_eval,
        vec![
            scalar(num(0.1)),
            scalar(num(1.0)),
            scalar(num(2.0)),
            scalar(num(2000.0)),
        ],
    ));
    let ppmt2 = ppmt_as_num(eval_direct(
        ppmt_eval,
        vec![
            scalar(num(0.1)),
            scalar(num(2.0)),
            scalar(num(2.0)),
            scalar(num(2000.0)),
        ],
    ));
    assert!((ppmt1 - (-952.3809523809524)).abs() < PPMT_TOL, "ppmt1 {ppmt1}");
    assert!((ppmt2 - (-1047.6190476190477)).abs() < PPMT_TOL, "ppmt2 {ppmt2}");
    assert!(
        (ppmt1 + ppmt2 - (-2000.0)).abs() < 1e-6,
        "sum {}",
        ppmt1 + ppmt2
    );
}

#[test]
fn rate_zero_is_straight_line_all_principal() {
    for per in 1..=12 {
        let got = ppmt_as_num(eval_direct(
            ppmt_eval,
            vec![
                scalar(num(0.0)),
                scalar(num(per as f64)),
                scalar(num(12.0)),
                scalar(num(1200.0)),
            ],
        ));
        assert!((got - (-100.0)).abs() < PPMT_TOL, "per {per}: got {got}");
    }
}

#[test]
fn fv_and_default_fv_agree() {
    let with = eval_direct(
        ppmt_eval,
        vec![
            scalar(num(0.08)),
            scalar(num(10.0)),
            scalar(num(10.0)),
            scalar(num(200000.0)),
            scalar(num(0.0)),
        ],
    );
    let without = eval_direct(
        ppmt_eval,
        vec![
            scalar(num(0.08)),
            scalar(num(10.0)),
            scalar(num(10.0)),
            scalar(num(200000.0)),
        ],
    );
    assert_eq!(with, without);
}

#[test]
fn per_below_one_is_num() {
    assert_eq!(
        eval_direct(
            ppmt_eval,
            vec![
                scalar(num(0.1)),
                scalar(num(0.0)),
                scalar(num(12.0)),
                scalar(num(2000.0)),
            ]
        ),
        Value::Error(ErrorKind::Num)
    );
}

#[test]
fn func_ppmt_per_above_nper_is_num() {
    assert_eq!(
        eval_direct(
            ppmt_eval,
            vec![
                scalar(num(0.1)),
                scalar(num(13.0)),
                scalar(num(12.0)),
                scalar(num(2000.0)),
            ]
        ),
        Value::Error(ErrorKind::Num)
    );
}

#[test]
fn annuity_due_split_oxp_128() {
    let h1 = ppmt_as_num(eval_direct(
        ppmt_eval,
        vec![
            scalar(num(0.1)),
            scalar(num(1.0)),
            scalar(num(12.0)),
            scalar(num(1000.0)),
            scalar(num(0.0)),
            scalar(num(1.0)),
        ],
    ));
    assert!(
        (h1 - (-133.42119554571576)).abs() < PPMT_TOL,
        "h1 {h1}, want -133.42119554571576"
    );
    let h2 = ppmt_as_num(eval_direct(
        ppmt_eval,
        vec![
            scalar(num(0.1)),
            scalar(num(2.0)),
            scalar(num(12.0)),
            scalar(num(1000.0)),
            scalar(num(0.0)),
            scalar(num(1.0)),
        ],
    ));
    assert!(
        (h2 - (-46.76331510028732)).abs() < PPMT_TOL,
        "h2 {h2}, want -46.76331510028732"
    );
}

#[test]
fn type_nonzero_collapses_to_one_oxp_128() {
    let type2 = ppmt_as_num(eval_direct(
        ppmt_eval,
        vec![
            scalar(num(0.1)),
            scalar(num(1.0)),
            scalar(num(12.0)),
            scalar(num(1000.0)),
            scalar(num(0.0)),
            scalar(num(2.0)),
        ],
    ));
    assert!(
        (type2 - (-133.42119554571576)).abs() < PPMT_TOL,
        "type 2 must equal type 1, got {type2}"
    );
}

#[test]
fn fractional_per_end_of_period_oxp_129() {
    let h1 = ppmt_as_num(eval_direct(
        ppmt_eval,
        vec![
            scalar(num(0.1)),
            scalar(num(1.5)),
            scalar(num(12.0)),
            scalar(num(1000.0)),
        ],
    ));
    assert!(
        (h1 - (-49.0457786469502)).abs() < PPMT_TOL,
        "h1 {h1}, want -49.0457786469502"
    );
    let h2 = ppmt_as_num(eval_direct(
        ppmt_eval,
        vec![
            scalar(num(0.1)),
            scalar(num(2.5)),
            scalar(num(12.0)),
            scalar(num(1000.0)),
        ],
    ));
    assert!(
        (h2 - (-53.95035651164522)).abs() < PPMT_TOL,
        "h2 {h2}, want -53.95035651164522"
    );
}

#[test]
fn rate_minus_one_is_num_oxp_149() {
    for per in [1.0, 2.0] {
        assert_eq!(
            eval_direct(
                ppmt_eval,
                vec![
                    scalar(num(-1.0)),
                    scalar(num(per)),
                    scalar(num(12.0)),
                    scalar(num(1000.0)),
                ]
            ),
            Value::Error(ErrorKind::Num),
            "per {per}"
        );
    }
}

#[test]
fn func_ppmt_fractional_per_annuity_due_is_unsupported() {
    assert_eq!(
        eval_direct(
            ppmt_eval,
            vec![
                scalar(num(0.1)),
                scalar(num(1.5)),
                scalar(num(12.0)),
                scalar(num(2000.0)),
                scalar(num(0.0)),
                scalar(num(1.0)),
            ]
        ),
        Value::Error(ErrorKind::Unsupported)
    );
}

#[test]
fn argument_error_propagates() {
    assert_eq!(
        eval_direct(
            ppmt_eval,
            vec![
                scalar(num(0.1)),
                scalar(num(1.0)),
                scalar(num(12.0)),
                scalar(Value::Error(ErrorKind::Div0)),
            ]
        ),
        Value::Error(ErrorKind::Div0)
    );
}

// PV.

fn pv_as_num(v: Value) -> f64 {
    match v {
        Value::Number(n) => double(n),
        other => panic!("expected a number, got {other:?}"),
    }
}

const PV_CENT: f64 = 0.005;
const PV_TIGHT: f64 = 1e-9;
const PV_TOL: f64 = 1e-6;

#[test]
fn func_pv_canonical_ms_example() {
    let got = pv_as_num(eval_direct(
        pv_eval,
        vec![
            scalar(num(0.08 / 12.0)),
            scalar(num(240.0)),
            scalar(num(500.0)),
        ],
    ));
    assert!((got - (-59777.15)).abs() < PV_CENT, "got {got}");
    assert!(got < 0.0, "positive payment → negative PV, got {got}");
}

#[test]
fn func_pv_rate_zero_is_exact_straight_line() {
    assert_eq!(
        eval_direct(
            pv_eval,
            vec![scalar(num(0.0)), scalar(num(10.0)), scalar(num(100.0))],
        ),
        num(-1000.0)
    );

    assert_eq!(
        eval_direct(
            pv_eval,
            vec![
                scalar(num(0.0)),
                scalar(num(10.0)),
                scalar(num(100.0)),
                scalar(num(50.0)),
            ],
        ),
        num(-1050.0)
    );
}

#[test]
fn func_pv_type1_is_type0_times_one_plus_rate() {
    let rate = 0.05;
    let t0 = pv_as_num(eval_direct(
        pv_eval,
        vec![
            scalar(num(rate)),
            scalar(num(10.0)),
            scalar(num(100.0)),
            scalar(num(0.0)),
            scalar(num(0.0)),
        ],
    ));
    let t1 = pv_as_num(eval_direct(
        pv_eval,
        vec![
            scalar(num(rate)),
            scalar(num(10.0)),
            scalar(num(100.0)),
            scalar(num(0.0)),
            scalar(num(1.0)),
        ],
    ));
    assert!((t1 - t0 * (1.0 + rate)).abs() < PV_TIGHT, "t0 {t0}, t1 {t1}");
}

#[test]
fn func_pv_type_nonzero_collapses_to_one_oxp_118() {
    let t2 = eval_direct(
        pv_eval,
        vec![
            scalar(num(0.05)),
            scalar(num(10.0)),
            scalar(num(100.0)),
            scalar(num(0.0)),
            scalar(num(2.0)),
        ],
    );
    let t1 = eval_direct(
        pv_eval,
        vec![
            scalar(num(0.05)),
            scalar(num(10.0)),
            scalar(num(100.0)),
            scalar(num(0.0)),
            scalar(num(1.0)),
        ],
    );
    assert_eq!(t2, t1, "nonzero type must collapse to type == 1");
}

#[test]
fn pv_is_the_inverse_of_fv() {
    let (rate, nper, pmt, fv, ty) = (0.05, 12.0, -250.0, 1000.0, 0.0);
    let pv = pv_as_num(eval_direct(
        pv_eval,
        vec![
            scalar(num(rate)),
            scalar(num(nper)),
            scalar(num(pmt)),
            scalar(num(fv)),
            scalar(num(ty)),
        ],
    ));
    let recovered = pv_as_num(eval_direct(
        fv_eval,
        vec![
            scalar(num(rate)),
            scalar(num(nper)),
            scalar(num(pmt)),
            scalar(num(pv)),
            scalar(num(ty)),
        ],
    ));
    assert!(
        (recovered - fv).abs() < PV_TOL,
        "recovered {recovered}, want {fv}"
    );
}

#[test]
fn func_pv_sign_flips_with_pmt_sign() {
    let got = pv_as_num(eval_direct(
        pv_eval,
        vec![scalar(num(0.05)), scalar(num(12.0)), scalar(num(-250.0))],
    ));
    assert!(got > 0.0, "negative payment → positive PV, got {got}");
}

#[test]
fn func_pv_numeric_text_and_logical_coerce() {
    let got = pv_as_num(eval_direct(
        pv_eval,
        vec![scalar(num(0.0)), scalar(num(10.0)), scalar(txt("100"))],
    ));
    assert!((got - (-1000.0)).abs() < PV_TIGHT, "got {got}");

    let with_bool = eval_direct(
        pv_eval,
        vec![
            scalar(num(0.05)),
            scalar(num(10.0)),
            scalar(num(100.0)),
            scalar(num(0.0)),
            scalar(Value::Bool(true)),
        ],
    );
    let with_one = eval_direct(
        pv_eval,
        vec![
            scalar(num(0.05)),
            scalar(num(10.0)),
            scalar(num(100.0)),
            scalar(num(0.0)),
            scalar(num(1.0)),
        ],
    );
    assert_eq!(with_bool, with_one, "TRUE type must equal type == 1");
}

#[test]
fn func_pv_arg_error_propagates() {
    assert_eq!(
        eval_direct(
            pv_eval,
            vec![
                scalar(Value::Error(ErrorKind::Div0)),
                scalar(num(10.0)),
                scalar(num(100.0)),
            ],
        ),
        Value::Error(ErrorKind::Div0)
    );

    assert_eq!(
        eval_direct(
            pv_eval,
            vec![scalar(num(0.05)), scalar(num(10.0)), scalar(txt("abc"))],
        ),
        Value::Error(ErrorKind::Value)
    );
}
