//! Functions of mathematics, with the formulas that their terms stand for.

use xl_fn::{
    Arg, ArgShape, Array, Call, CallArgs, Criterion, DateSystem, ErrorKind, EvalContext,
    Number, RefRect, Relation, Standing, Text, Value, ValueModel, func_floor, func_ln,
    func_log, func_mod, func_normdist, func_norminv, func_normsinv, func_pi, func_power,
    func_quotient, func_randarray,
};

const POISON: u64 = u64::MAX;

fn number(x: f64) -> Option<Number> {
    Number::from_bits(x.to_bits())
}

fn num(x: f64) -> Value {
    Value::number(number(x))
}

fn txt(s: &str) -> Value {
    Value::text(s)
}

fn double(n: Number) -> f64 {
    f64::from_bits(n.to_bits())
}

fn string(t: &Text) -> String {
    t.chars().iter().collect()
}

fn scalar(v: Value) -> Arg {
    Arg::Scalar(v)
}

fn block(rows: usize, cols: usize, data: Vec<Value>) -> Array {
    Array::new(rows, cols, data).unwrap()
}

fn range(data: Vec<Value>) -> Arg {
    Arg::Range(block(data.len(), 1, data))
}

/// A call over evaluated arguments that panics where a poisoned one is evaluated.
struct Strict {
    call: Call,
}

impl Strict {
    fn check(&self, i: usize) {
        if let Some(Arg::Scalar(Value::Lambda(POISON))) = self.call.args.get(i) {
            panic!("argument {i} must not be evaluated");
        }
    }
}

impl CallArgs for Strict {
    fn count(&self) -> usize {
        self.call.count()
    }

    fn shape(&self, i: usize) -> ArgShape {
        self.call.shape(i)
    }

    fn is_reference(&self, i: usize) -> bool {
        self.call.is_reference(i)
    }

    fn array_arg_ctx(&self) -> bool {
        self.call.array_arg_ctx()
    }

    fn eval_scalar(&self, i: usize) -> Value {
        self.check(i);
        self.call.eval_scalar(i)
    }

    fn eval_scalar_array_arg(&self, i: usize) -> Value {
        self.check(i);
        self.call.eval_scalar_array_arg(i)
    }

    fn cells(&self, i: usize) -> Vec<Value> {
        self.check(i);
        self.call.cells(i)
    }

    fn rows(&self, i: usize) -> Result<Vec<Vec<Value>>, ErrorKind> {
        self.check(i);
        self.call.rows(i)
    }

    fn used_rows(&self, i: usize) -> Result<Vec<(u32, Vec<Value>)>, ErrorKind> {
        self.check(i);
        self.call.used_rows(i)
    }

    fn used_cols(&self, i: usize) -> Result<Vec<(u32, Vec<Value>)>, ErrorKind> {
        self.check(i);
        self.call.used_cols(i)
    }

    fn arg_ref_extent(&self, i: usize) -> Option<RefRect> {
        self.call.arg_ref_extent(i)
    }

    fn cell_at(&self, i: usize, row: u32, col: u32) -> Option<Value> {
        self.check(i);
        self.call.cell_at(i, row, col)
    }
}

/// The values in an argument.
fn values_of(arg: &Arg) -> Vec<Value> {
    match arg {
        Arg::Omitted => Vec::new(),
        Arg::Scalar(v) | Arg::CellRef(v) => vec![v.duplicate()],
        Arg::Range(a) | Arg::Constant(a) => a.data().iter().map(|v| v.duplicate()).collect(),
        Arg::Unbounded(vs) => vs.iter().map(|v| v.duplicate()).collect(),
        Arg::UsedRows(lines) | Arg::UsedCols(lines) => {
            lines.iter().flat_map(|(_, vs)| vs.iter().map(|v| v.duplicate())).collect()
        }
        Arg::RefCells(_, cells) => cells.iter().map(|(_, _, v)| v.duplicate()).collect(),
    }
}

/// The number that a text reads as in the model of these tests.
fn reading(s: &str) -> Option<f64> {
    s.trim().parse::<f64>().ok().filter(|x| x.is_finite())
}

/// How the model of these tests orders two values.
fn standing(a: &Value, b: &Value) -> Result<Standing, ErrorKind> {
    let kind = |v: &Value| match v {
        Value::Number(_) => Ok(0),
        Value::Text(_) => Ok(1),
        Value::Bool(_) => Ok(2),
        Value::Error(k) => Err(*k),
        _ => Err(ErrorKind::Unsupported),
    };
    let (left, right) = (kind(a)?, kind(b)?);
    let ordering = match (a, b) {
        (Value::Number(x), Value::Number(y)) => double(*x).partial_cmp(&double(*y)).unwrap(),
        (Value::Text(x), Value::Text(y)) => string(x).to_lowercase().cmp(&string(y).to_lowercase()),
        (Value::Bool(x), Value::Bool(y)) => x.cmp(y),
        _ => left.cmp(&right),
    };
    Ok(match ordering {
        std::cmp::Ordering::Less => Standing::Below,
        std::cmp::Ordering::Equal => Standing::Level,
        std::cmp::Ordering::Greater => Standing::Above,
    })
}

/// The facts of the model of these tests for the values of a call.
fn facts(args: &[Arg]) -> ValueModel {
    let all: Vec<Value> = args.iter().flat_map(values_of).collect();
    let mut model = ValueModel {
        readings: Vec::new(),
        renderings: Vec::new(),
        relations: Vec::new(),
        criteria: criteria(args, &all),
    };
    for v in &all {
        if let Value::Text(t) = v {
            if let Some(n) = reading(&string(t)).and_then(number) {
                model.readings.push((t.duplicate(), n));
            }
        }
        if let Value::Number(n) = v {
            model.renderings.push((*n, Text::new(&format!("{}", double(*n)))));
        }
        for key in args {
            if let Arg::Scalar(key) = key {
                let order = standing(v, key);
                model.relations.push(Relation {
                    left: v.duplicate(),
                    right: key.duplicate(),
                    order,
                    equal: order.map(|s| s == Standing::Level),
                });
            }
        }
    }
    model
}

fn context(args: &[Arg]) -> EvalContext {
    EvalContext { model: facts(args), date_system: DateSystem::From1900, spill_cap: 1000 }
}

fn eval_direct<T>(f: fn(&EvalContext, &Strict) -> T, args: Vec<Arg>) -> T {
    let ctx = context(&args);
    f(&ctx, &Strict { call: Call { args, array_context: false } })
}

/// No criteria occur in these tests.
fn criteria(_args: &[Arg], _all: &[Value]) -> Vec<Criterion> {
    Vec::new()
}

/// The value brought to fifteen significant digits.
fn fifteen_digits(v: f64) -> f64 {
    if v == 0.0 {
        return 0.0;
    }
    format!("{v:.14e}").parse().unwrap()
}

fn floor_eval(ctx: &EvalContext, args: &Strict) -> Value {
    match func_floor::terms(ctx, args) {
        Err(k) => Value::Error(k),
        Ok(func_floor::Terms::Zero) => num(0.0),
        Ok(func_floor::Terms::Steps { number, significance }) => {
            let (number, significance) = (double(number), double(significance));
            num(fifteen_digits(number / significance).floor() * significance)
        }
    }
}

fn ln_eval(ctx: &EvalContext, args: &Strict) -> Value {
    match func_ln::terms(ctx, args) {
        Err(k) => Value::Error(k),
        Ok(n) => num(double(n).ln()),
    }
}

fn log_eval(ctx: &EvalContext, args: &Strict) -> Value {
    match func_log::terms(ctx, args) {
        Err(k) => Value::Error(k),
        Ok(func_log::Terms::Decimal { number }) => num(double(number).log10()),
        Ok(func_log::Terms::Binary { number }) => num(double(number).log2()),
        Ok(func_log::Terms::Based { number, base }) => num(double(number).log(double(base))),
    }
}

fn mod_eval(ctx: &EvalContext, args: &Strict) -> Value {
    match func_mod::terms(ctx, args) {
        Err(k) => Value::Error(k),
        Ok(t) => {
            let (number, divisor) = (double(t.number), double(t.divisor));
            num(number - divisor * (number / divisor).floor())
        }
    }
}

fn power_eval(ctx: &EvalContext, args: &Strict) -> Value {
    match func_power::terms(ctx, args) {
        Err(k) => Value::Error(k),
        Ok(t) => num(double(t.base).powf(double(t.exponent))),
    }
}

fn quotient_eval(ctx: &EvalContext, args: &Strict) -> Value {
    match func_quotient::terms(ctx, args) {
        Err(k) => Value::Error(k),
        Ok(t) => num((double(t.numerator) / double(t.denominator)).trunc()),
    }
}

/// A polynomial at `x`, from the coefficient of its highest power down.
fn polynomial(coefficients: &[f64], x: f64) -> f64 {
    coefficients.iter().fold(0.0, |sum, c| sum * x + c)
}

/// A quotient of two polynomials of the seventh degree.
struct Rational {
    top: [f64; 8],
    bottom: [f64; 8],
}

impl Rational {
    fn at(&self, x: f64) -> f64 {
        polynomial(&self.top, x) / polynomial(&self.bottom, x)
    }
}

#[allow(clippy::excessive_precision)]
const CENTRE: Rational = Rational {
    top: [
        2.5090809287301226727e3,
        3.3430575583588128105e4,
        6.7265770927008700853e4,
        4.5921953931549871457e4,
        1.3731693765509461125e4,
        1.9715909503065514427e3,
        1.3314166789178437745e2,
        3.3871328727963666080e0,
    ],
    bottom: [
        5.2264952788528545610e3,
        2.8729085735721942674e4,
        3.9307895800092710610e4,
        2.1213794301586595867e4,
        5.3941960214247511077e3,
        6.8718700749205790830e2,
        4.2313330701600911252e1,
        1.0,
    ],
};

#[allow(clippy::excessive_precision)]
const TAIL: Rational = Rational {
    top: [
        7.74545014278341407640e-4,
        2.27238449892691845833e-2,
        2.41780725177450611770e-1,
        1.27045825245236838258e0,
        3.64784832476320460504e0,
        5.76949722146069140550e0,
        4.63033784615654529590e0,
        1.42343711074968357734e0,
    ],
    bottom: [
        1.05075007164441684324e-9,
        5.47593808499534494600e-4,
        1.51986665636164571966e-2,
        1.48103976427480074590e-1,
        6.89767334985100004550e-1,
        1.67638483018380384940e0,
        2.05319162663775882187e0,
        1.0,
    ],
};

#[allow(clippy::excessive_precision)]
const FAR_TAIL: Rational = Rational {
    top: [
        2.01033439929228813265e-7,
        2.71155556874348757815e-5,
        1.24266094738807843860e-3,
        2.65321895265761230930e-2,
        2.96560571828504891230e-1,
        1.78482653991729133580e0,
        5.46378491116411436990e0,
        6.65790464350110377720e0,
    ],
    bottom: [
        2.04426310338993978564e-15,
        1.42151175831644588870e-7,
        1.84631831751005468180e-5,
        7.86869131145613259100e-4,
        1.48753612908506148525e-2,
        1.36929880922735805310e-1,
        5.99832206555887937690e-1,
        1.0,
    ],
};

/// The quantile of the standard normal distribution at a probability between zero
/// and one, by Wichura's algorithm AS 241.
fn quantile(p: f64) -> f64 {
    let q = p - 0.5;
    if q.abs() <= 0.425 {
        return q * CENTRE.at(0.180625 - q * q);
    }
    let r = (-(if q < 0.0 { p } else { 1.0 - p }).ln()).sqrt();
    let size = if r <= 5.0 { TAIL.at(r - 1.6) } else { FAR_TAIL.at(r - 5.0) };
    if q < 0.0 {
        -size
    } else {
        size
    }
}

/// The complementary error function, by the series of the error function.
fn erfc(x: f64) -> f64 {
    let (mut term, mut sum) = (x, x);
    for n in 1..60 {
        term *= -x * x / n as f64;
        sum += term / (2 * n + 1) as f64;
    }
    1.0 - sum * 2.0 / std::f64::consts::PI.sqrt()
}

fn normdist_eval(ctx: &EvalContext, args: &Strict) -> Value {
    match func_normdist::terms(ctx, args) {
        Err(k) => Value::Error(k),
        Ok(t) => {
            let deviation = double(t.standard_dev);
            let z = (double(t.x) - double(t.mean)) / deviation;
            num(if t.cumulative {
                0.5 * erfc(-z / std::f64::consts::SQRT_2)
            } else {
                (-0.5 * z * z).exp() / (deviation * std::f64::consts::TAU.sqrt())
            })
        }
    }
}

fn norminv_eval(ctx: &EvalContext, args: &Strict) -> Value {
    match func_norminv::terms(ctx, args) {
        Err(k) => Value::Error(k),
        Ok(t) => num(double(t.mean) + double(t.standard_dev) * quantile(double(t.probability))),
    }
}

fn normsinv_eval(ctx: &EvalContext, args: &Strict) -> Value {
    match func_normsinv::terms(ctx, args) {
        Err(k) => Value::Error(k),
        Ok(p) => num(quantile(double(p))),
    }
}

// FLOOR.

fn floor_assert_close(got: Value, want: f64) {
    match got {
        Value::Number(n) => {
            let n = double(n);
            let rel = if want == 0.0 {
                n.abs()
            } else {
                ((n - want) / want).abs()
            };
            assert!(rel < 1e-13, "got {n}, want {want} (rel {rel:e})");
        }
        other => panic!("expected a Number, got {other:?}"),
    }
}

#[test]
fn positive_core_integer_significance() {
    assert_eq!(
        eval_direct(floor_eval, vec![scalar(num(3.7)), scalar(num(2.0))]),
        num(2.0)
    );
    assert_eq!(
        eval_direct(floor_eval, vec![scalar(num(3.7)), scalar(num(1.0))]),
        num(3.0)
    );
    assert_eq!(
        eval_direct(floor_eval, vec![scalar(num(2.5)), scalar(num(3.0))]),
        num(0.0)
    );

    assert_eq!(
        eval_direct(floor_eval, vec![scalar(num(6.0)), scalar(num(2.0))]),
        num(6.0)
    );
}

#[test]
fn positive_core_fractional_significance() {
    floor_assert_close(
        eval_direct(floor_eval, vec![scalar(num(1.58)), scalar(num(0.1))]),
        1.5,
    );
    floor_assert_close(
        eval_direct(floor_eval, vec![scalar(num(0.234)), scalar(num(0.01))]),
        0.23,
    );
    floor_assert_close(
        eval_direct(floor_eval, vec![scalar(num(2.6)), scalar(num(0.2))]),
        2.6,
    );
}

#[test]
fn zero_number() {
    assert_eq!(
        eval_direct(floor_eval, vec![scalar(num(0.0)), scalar(num(0.1))]),
        num(0.0)
    );
}

#[test]
fn negative_number_sign_rule() {
    assert_eq!(
        eval_direct(floor_eval, vec![scalar(num(-2.5)), scalar(num(2.0))]),
        num(-4.0)
    );

    assert_eq!(
        eval_direct(floor_eval, vec![scalar(num(-2.5)), scalar(num(-2.0))]),
        num(-2.0)
    );

    floor_assert_close(
        eval_direct(floor_eval, vec![scalar(num(-2.5)), scalar(num(-0.5))]),
        -2.5,
    );
}

#[test]
fn significance_zero_and_sign_mismatch() {
    assert_eq!(
        eval_direct(floor_eval, vec![scalar(num(2.5)), scalar(num(0.0))]),
        Value::Error(ErrorKind::Div0)
    );

    assert_eq!(
        eval_direct(floor_eval, vec![scalar(num(0.0)), scalar(num(0.0))]),
        num(0.0)
    );

    assert_eq!(
        eval_direct(floor_eval, vec![scalar(num(2.5)), scalar(num(-2.0))]),
        Value::Error(ErrorKind::Num)
    );
}

#[test]
fn coercion_and_errors() {
    assert_eq!(
        eval_direct(floor_eval, vec![scalar(txt("3.7")), scalar(num(2.0))]),
        num(2.0)
    );

    assert_eq!(
        eval_direct(floor_eval, vec![scalar(txt("x")), scalar(num(2.0))]),
        Value::Error(ErrorKind::Value)
    );

    assert_eq!(
        eval_direct(
            floor_eval,
            vec![scalar(Value::Error(ErrorKind::Div0)), scalar(num(2.0))]
        ),
        Value::Error(ErrorKind::Div0)
    );
    assert_eq!(
        eval_direct(
            floor_eval,
            vec![scalar(num(3.7)), scalar(Value::Error(ErrorKind::Ref))]
        ),
        Value::Error(ErrorKind::Ref)
    );
}

// LN.

#[test]
fn ln_of_one_is_zero() {
    assert_eq!(eval_direct(ln_eval, vec![scalar(num(1.0))]), num(0.0));
    assert_eq!(eval_direct(ln_eval, vec![scalar(txt("1"))]), num(0.0));
}

#[test]
fn ln_of_e_is_one() {
    assert_eq!(
        eval_direct(ln_eval, vec![scalar(num(std::f64::consts::E))]),
        num(1.0)
    );
}

#[test]
fn nonpositive_is_num_error() {
    assert_eq!(
        eval_direct(ln_eval, vec![scalar(num(0.0))]),
        Value::Error(ErrorKind::Num)
    );
    assert_eq!(
        eval_direct(ln_eval, vec![scalar(num(-2.0))]),
        Value::Error(ErrorKind::Num)
    );
}

#[test]
fn func_ln_error_argument_propagates() {
    assert_eq!(
        eval_direct(ln_eval, vec![scalar(Value::Error(ErrorKind::Value))]),
        Value::Error(ErrorKind::Value)
    );
}

// LOG.

#[test]
fn default_base_ten() {
    assert_eq!(eval_direct(log_eval, vec![scalar(num(100.0))]), num(2.0));
    assert_eq!(eval_direct(log_eval, vec![scalar(num(1000.0))]), num(3.0));
    assert_eq!(eval_direct(log_eval, vec![scalar(num(1.0))]), num(0.0));
}

#[test]
fn explicit_base() {
    assert_eq!(
        eval_direct(log_eval, vec![scalar(num(8.0)), scalar(num(2.0))]),
        num(3.0)
    );
    assert_eq!(
        eval_direct(log_eval, vec![scalar(num(100.0)), scalar(num(10.0))]),
        num(2.0)
    );
}

#[test]
fn fractional_base_is_served() {
    assert_eq!(
        eval_direct(log_eval, vec![scalar(num(8.0)), scalar(num(0.5))]),
        num(8.0_f64.log(0.5))
    );
}

#[test]
fn nonpositive_number_is_num_error() {
    assert_eq!(
        eval_direct(log_eval, vec![scalar(num(0.0))]),
        Value::Error(ErrorKind::Num)
    );
    assert_eq!(
        eval_direct(log_eval, vec![scalar(num(-5.0))]),
        Value::Error(ErrorKind::Num)
    );
}

#[test]
fn degenerate_base_error_kinds_oxp224() {
    assert_eq!(
        eval_direct(log_eval, vec![scalar(num(10.0)), scalar(num(1.0))]),
        Value::Error(ErrorKind::Div0)
    );
    assert_eq!(
        eval_direct(log_eval, vec![scalar(num(10.0)), scalar(num(0.0))]),
        Value::Error(ErrorKind::Num)
    );
    assert_eq!(
        eval_direct(log_eval, vec![scalar(num(10.0)), scalar(num(-2.0))]),
        Value::Error(ErrorKind::Num)
    );
}

#[test]
fn coercion_and_error_propagation() {
    assert_eq!(eval_direct(log_eval, vec![scalar(txt("100"))]), num(2.0));

    assert_eq!(
        eval_direct(log_eval, vec![scalar(txt("x"))]),
        Value::Error(ErrorKind::Value)
    );

    assert_eq!(
        eval_direct(log_eval, vec![scalar(Value::Error(ErrorKind::Div0))]),
        Value::Error(ErrorKind::Div0)
    );
    assert_eq!(
        eval_direct(
            log_eval,
            vec![scalar(num(8.0)), scalar(Value::Error(ErrorKind::Ref))]
        ),
        Value::Error(ErrorKind::Ref)
    );
}

// NORMDIST.

fn normdist_call(x: f64, mean: f64, sd: f64, cum: Value) -> Value {
    eval_direct(
        normdist_eval,
        vec![
            scalar(num(x)),
            scalar(num(mean)),
            scalar(num(sd)),
            scalar(cum),
        ],
    )
}

fn normdist_assert_close(got: Value, want: f64) {
    match got {
        Value::Number(n) => {
            let n = double(n);
            let rel = (n - want).abs() / want.abs().max(1e-300);
            assert!(rel < 1e-13, "got {n}, want {want} (rel {rel:e})");
        }
        other => panic!("expected Number, got {other:?}"),
    }
}

#[test]
fn standard_normal_cdf_reference_values() {
    normdist_assert_close(normdist_call(0.0, 0.0, 1.0, Value::Bool(true)), 0.5);
    normdist_assert_close(normdist_call(1.0, 0.0, 1.0, Value::Bool(true)), 0.8413447460685429);
    normdist_assert_close(normdist_call(-1.0, 0.0, 1.0, Value::Bool(true)), 0.15865525393145707);
    normdist_assert_close(normdist_call(1.96, 0.0, 1.0, Value::Bool(true)), 0.9750021048517795);
}

#[test]
fn general_normal_cdf_reference_value() {
    normdist_assert_close(normdist_call(8.0, 5.0, 2.0, Value::Bool(true)), 0.9331927987311419);
}

#[test]
fn standard_normal_pdf_reference_values() {
    normdist_assert_close(normdist_call(0.0, 0.0, 1.0, Value::Bool(false)), 0.3989422804014327);
    normdist_assert_close(normdist_call(1.0, 0.0, 1.0, Value::Bool(false)), 0.24197072451914337);
}

#[test]
fn general_normal_pdf_reference_value() {
    normdist_assert_close(normdist_call(8.0, 5.0, 2.0, Value::Bool(false)), 0.0647587978329459);
}

#[test]
fn cumulative_coerces_number_and_text() {
    normdist_assert_close(normdist_call(1.0, 0.0, 1.0, num(1.0)), 0.8413447460685429);
    normdist_assert_close(normdist_call(1.0, 0.0, 1.0, num(0.0)), 0.24197072451914337);
    normdist_assert_close(normdist_call(1.0, 0.0, 1.0, txt("TRUE")), 0.8413447460685429);
}

#[test]
fn nonpositive_sd_is_num_error() {
    assert_eq!(
        normdist_call(1.0, 0.0, 0.0, Value::Bool(true)),
        Value::Error(ErrorKind::Num)
    );
    assert_eq!(
        normdist_call(1.0, 0.0, -2.0, Value::Bool(true)),
        Value::Error(ErrorKind::Num)
    );
}

#[test]
fn non_numeric_text_arg_is_value_error() {
    assert_eq!(
        eval_direct(
            normdist_eval,
            vec![
                scalar(txt("nope")),
                scalar(num(0.0)),
                scalar(num(1.0)),
                scalar(Value::Bool(true)),
            ],
        ),
        Value::Error(ErrorKind::Value)
    );
}

#[test]
fn non_logical_cumulative_is_value_error() {
    assert_eq!(
        normdist_call(1.0, 0.0, 1.0, txt("maybe")),
        Value::Error(ErrorKind::Value)
    );
}

#[test]
fn normdist_oxp214_oracle_grid() {
    normdist_assert_close(normdist_call(1.0, 0.0, 1.0, Value::Bool(true)), 0.841344746068543);
    normdist_assert_close(normdist_call(1.0, 0.0, 1.0, Value::Bool(false)), 0.24197072451914337);
    normdist_assert_close(normdist_call(8.0, 5.0, 2.0, Value::Bool(true)), 0.9331927987311419);
    normdist_assert_close(normdist_call(-1.0, 0.0, 1.0, Value::Bool(true)), 0.158655253931457);
    normdist_assert_close(normdist_call(1.96, 0.0, 1.0, Value::Bool(true)), 0.9750021048517795);

    assert_eq!(
        normdist_call(1.0, 0.0, 0.0, txt("x")),
        Value::Error(ErrorKind::Value)
    );
}

#[test]
fn func_normdist_error_argument_propagates() {
    assert_eq!(
        eval_direct(
            normdist_eval,
            vec![
                scalar(Value::Error(ErrorKind::Div0)),
                scalar(num(0.0)),
                scalar(num(1.0)),
                scalar(Value::Bool(true)),
            ],
        ),
        Value::Error(ErrorKind::Div0)
    );
}

// NORMINV.

#[test]
fn median_returns_mean() {
    assert_eq!(
        eval_direct(
            norminv_eval,
            vec![scalar(num(0.5)), scalar(num(100.0)), scalar(num(15.0))]
        ),
        num(100.0)
    );
}

#[test]
fn upper_and_lower_quartile_bits() {
    assert_eq!(
        eval_direct(
            norminv_eval,
            vec![scalar(num(0.975)), scalar(num(100.0)), scalar(num(15.0))]
        ),
        num(129.3994597681008)
    );
    assert_eq!(
        eval_direct(
            norminv_eval,
            vec![scalar(num(0.025)), scalar(num(100.0)), scalar(num(15.0))]
        ),
        num(70.60054023189919)
    );
}

#[test]
fn standard_normal_matches_normsinv() {
    assert_eq!(
        eval_direct(
            norminv_eval,
            vec![scalar(num(0.9)), scalar(num(0.0)), scalar(num(1.0))]
        ),
        num(1.2815515655446006)
    );
}

#[test]
fn zero_standard_deviation_is_num_error() {
    assert_eq!(
        eval_direct(
            norminv_eval,
            vec![scalar(num(0.5)), scalar(num(100.0)), scalar(num(0.0))]
        ),
        Value::Error(ErrorKind::Num)
    );
}

#[test]
fn negative_standard_deviation_is_num_error() {
    assert_eq!(
        eval_direct(
            norminv_eval,
            vec![scalar(num(0.5)), scalar(num(100.0)), scalar(num(-15.0))]
        ),
        Value::Error(ErrorKind::Num)
    );
}

#[test]
fn probability_zero_is_num_error() {
    assert_eq!(
        eval_direct(
            norminv_eval,
            vec![scalar(num(0.0)), scalar(num(100.0)), scalar(num(15.0))]
        ),
        Value::Error(ErrorKind::Num)
    );
}

#[test]
fn probability_one_is_num_error() {
    assert_eq!(
        eval_direct(
            norminv_eval,
            vec![scalar(num(1.0)), scalar(num(100.0)), scalar(num(15.0))]
        ),
        Value::Error(ErrorKind::Num)
    );
}

#[test]
fn arguments_coerce_from_text() {
    assert_eq!(
        eval_direct(
            norminv_eval,
            vec![scalar(txt("0.5")), scalar(txt("100")), scalar(txt("15"))]
        ),
        num(100.0)
    );
}

#[test]
fn func_norminv_non_numeric_text_is_value_error() {
    assert_eq!(
        eval_direct(
            norminv_eval,
            vec![scalar(txt("abc")), scalar(num(0.0)), scalar(num(1.0))]
        ),
        Value::Error(ErrorKind::Value)
    );
}

#[test]
fn func_norminv_error_argument_propagates() {
    assert_eq!(
        eval_direct(
            norminv_eval,
            vec![
                scalar(num(0.5)),
                scalar(Value::Error(ErrorKind::Na)),
                scalar(num(1.0))
            ]
        ),
        Value::Error(ErrorKind::Na)
    );
}

// NORMSINV.

#[test]
fn median_is_zero() {
    assert_eq!(eval_direct(normsinv_eval, vec![scalar(num(0.5))]), num(0.0));
}

#[test]
fn upper_and_lower_975_asymmetric_bits() {
    assert_eq!(
        eval_direct(normsinv_eval, vec![scalar(num(0.975))]),
        num(1.9599639845400536)
    );
    assert_eq!(
        eval_direct(normsinv_eval, vec![scalar(num(0.025))]),
        num(-1.9599639845400538)
    );
}

#[test]
fn ninety_nine_percentile() {
    assert_eq!(
        eval_direct(normsinv_eval, vec![scalar(num(0.99))]),
        num(2.3263478740408408)
    );
}

#[test]
fn lower_tail_thousandth() {
    assert_eq!(
        eval_direct(normsinv_eval, vec![scalar(num(0.001))]),
        num(-3.090232306167813)
    );
}

#[test]
fn far_upper_tail() {
    assert_eq!(
        eval_direct(normsinv_eval, vec![scalar(num(0.999999))]),
        num(4.753424308817089)
    );
}

#[test]
fn central_branch_point_nine() {
    assert_eq!(
        eval_direct(normsinv_eval, vec![scalar(num(0.9))]),
        num(1.2815515655446006)
    );
}

#[test]
fn zero_and_one_are_num_error() {
    assert_eq!(
        eval_direct(normsinv_eval, vec![scalar(num(0.0))]),
        Value::Error(ErrorKind::Num)
    );
    assert_eq!(
        eval_direct(normsinv_eval, vec![scalar(num(1.0))]),
        Value::Error(ErrorKind::Num)
    );
}

#[test]
fn out_of_range_is_num_error() {
    assert_eq!(
        eval_direct(normsinv_eval, vec![scalar(num(-0.5))]),
        Value::Error(ErrorKind::Num)
    );
    assert_eq!(
        eval_direct(normsinv_eval, vec![scalar(num(1.5))]),
        Value::Error(ErrorKind::Num)
    );
}

#[test]
fn func_normsinv_text_coercion() {
    assert_eq!(eval_direct(normsinv_eval, vec![scalar(txt("0.5"))]), num(0.0));
}

#[test]
fn func_normsinv_non_numeric_text_is_value_error() {
    assert_eq!(
        eval_direct(normsinv_eval, vec![scalar(txt("abc"))]),
        Value::Error(ErrorKind::Value)
    );
}

#[test]
fn func_normsinv_error_argument_propagates() {
    assert_eq!(
        eval_direct(normsinv_eval, vec![scalar(Value::Error(ErrorKind::Div0))]),
        Value::Error(ErrorKind::Div0)
    );
}

// PI.

#[test]
fn returns_pi() {
    assert_eq!(
        eval_direct(func_pi::eval, vec![]),
        num(std::f64::consts::PI)
    );
}

#[test]
fn value_is_nearest_double_to_pi() {
    match eval_direct(func_pi::eval, vec![]) {
        Value::Number(n) => assert_eq!(double(n), std::f64::consts::PI),
        other => panic!("expected a number, got {other:?}"),
    }
}

// POWER.

#[test]
fn positive_base() {
    assert_eq!(
        eval_direct(power_eval, vec![scalar(num(2.0)), scalar(num(3.0))]),
        num(8.0)
    );
    assert_eq!(
        eval_direct(power_eval, vec![scalar(num(2.0)), scalar(num(10.0))]),
        num(1024.0)
    );
    assert_eq!(
        eval_direct(power_eval, vec![scalar(num(9.0)), scalar(num(0.5))]),
        num(3.0)
    );
}

#[test]
fn negative_base_integer_exponent() {
    assert_eq!(
        eval_direct(power_eval, vec![scalar(num(-2.0)), scalar(num(3.0))]),
        num(-8.0)
    );
    assert_eq!(
        eval_direct(power_eval, vec![scalar(num(-2.0)), scalar(num(2.0))]),
        num(4.0)
    );
}

#[test]
fn zero_and_identity_cases() {
    assert_eq!(
        eval_direct(power_eval, vec![scalar(num(5.0)), scalar(num(0.0))]),
        num(1.0)
    );
    assert_eq!(
        eval_direct(power_eval, vec![scalar(num(0.0)), scalar(num(5.0))]),
        num(0.0)
    );
    assert_eq!(
        eval_direct(power_eval, vec![scalar(num(0.0)), scalar(num(0.0))]),
        num(1.0)
    );
}

#[test]
fn negative_base_fractional_exponent_is_num() {
    assert_eq!(
        eval_direct(power_eval, vec![scalar(num(-1.0)), scalar(num(0.5))]),
        Value::Error(ErrorKind::Num)
    );
}

#[test]
fn overflow_is_num() {
    assert_eq!(
        eval_direct(power_eval, vec![scalar(num(10.0)), scalar(num(1000.0))]),
        Value::Error(ErrorKind::Num)
    );
}

#[test]
fn zero_to_negative_power_is_div0() {
    assert_eq!(
        eval_direct(power_eval, vec![scalar(num(0.0)), scalar(num(-1.0))]),
        Value::Error(ErrorKind::Div0)
    );
    assert_eq!(
        eval_direct(power_eval, vec![scalar(num(0.0)), scalar(num(-2.0))]),
        Value::Error(ErrorKind::Div0)
    );
}

#[test]
fn text_coercion_and_error_propagation() {
    assert_eq!(
        eval_direct(power_eval, vec![scalar(txt("2")), scalar(txt("3"))]),
        num(8.0)
    );
    assert_eq!(
        eval_direct(
            power_eval,
            vec![scalar(Value::Error(ErrorKind::Div0)), scalar(num(2.0))]
        ),
        Value::Error(ErrorKind::Div0)
    );
}

// QUOTIENT.

#[test]
fn positive_positive() {
    assert_eq!(
        eval_direct(quotient_eval, vec![scalar(num(10.0)), scalar(num(3.0))]),
        num(3.0)
    );
}

#[test]
fn negative_numerator_truncates_toward_zero() {
    assert_eq!(
        eval_direct(quotient_eval, vec![scalar(num(-10.0)), scalar(num(3.0))]),
        num(-3.0)
    );
}

#[test]
fn negative_denominator_truncates_toward_zero() {
    assert_eq!(
        eval_direct(quotient_eval, vec![scalar(num(10.0)), scalar(num(-3.0))]),
        num(-3.0)
    );
}

#[test]
fn even_division() {
    assert_eq!(
        eval_direct(quotient_eval, vec![scalar(num(5.0)), scalar(num(2.0))]),
        num(2.0)
    );
}

#[test]
fn denominator_zero_is_div0() {
    assert_eq!(
        eval_direct(quotient_eval, vec![scalar(num(1.0)), scalar(num(0.0))]),
        Value::Error(ErrorKind::Div0)
    );
}

#[test]
fn func_quotient_text_coercion() {
    assert_eq!(
        eval_direct(quotient_eval, vec![scalar(txt("10")), scalar(txt("3"))]),
        num(3.0)
    );
}

#[test]
fn func_quotient_error_propagates() {
    assert_eq!(
        eval_direct(
            quotient_eval,
            vec![scalar(Value::Error(ErrorKind::Ref)), scalar(num(3.0))]
        ),
        Value::Error(ErrorKind::Ref)
    );
}

// RANDARRAY.

#[test]
fn no_args_refused() {
    assert_eq!(
        eval_direct(func_randarray::eval, vec![]),
        Value::Error(ErrorKind::Unsupported)
    );
}

#[test]
fn full_args_refused() {
    assert_eq!(
        eval_direct(
            func_randarray::eval,
            vec![
                scalar(num(2.0)),
                scalar(num(3.0)),
                scalar(num(1.0)),
                scalar(num(10.0)),
                scalar(Value::Bool(true)),
            ]
        ),
        Value::Error(ErrorKind::Unsupported)
    );
}
