//! Functions of texts.

use xl_fn::{
    Arg, ArgShape, Array, Call, CallArgs, Criterion, DateSystem, ErrorKind, EvalContext,
    Number, RefRect, Relation, Standing, Text, Value, ValueModel, func_find, func_hyperlink,
    func_left, func_len, func_lower, func_mid, func_proper,
};

const POISON: u64 = u64::MAX;

fn number(x: f64) -> Option<Number> {
    Number::from_bits(x.to_bits())
}

fn num(x: f64) -> Value {
    Value::number(number(x))
}

fn txt(s: &str) -> Value {
    Value::text(s)
}

fn double(n: Number) -> f64 {
    f64::from_bits(n.to_bits())
}

fn string(t: &Text) -> String {
    t.chars().iter().collect()
}

fn scalar(v: Value) -> Arg {
    Arg::Scalar(v)
}

fn block(rows: usize, cols: usize, data: Vec<Value>) -> Array {
    Array::new(rows, cols, data).unwrap()
}

fn range(data: Vec<Value>) -> Arg {
    Arg::Range(block(data.len(), 1, data))
}

/// A call over evaluated arguments that panics where a poisoned one is evaluated.
struct Strict {
    call: Call,
}

impl Strict {
    fn check(&self, i: usize) {
        if let Some(Arg::Scalar(Value::Lambda(POISON))) = self.call.args.get(i) {
            panic!("argument {i} must not be evaluated");
        }
    }
}

impl CallArgs for Strict {
    fn count(&self) -> usize {
        self.call.count()
    }

    fn shape(&self, i: usize) -> ArgShape {
        self.call.shape(i)
    }

    fn is_reference(&self, i: usize) -> bool {
        self.call.is_reference(i)
    }

    fn array_arg_ctx(&self) -> bool {
        self.call.array_arg_ctx()
    }

    fn eval_scalar(&self, i: usize) -> Value {
        self.check(i);
        self.call.eval_scalar(i)
    }

    fn eval_scalar_array_arg(&self, i: usize) -> Value {
        self.check(i);
        self.call.eval_scalar_array_arg(i)
    }

    fn cells(&self, i: usize) -> Vec<Value> {
        self.check(i);
        self.call.cells(i)
    }

    fn rows(&self, i: usize) -> Result<Vec<Vec<Value>>, ErrorKind> {
        self.check(i);
        self.call.rows(i)
    }

    fn used_rows(&self, i: usize) -> Result<Vec<(u32, Vec<Value>)>, ErrorKind> {
        self.check(i);
        self.call.used_rows(i)
    }

    fn used_cols(&self, i: usize) -> Result<Vec<(u32, Vec<Value>)>, ErrorKind> {
        self.check(i);
        self.call.used_cols(i)
    }

    fn arg_ref_extent(&self, i: usize) -> Option<RefRect> {
        self.call.arg_ref_extent(i)
    }

    fn cell_at(&self, i: usize, row: u32, col: u32) -> Option<Value> {
        self.check(i);
        self.call.cell_at(i, row, col)
    }
}

/// The values in an argument.
fn values_of(arg: &Arg) -> Vec<Value> {
    match arg {
        Arg::Omitted => Vec::new(),
        Arg::Scalar(v) | Arg::CellRef(v) => vec![v.duplicate()],
        Arg::Range(a) | Arg::Constant(a) => a.data().iter().map(|v| v.duplicate()).collect(),
        Arg::Unbounded(vs) => vs.iter().map(|v| v.duplicate()).collect(),
        Arg::UsedRows(lines) | Arg::UsedCols(lines) => {
            lines.iter().flat_map(|(_, vs)| vs.iter().map(|v| v.duplicate())).collect()
        }
        Arg::RefCells(_, cells) => cells.iter().map(|(_, _, v)| v.duplicate()).collect(),
    }
}

/// The number that a text reads as in the model of these tests.
fn reading(s: &str) -> Option<f64> {
    s.trim().parse::<f64>().ok().filter(|x| x.is_finite())
}

/// How the model of these tests orders two values.
fn standing(a: &Value, b: &Value) -> Result<Standing, ErrorKind> {
    let kind = |v: &Value| match v {
        Value::Number(_) => Ok(0),
        Value::Text(_) => Ok(1),
        Value::Bool(_) => Ok(2),
        Value::Error(k) => Err(*k),
        _ => Err(ErrorKind::Unsupported),
    };
    let (left, right) = (kind(a)?, kind(b)?);
    let ordering = match (a, b) {
        (Value::Number(x), Value::Number(y)) => double(*x).partial_cmp(&double(*y)).unwrap(),
        (Value::Text(x), Value::Text(y)) => string(x).to_lowercase().cmp(&string(y).to_lowercase()),
        (Value::Bool(x), Value::Bool(y)) => x.cmp(y),
        _ => left.cmp(&right),
    };
    Ok(match ordering {
        std::cmp::Ordering::Less => Standing::Below,
        std::cmp::Ordering::Equal => Standing::Level,
        std::cmp::Ordering::Greater => Standing::Above,
    })
}

/// The facts of the model of these tests for the values of a call.
fn facts(args: &[Arg]) -> ValueModel {
    let all: Vec<Value> = args.iter().flat_map(values_of).collect();
    let mut model = ValueModel {
        readings: Vec::new(),
        renderings: Vec::new(),
        relations: Vec::new(),
        criteria: criteria(args, &all),
    };
    for v in &all {
        if let Value::Text(t) = v {
            if let Some(n) = reading(&string(t)).and_then(number) {
                model.readings.push((t.duplicate(), n));
            }
        }
        if let Value::Number(n) = v {
            model.renderings.push((*n, Text::new(&format!("{}", double(*n)))));
        }
        for key in args {
            if let Arg::Scalar(key) = key {
                let order = standing(v, key);
                model.relations.push(Relation {
                    left: v.duplicate(),
                    right: key.duplicate(),
                    order,
                    equal: order.map(|s| s == Standing::Level),
                });
            }
        }
    }
    model
}

fn context(args: &[Arg]) -> EvalContext {
    EvalContext { model: facts(args), date_system: DateSystem::From1900, spill_cap: 1000 }
}

fn eval_direct<T>(f: fn(&EvalContext, &Strict) -> T, args: Vec<Arg>) -> T {
    let ctx = context(&args);
    f(&ctx, &Strict { call: Call { args, array_context: false } })
}

/// No criteria occur in these tests.
fn criteria(_args: &[Arg], _all: &[Value]) -> Vec<Criterion> {
    Vec::new()
}

// FIND.

#[test]
fn finds_simple_occurrence() {
    assert_eq!(
        eval_direct(func_find::eval, vec![scalar(txt("b")), scalar(txt("abc"))]),
        num(2.0)
    );
}

#[test]
fn case_sensitive_not_found() {
    assert_eq!(
        eval_direct(func_find::eval, vec![scalar(txt("B")), scalar(txt("abc"))]),
        Value::Error(ErrorKind::Value)
    );
}

#[test]
fn start_num_skips_earlier_occurrence() {
    assert_eq!(
        eval_direct(
            func_find::eval,
            vec![scalar(txt("c")), scalar(txt("abcabc")), scalar(num(4.0))]
        ),
        num(6.0)
    );
}

#[test]
fn not_found() {
    assert_eq!(
        eval_direct(func_find::eval, vec![scalar(txt("z")), scalar(txt("abc"))]),
        Value::Error(ErrorKind::Value)
    );
}

#[test]
fn func_find_start_num_below_one_is_value_error() {
    assert_eq!(
        eval_direct(
            func_find::eval,
            vec![scalar(txt("a")), scalar(txt("abc")), scalar(num(0.0))]
        ),
        Value::Error(ErrorKind::Value)
    );
}

#[test]
fn start_num_beyond_length_is_value_error() {
    assert_eq!(
        eval_direct(
            func_find::eval,
            vec![scalar(txt("a")), scalar(txt("abc")), scalar(num(5.0))]
        ),
        Value::Error(ErrorKind::Value)
    );
}

#[test]
fn empty_find_text_matches_start_num() {
    assert_eq!(
        eval_direct(func_find::eval, vec![scalar(txt("")), scalar(txt("abc"))]),
        num(1.0)
    );
}

#[test]
fn numeric_arguments_are_coerced_to_text() {
    assert_eq!(
        eval_direct(func_find::eval, vec![scalar(num(2.0)), scalar(num(123.0))]),
        num(2.0)
    );
}

#[test]
fn error_in_find_text_propagates() {
    assert_eq!(
        eval_direct(
            func_find::eval,
            vec![scalar(Value::Error(ErrorKind::Ref)), scalar(txt("abc"))]
        ),
        Value::Error(ErrorKind::Ref)
    );
}

#[test]
fn error_in_within_text_propagates() {
    assert_eq!(
        eval_direct(
            func_find::eval,
            vec![scalar(txt("a")), scalar(Value::Error(ErrorKind::Div0))]
        ),
        Value::Error(ErrorKind::Div0)
    );
}

#[test]
fn error_in_start_num_propagates() {
    assert_eq!(
        eval_direct(
            func_find::eval,
            vec![
                scalar(txt("a")),
                scalar(txt("abc")),
                scalar(Value::Error(ErrorKind::Num))
            ]
        ),
        Value::Error(ErrorKind::Num)
    );
}

#[test]
fn non_integer_start_num_truncates_toward_zero() {
    assert_eq!(
        eval_direct(
            func_find::eval,
            vec![scalar(txt("c")), scalar(txt("abcabc")), scalar(num(4.9))]
        ),
        num(6.0)
    );
}

#[test]
fn astral_positions_count_utf16_code_units() {
    assert_eq!(
        eval_direct(func_find::eval, vec![scalar(txt("😀")), scalar(txt("A😀B"))]),
        num(2.0)
    );

    assert_eq!(
        eval_direct(func_find::eval, vec![scalar(txt("B")), scalar(txt("A😀B"))]),
        num(4.0)
    );

    assert_eq!(
        eval_direct(func_find::eval, vec![scalar(txt("a")), scalar(txt("a😀b"))]),
        num(1.0)
    );

    assert_eq!(
        eval_direct(func_find::eval, vec![scalar(txt("😀")), scalar(txt("😀"))]),
        num(1.0)
    );
}

#[test]
fn empty_find_text_matches_one_past_end() {
    assert_eq!(
        eval_direct(
            func_find::eval,
            vec![scalar(txt("")), scalar(txt("abc")), scalar(num(4.0))]
        ),
        num(4.0)
    );

    assert_eq!(
        eval_direct(
            func_find::eval,
            vec![scalar(txt("")), scalar(txt("abc")), scalar(num(1.0))]
        ),
        num(1.0)
    );

    assert_eq!(
        eval_direct(func_find::eval, vec![scalar(txt("")), scalar(txt(""))]),
        num(1.0)
    );

    assert_eq!(
        eval_direct(
            func_find::eval,
            vec![scalar(txt("")), scalar(txt("abc")), scalar(num(5.0))]
        ),
        Value::Error(ErrorKind::Value)
    );
}

// HYPERLINK.

#[test]
fn friendly_name_text_is_returned() {
    assert_eq!(
        eval_direct(
            func_hyperlink::eval,
            vec![scalar(txt("http://example.com")), scalar(txt("Example"))],
        ),
        txt("Example")
    );
}

#[test]
fn friendly_name_number_preserves_type() {
    assert_eq!(
        eval_direct(func_hyperlink::eval, vec![scalar(txt("u")), scalar(num(42.0))]),
        num(42.0)
    );
}

#[test]
fn numeric_link_location_coerces_to_text() {
    assert_eq!(eval_direct(func_hyperlink::eval, vec![scalar(num(123.0))]), txt("123"));
}

#[test]
fn empty_string_friendly_is_returned_as_text() {
    assert_eq!(
        eval_direct(func_hyperlink::eval, vec![scalar(txt("u")), scalar(txt(""))]),
        txt("")
    );
}

#[test]
fn friendly_name_bool_preserves_type() {
    assert_eq!(
        eval_direct(func_hyperlink::eval, vec![scalar(txt("u")), scalar(Value::Bool(true))]),
        Value::Bool(true)
    );
}

#[test]
fn omitted_friendly_returns_link_location() {
    assert_eq!(
        eval_direct(func_hyperlink::eval, vec![scalar(txt("mailto:x@y.com"))]),
        txt("mailto:x@y.com")
    );
}

#[test]
fn explicitly_omitted_friendly_returns_link() {
    assert_eq!(eval_direct(func_hyperlink::eval, vec![scalar(txt("u")), Arg::Omitted]), txt("u"));
}

#[test]
fn link_location_error_propagates() {
    assert_eq!(
        eval_direct(
            func_hyperlink::eval,
            vec![scalar(Value::Error(ErrorKind::Ref)), scalar(txt("ok"))],
        ),
        Value::Error(ErrorKind::Ref)
    );
}

#[test]
fn friendly_name_error_propagates() {
    assert_eq!(
        eval_direct(
            func_hyperlink::eval,
            vec![scalar(txt("u")), scalar(Value::Error(ErrorKind::Div0))],
        ),
        Value::Error(ErrorKind::Div0)
    );
}

#[test]
fn blank_friendly_is_deferred_loudly() {
    assert_eq!(
        eval_direct(func_hyperlink::eval, vec![scalar(txt("u")), scalar(Value::Blank)]),
        Value::Error(ErrorKind::Unsupported)
    );
}

#[test]
fn blank_lone_link_is_deferred_loudly() {
    assert_eq!(
        eval_direct(func_hyperlink::eval, vec![scalar(Value::Blank)]),
        Value::Error(ErrorKind::Unsupported)
    );
}

// LEFT.

fn left_left(args: Vec<Arg>) -> Value {
    eval_direct(func_left::eval, args)
}

#[test]
fn default_num_chars_is_one() {
    assert_eq!(left_left(vec![scalar(txt("Hello"))]), txt("H"));
}

#[test]
fn explicit_num_chars() {
    assert_eq!(
        left_left(vec![scalar(txt("Hello")), scalar(num(3.0))]),
        txt("Hel")
    );
}

#[test]
fn num_chars_past_length_returns_whole_string() {
    assert_eq!(left_left(vec![scalar(txt("Hi")), scalar(num(10.0))]), txt("Hi"));
}

#[test]
fn num_chars_zero_is_empty_string() {
    assert_eq!(left_left(vec![scalar(txt("Hi")), scalar(num(0.0))]), txt(""));
}

#[test]
fn func_left_negative_num_chars_is_value_error() {
    assert_eq!(
        left_left(vec![scalar(txt("Hi")), scalar(num(-1.0))]),
        Value::Error(ErrorKind::Value)
    );
}

#[test]
fn func_left_number_argument_uses_general_text_coercion() {
    assert_eq!(
        left_left(vec![scalar(num(12345.0)), scalar(num(2.0))]),
        txt("12")
    );
}

#[test]
fn fractional_num_chars_truncates_toward_zero() {
    assert_eq!(
        left_left(vec![scalar(txt("abcdef")), scalar(num(2.9))]),
        txt("ab")
    );
}

#[test]
fn func_left_error_in_text_argument_propagates() {
    assert_eq!(
        left_left(vec![
            scalar(Value::Error(ErrorKind::Div0)),
            scalar(num(1.0))
        ]),
        Value::Error(ErrorKind::Div0)
    );
}

#[test]
fn error_in_num_chars_argument_propagates() {
    assert_eq!(
        left_left(vec![scalar(txt("Hi")), scalar(Value::Error(ErrorKind::Na))]),
        Value::Error(ErrorKind::Na)
    );
}

#[test]
fn absent_second_arg_defaults_to_one_char() {
    assert_eq!(left_left(vec![scalar(txt("Hello"))]), txt("H"));
}

#[test]
fn explicitly_omitted_second_arg_coerces_blank_to_zero() {
    assert_eq!(left_left(vec![scalar(txt("Hello")), Arg::Omitted]), txt(""));
}

#[test]
fn astral_left_counts_scalars_never_splits_a_pair() {
    assert_eq!(left_left(vec![scalar(txt("😀X")), scalar(num(1.0))]), txt("😀"));
    assert_eq!(left_left(vec![scalar(txt("😀X")), scalar(num(2.0))]), txt("😀X"));

    assert_eq!(
        left_left(vec![scalar(txt("😀😀😀")), scalar(num(2.0))]),
        txt("😀😀")
    );
}

// LEN.

#[test]
fn ascii_length_counts_all_characters() {
    assert_eq!(eval_direct(func_len::eval, vec![scalar(txt("Hello"))]), num(5.0));
}

#[test]
fn spaces_are_counted() {
    assert_eq!(eval_direct(func_len::eval, vec![scalar(txt("a b c"))]), num(5.0));
}

#[test]
fn empty_string_is_zero() {
    assert_eq!(eval_direct(func_len::eval, vec![scalar(txt(""))]), num(0.0));
}

#[test]
fn blank_argument_is_zero() {
    assert_eq!(eval_direct(func_len::eval, vec![Arg::Omitted]), num(0.0));
}

#[test]
fn func_len_number_argument_uses_general_text_coercion() {
    assert_eq!(eval_direct(func_len::eval, vec![scalar(num(100.0))]), num(3.0));
}

#[test]
fn boolean_argument_uses_literal_text() {
    assert_eq!(eval_direct(func_len::eval, vec![scalar(Value::Bool(true))]), num(4.0));
    assert_eq!(
        eval_direct(func_len::eval, vec![scalar(Value::Bool(false))]),
        num(5.0)
    );
}

#[test]
fn error_in_text_propagates() {
    assert_eq!(
        eval_direct(func_len::eval, vec![scalar(Value::Error(ErrorKind::Div0))]),
        Value::Error(ErrorKind::Div0)
    );
}

#[test]
fn astral_character_counts_as_two_utf16_code_units() {
    assert_eq!(eval_direct(func_len::eval, vec![scalar(txt("😀"))]), num(2.0));
    assert_eq!(eval_direct(func_len::eval, vec![scalar(txt("𝛑"))]), num(2.0));

    assert_eq!(eval_direct(func_len::eval, vec![scalar(txt("a😀b"))]), num(4.0));
}

// LOWER.

fn lower_lower(args: Vec<Arg>) -> Value {
    eval_direct(func_lower::eval, args)
}

#[test]
fn ascii_uppercase_to_lowercase() {
    assert_eq!(lower_lower(vec![scalar(txt("HELLO"))]), txt("hello"));
}

#[test]
fn mixed_case_lowercased() {
    assert_eq!(lower_lower(vec![scalar(txt("Hello World"))]), txt("hello world"));
}

#[test]
fn already_lowercase_unchanged() {
    assert_eq!(lower_lower(vec![scalar(txt("hello"))]), txt("hello"));
}

#[test]
fn digits_and_punctuation_unchanged() {
    assert_eq!(lower_lower(vec![scalar(txt("A1B2-C3!?"))]), txt("a1b2-c3!?"));
}

#[test]
fn func_lower_number_argument_uses_general_text_coercion() {
    assert_eq!(lower_lower(vec![scalar(num(12345.0))]), txt("12345"));
}

#[test]
fn bool_argument_coerces_then_lowercases() {
    assert_eq!(lower_lower(vec![scalar(Value::Bool(true))]), txt("true"));
    assert_eq!(lower_lower(vec![scalar(Value::Bool(false))]), txt("false"));
}

#[test]
fn empty_string_is_empty() {
    assert_eq!(lower_lower(vec![scalar(txt(""))]), txt(""));
}

#[test]
fn blank_argument_is_empty_string() {
    assert_eq!(lower_lower(vec![scalar(Value::Blank)]), txt(""));
}

#[test]
fn omitted_argument_is_empty_string() {
    assert_eq!(lower_lower(vec![Arg::Omitted]), txt(""));
}

#[test]
fn func_lower_error_in_text_argument_propagates() {
    assert_eq!(
        lower_lower(vec![scalar(Value::Error(ErrorKind::Div0))]),
        Value::Error(ErrorKind::Div0)
    );
}

#[test]
fn func_lower_non_ascii_letter_is_deferred() {
    assert_eq!(
        lower_lower(vec![scalar(txt("CAFÉ"))]),
        Value::Error(ErrorKind::Unsupported)
    );
}

#[test]
fn non_ascii_lowercase_letter_also_deferred() {
    assert_eq!(
        lower_lower(vec![scalar(txt("café"))]),
        Value::Error(ErrorKind::Unsupported)
    );
}

#[test]
fn non_ascii_caseless_passes_through() {
    assert_eq!(lower_lower(vec![scalar(txt("HI😀"))]), txt("hi😀"));
}

// MID.

fn mid_call(args: Vec<Arg>) -> Value {
    eval_direct(func_mid::eval, args)
}

#[test]
fn basic_substring() {
    assert_eq!(
        mid_call(vec![
            scalar(txt("abcdef")),
            scalar(num(2.0)),
            scalar(num(3.0))
        ]),
        txt("bcd")
    );
}

#[test]
fn num_chars_past_end_clamps() {
    assert_eq!(
        mid_call(vec![
            scalar(txt("abc")),
            scalar(num(2.0)),
            scalar(num(10.0))
        ]),
        txt("bc")
    );
}

#[test]
fn start_num_past_end_is_empty() {
    assert_eq!(
        mid_call(vec![scalar(txt("abc")), scalar(num(5.0)), scalar(num(2.0))]),
        txt("")
    );
}

#[test]
fn zero_num_chars_is_empty() {
    assert_eq!(
        mid_call(vec![scalar(txt("abc")), scalar(num(1.0)), scalar(num(0.0))]),
        txt("")
    );
}

#[test]
fn func_mid_start_num_below_one_is_value_error() {
    assert_eq!(
        mid_call(vec![scalar(txt("abc")), scalar(num(0.0)), scalar(num(2.0))]),
        Value::Error(ErrorKind::Value)
    );
}

#[test]
fn func_mid_negative_num_chars_is_value_error() {
    assert_eq!(
        mid_call(vec![
            scalar(txt("abc")),
            scalar(num(1.0)),
            scalar(num(-1.0))
        ]),
        Value::Error(ErrorKind::Value)
    );
}

#[test]
fn non_integer_args_truncate_toward_zero() {
    assert_eq!(
        mid_call(vec![
            scalar(txt("abcdef")),
            scalar(num(2.9)),
            scalar(num(2.1))
        ]),
        txt("bc")
    );

    assert_eq!(
        mid_call(vec![
            scalar(txt("abcdef")),
            scalar(num(2.9)),
            scalar(num(2.0))
        ]),
        txt("bc")
    );

    assert_eq!(
        mid_call(vec![
            scalar(txt("abcdef")),
            scalar(num(2.0)),
            scalar(num(2.9))
        ]),
        txt("bc")
    );
}

#[test]
fn numeric_text_arg_is_coerced() {
    assert_eq!(
        mid_call(vec![
            scalar(num(12345.0)),
            scalar(num(2.0)),
            scalar(num(2.0))
        ]),
        txt("23")
    );
}

#[test]
fn error_in_text_arg_propagates() {
    assert_eq!(
        mid_call(vec![
            scalar(Value::Error(ErrorKind::Div0)),
            scalar(num(1.0)),
            scalar(num(2.0)),
        ]),
        Value::Error(ErrorKind::Div0)
    );
}

#[test]
fn astral_slice_on_pair_boundary_counts_utf16_code_units() {
    assert_eq!(
        mid_call(vec![
            scalar(txt("A\u{1F600}B")),
            scalar(num(2.0)),
            scalar(num(2.0))
        ]),
        txt("\u{1F600}")
    );

    assert_eq!(
        mid_call(vec![
            scalar(txt("A\u{1F600}B")),
            scalar(num(2.0)),
            scalar(num(3.0))
        ]),
        txt("\u{1F600}B")
    );

    assert_eq!(
        mid_call(vec![
            scalar(txt("A\u{1F600}B")),
            scalar(num(2.0)),
            scalar(num(9.0))
        ]),
        txt("\u{1F600}B")
    );

    assert_eq!(
        mid_call(vec![
            scalar(txt("A\u{1F600}B")),
            scalar(num(5.0)),
            scalar(num(1.0))
        ]),
        txt("")
    );
}

#[test]
fn astral_slice_splitting_a_pair_defers_pending_wtf8() {
    assert_eq!(
        mid_call(vec![
            scalar(txt("A\u{1F600}B")),
            scalar(num(2.0)),
            scalar(num(1.0))
        ]),
        Value::Error(ErrorKind::Unsupported)
    );

    assert_eq!(
        mid_call(vec![
            scalar(txt("A\u{1F600}B")),
            scalar(num(1.0)),
            scalar(num(2.0))
        ]),
        Value::Error(ErrorKind::Unsupported)
    );
}

// PROPER.

#[test]
fn simple_words() {
    assert_eq!(
        eval_direct(func_proper::eval, vec![scalar(txt("hello WORLD"))]),
        txt("Hello World")
    );
    assert_eq!(
        eval_direct(func_proper::eval, vec![scalar(txt("this is a TITLE"))]),
        txt("This Is A Title")
    );
}

#[test]
fn documented_separator_quirks() {
    assert_eq!(
        eval_direct(func_proper::eval, vec![scalar(txt("2-cent's worth"))]),
        txt("2-Cent'S Worth")
    );
    assert_eq!(
        eval_direct(func_proper::eval, vec![scalar(txt("76BudGet"))]),
        txt("76Budget")
    );
}

#[test]
fn already_proper_and_empty() {
    assert_eq!(eval_direct(func_proper::eval, vec![scalar(txt("Hello"))]), txt("Hello"));
    assert_eq!(eval_direct(func_proper::eval, vec![scalar(txt(""))]), txt(""));
}

#[test]
fn number_and_bool_coercion() {
    assert_eq!(eval_direct(func_proper::eval, vec![scalar(num(12345.0))]), txt("12345"));
    assert_eq!(
        eval_direct(func_proper::eval, vec![scalar(Value::Bool(true))]),
        txt("True")
    );
}

#[test]
fn blank_and_omitted_are_empty() {
    assert_eq!(eval_direct(func_proper::eval, vec![scalar(Value::Blank)]), txt(""));
    assert_eq!(eval_direct(func_proper::eval, vec![Arg::Omitted]), txt(""));
}

#[test]
fn caseless_non_ascii_is_a_delimiter() {
    assert_eq!(
        eval_direct(func_proper::eval, vec![scalar(txt("ab😀cd"))]),
        txt("Ab😀Cd")
    );
}

#[test]
fn func_proper_non_ascii_letter_is_deferred() {
    assert_eq!(
        eval_direct(func_proper::eval, vec![scalar(txt("café"))]),
        Value::Error(ErrorKind::Unsupported)
    );
    assert_eq!(
        eval_direct(func_proper::eval, vec![scalar(txt("中文 text"))]),
        Value::Error(ErrorKind::Unsupported)
    );
}

#[test]
fn func_proper_error_argument_propagates() {
    assert_eq!(
        eval_direct(func_proper::eval, vec![scalar(Value::Error(ErrorKind::Div0))]),
        Value::Error(ErrorKind::Div0)
    );
}
