//! What holds of the functions together, and the edges of each.

use std::cell::RefCell;

use xl_fn::{
    Arg, ArgShape, Array, Call, CallArgs, Criterion, DateSystem, ErrorKind, EvalContext,
    Number, RefRect, Relation, Standing, Text, Value, ValueModel, calendar, func_find, func_fv,
    func_hlookup, func_hour, func_hstack, func_if, func_iferror, func_ifna, func_index,
    func_int, func_ipmt, func_irr, func_isblank, func_iserr, func_iserror, func_isna,
    func_large, func_left, func_len, func_log, func_lookup, func_lower, func_match, func_max,
    func_maxa, func_median, func_mid, func_min, func_mod, func_month, func_networkdays,
    func_not, func_or, func_pmt, func_ppmt, func_product, func_proper, func_pv, func_quotient,
    func_rank, letters, order,
};

const POISON: u64 = u64::MAX;

fn number(x: f64) -> Option<Number> {
    Number::from_bits(x.to_bits())
}

fn num(x: f64) -> Value {
    Value::number(number(x))
}

fn txt(s: &str) -> Value {
    Value::text(s)
}

fn double(n: Number) -> f64 {
    f64::from_bits(n.to_bits())
}

fn string(t: &Text) -> String {
    t.chars().iter().collect()
}

fn scalar(v: Value) -> Arg {
    Arg::Scalar(v)
}

fn block(rows: usize, cols: usize, data: Vec<Value>) -> Array {
    Array::new(rows, cols, data).unwrap()
}

fn range(data: Vec<Value>) -> Arg {
    Arg::Range(block(data.len(), 1, data))
}

/// A call over evaluated arguments that panics where a poisoned one is evaluated.
/// It notes the cells of the sheet that are read.
struct Strict {
    call: Call,
    reads: RefCell<Vec<(usize, u32, u32)>>,
}

impl Strict {
    fn over(args: Vec<Arg>, array_context: bool) -> Strict {
        Strict { call: Call { args, array_context }, reads: RefCell::new(Vec::new()) }
    }

    fn check(&self, i: usize) {
        if let Some(Arg::Scalar(Value::Lambda(POISON))) = self.call.args.get(i) {
            panic!("argument {i} must not be evaluated");
        }
    }
}

impl CallArgs for Strict {
    fn count(&self) -> usize {
        self.call.count()
    }

    fn shape(&self, i: usize) -> ArgShape {
        self.call.shape(i)
    }

    fn is_reference(&self, i: usize) -> bool {
        self.call.is_reference(i)
    }

    fn array_arg_ctx(&self) -> bool {
        self.call.array_arg_ctx()
    }

    fn eval_scalar(&self, i: usize) -> Value {
        self.check(i);
        self.call.eval_scalar(i)
    }

    fn eval_scalar_array_arg(&self, i: usize) -> Value {
        self.check(i);
        self.call.eval_scalar_array_arg(i)
    }

    fn cells(&self, i: usize) -> Vec<Value> {
        self.check(i);
        self.call.cells(i)
    }

    fn rows(&self, i: usize) -> Result<Vec<Vec<Value>>, ErrorKind> {
        self.check(i);
        self.call.rows(i)
    }

    fn used_rows(&self, i: usize) -> Result<Vec<(u32, Vec<Value>)>, ErrorKind> {
        self.check(i);
        self.call.used_rows(i)
    }

    fn used_cols(&self, i: usize) -> Result<Vec<(u32, Vec<Value>)>, ErrorKind> {
        self.check(i);
        self.call.used_cols(i)
    }

    fn arg_ref_extent(&self, i: usize) -> Option<RefRect> {
        self.call.arg_ref_extent(i)
    }

    fn cell_at(&self, i: usize, row: u32, col: u32) -> Option<Value> {
        self.check(i);
        self.reads.borrow_mut().push((i, row, col));
        self.call.cell_at(i, row, col)
    }
}

/// The values in an argument.
fn values_of(arg: &Arg) -> Vec<Value> {
    match arg {
        Arg::Omitted => Vec::new(),
        Arg::Scalar(v) | Arg::CellRef(v) => vec![v.duplicate()],
        Arg::Range(a) | Arg::Constant(a) => a.data().iter().map(|v| v.duplicate()).collect(),
        Arg::Unbounded(vs) => vs.iter().map(|v| v.duplicate()).collect(),
        Arg::UsedRows(lines) | Arg::UsedCols(lines) => {
            lines.iter().flat_map(|(_, vs)| vs.iter().map(|v| v.duplicate())).collect()
        }
        Arg::RefCells(_, cells) => cells.iter().map(|(_, _, v)| v.duplicate()).collect(),
    }
}

/// The number that a text reads as in the model of these tests.
fn reading(s: &str) -> Option<f64> {
    s.trim().parse::<f64>().ok().filter(|x| x.is_finite())
}

/// How the model of these tests orders two values.
fn standing(a: &Value, b: &Value) -> Result<Standing, ErrorKind> {
    let kind = |v: &Value| match v {
        Value::Number(_) => Ok(0),
        Value::Text(_) => Ok(1),
        Value::Bool(_) => Ok(2),
        Value::Error(k) => Err(*k),
        _ => Err(ErrorKind::Unsupported),
    };
    let (left, right) = (kind(a)?, kind(b)?);
    let ordering = match (a, b) {
        (Value::Number(x), Value::Number(y)) => double(*x).partial_cmp(&double(*y)).unwrap(),
        (Value::Text(x), Value::Text(y)) => string(x).to_lowercase().cmp(&string(y).to_lowercase()),
        (Value::Bool(x), Value::Bool(y)) => x.cmp(y),
        _ => left.cmp(&right),
    };
    Ok(match ordering {
        std::cmp::Ordering::Less => Standing::Below,
        std::cmp::Ordering::Equal => Standing::Level,
        std::cmp::Ordering::Greater => Standing::Above,
    })
}

/// The facts of the model of these tests for the values of a call.
fn facts(args: &[Arg]) -> ValueModel {
    let all: Vec<Value> = args.iter().flat_map(values_of).collect();
    let mut model = ValueModel {
        readings: Vec::new(),
        renderings: Vec::new(),
        relations: Vec::new(),
        criteria: criteria(args, &all),
    };
    for v in &all {
        if let Value::Text(t) = v {
            if let Some(n) = reading(&string(t)).and_then(number) {
                model.readings.push((t.duplicate(), n));
            }
        }
        if let Value::Number(n) = v {
            model.renderings.push((*n, Text::new(&format!("{}", double(*n)))));
        }
        for key in args {
            if let Arg::Scalar(key) = key {
                let order = standing(v, key);
                model.relations.push(Relation {
                    left: v.duplicate(),
                    right: key.duplicate(),
                    order,
                    equal: order.map(|s| s == Standing::Level),
                });
            }
        }
    }
    model
}

fn context(args: &[Arg]) -> EvalContext {
    EvalContext { model: facts(args), date_system: DateSystem::From1900, spill_cap: 1000 }
}

fn eval_direct<T>(f: fn(&EvalContext, &Strict) -> T, args: Vec<Arg>) -> T {
    let ctx = context(&args);
    f(&ctx, &Strict::over(args, false))
}

/// No criteria occur in these tests.
fn criteria(_args: &[Arg], _all: &[Value]) -> Vec<Criterion> {
    Vec::new()
}

fn cell_ref(v: Value) -> Arg {
    Arg::CellRef(v)
}

fn array(data: Vec<Value>) -> Arg {
    Arg::Constant(block(1, data.len(), data))
}

fn poison() -> Arg {
    Arg::Scalar(Value::Lambda(POISON))
}

fn in_array_context<T>(f: fn(&EvalContext, &Strict) -> T, args: Vec<Arg>) -> T {
    let ctx = context(&args);
    f(&ctx, &Strict::over(args, true))
}

fn column(xs: &[f64]) -> Arg {
    range(xs.iter().map(|x| num(*x)).collect())
}

fn err(k: ErrorKind) -> Value {
    Value::Error(k)
}

// Searches.

#[test]
fn ascending_match_finds_the_last_entry_at_or_below_the_key() {
    for (key, place) in [(1.0, 1.0), (2.5, 2.0), (4.0, 5.0), (99.0, 6.0)] {
        let got = eval_direct(func_match::eval, vec![scalar(num(key)), column(&[1.0, 2.0, 3.0, 4.0, 4.0, 7.0])]);
        assert_eq!(got, num(place), "key {key}");
    }
    let below = eval_direct(func_match::eval, vec![scalar(num(0.5)), column(&[1.0, 2.0])]);
    assert_eq!(below, err(ErrorKind::Na));
}

#[test]
fn descending_match_finds_the_last_entry_at_or_above_the_key() {
    for (key, place) in [(9.0, 1.0), (6.0, 2.0), (4.0, 4.0), (1.0, 5.0)] {
        let args = vec![scalar(num(key)), column(&[9.0, 7.0, 4.0, 4.0, 1.0]), scalar(num(-1.0))];
        assert_eq!(eval_direct(func_match::eval, args), num(place), "key {key}");
    }
    let args = vec![scalar(num(10.0)), column(&[9.0, 7.0]), scalar(num(-1.0))];
    assert_eq!(eval_direct(func_match::eval, args), err(ErrorKind::Na));
}

#[test]
fn ascending_match_on_an_unsorted_vector_follows_the_probes() {
    let args = vec![scalar(num(3.0)), column(&[3.0, 9.0, 8.0, 1.0, 2.0]), scalar(num(1.0))];
    assert_eq!(eval_direct(func_match::eval, args), num(1.0));
}

#[test]
fn exact_match_finds_the_first_of_equal_entries() {
    let args = vec![scalar(num(4.0)), column(&[1.0, 4.0, 4.0]), scalar(num(0.0))];
    assert_eq!(eval_direct(func_match::eval, args), num(2.0));
    let wild = vec![scalar(txt("a*")), range(vec![txt("a*")]), scalar(num(0.0))];
    assert_eq!(eval_direct(func_match::eval, wild), err(ErrorKind::Unsupported));
}

#[test]
fn match_type_other_than_three_is_refused() {
    for t in [2.0, -0.5, 0.5] {
        let args = vec![scalar(num(1.0)), column(&[1.0]), scalar(num(t))];
        assert_eq!(eval_direct(func_match::eval, args), err(ErrorKind::Unsupported));
    }
}

#[test]
fn used_rows_without_gaps_are_searched_as_the_bounded_column() {
    for key in [num(2.0), num(5.0), num(9.0), Value::Blank] {
        for t in [1.0, 0.0, -1.0] {
            let lines = vec![(0, vec![num(1.0)]), (1, vec![num(2.0)]), (2, vec![num(5.0)])];
            let used = vec![scalar(key.duplicate()), Arg::UsedRows(lines), scalar(num(t))];
            let bounded = vec![scalar(key.duplicate()), column(&[1.0, 2.0, 5.0]), scalar(num(t))];
            assert_eq!(eval_direct(func_match::eval, used), eval_direct(func_match::eval, bounded));
        }
    }
}

#[test]
fn lookup_stops_at_a_level_entry_and_passes_errors() {
    let level = vec![scalar(num(4.0)), column(&[1.0, 4.0, 4.0, 4.0, 9.0])];
    assert_eq!(eval_direct(func_lookup::eval, level), num(4.0));
    let entries = range(vec![num(1.0), err(ErrorKind::Div0), num(5.0)]);
    let past = vec![scalar(num(5.0)), entries];
    assert_eq!(eval_direct(func_lookup::eval, past), num(5.0));
    let none = vec![scalar(num(0.0)), column(&[1.0, 4.0])];
    assert_eq!(eval_direct(func_lookup::eval, none), err(ErrorKind::Na));
}

/// The cells of the sheet that a call reads, and its result.
fn with_reads(f: fn(&EvalContext, &Strict) -> Value, args: Vec<Arg>) -> (Value, Vec<(usize, u32, u32)>) {
    let ctx = context(&args);
    let call = Strict::over(args, false);
    let v = f(&ctx, &call);
    (v, call.reads.into_inner())
}

#[test]
fn index_reads_one_cell_of_whole_columns() {
    let rect = RefRect { row: 0, col: 2, height: 1000, width: 2 };
    let sheet = || Arg::RefCells(rect, vec![(4, 3, num(9.0))]);
    let read = |row: f64, col: f64| with_reads(func_index::eval, vec![sheet(), scalar(num(row)), scalar(num(col))]);
    assert_eq!(read(5.0, 2.0), (num(9.0), vec![(0, 4, 3)]));
    assert_eq!(read(6.0, 2.0), (Value::Blank, vec![(0, 5, 3)]));
    assert_eq!(read(1001.0, 1.0), (err(ErrorKind::Ref), vec![]));
    assert_eq!(read(0.0, 1.0), (err(ErrorKind::Unsupported), vec![]));
    let unknown = with_reads(func_index::eval, vec![Arg::Unbounded(vec![num(1.0)]), poison(), poison()]);
    assert_eq!(unknown, (err(ErrorKind::Unsupported), vec![]));
}

#[test]
fn hlookup_reads_what_the_search_looks_at_and_the_result() {
    let rect = RefRect { row: 3, col: 1, height: 1000, width: 7 };
    let sheet = || {
        let mut cells: Vec<(u32, u32, Value)> = (0..7).map(|c| (3, c + 1, num(f64::from(c) * 10.0))).collect();
        cells.push((4, 3, txt("found")));
        Arg::RefCells(rect, cells)
    };
    let look = |key: f64, row: f64, approximate: bool| {
        with_reads(
            func_hlookup::eval,
            vec![scalar(num(key)), sheet(), scalar(num(row)), scalar(Value::Bool(approximate))],
        )
    };
    assert_eq!(look(20.0, 2.0, false), (txt("found"), vec![(1, 3, 1), (1, 3, 2), (1, 3, 3), (1, 4, 3)]));
    assert_eq!(look(25.0, 2.0, true), (txt("found"), vec![(1, 3, 4), (1, 3, 2), (1, 3, 3), (1, 4, 3)]));
    assert_eq!(look(20.0, 1001.0, false), (err(ErrorKind::Ref), vec![]));
    let missing = look(5.0, 2.0, false);
    assert_eq!((missing.0, missing.1.len()), (err(ErrorKind::Na), 7));
    let refused = vec![scalar(num(1.0)), poison(), scalar(num(0.0)), poison()];
    assert_eq!(eval_direct(func_hlookup::eval, refused), err(ErrorKind::Value));
}

#[test]
fn whole_axis_is_read_as_the_bounded_rectangle() {
    let cells = [[1.0, 3.0, 5.0], [10.0, 30.0, 50.0]];
    let table = || {
        let data = cells.iter().flatten().map(|x| num(*x)).collect();
        Arg::Range(block(2, 3, data))
    };
    let sheet = || {
        let mut listed = Vec::new();
        for (r, row) in cells.iter().enumerate() {
            for (c, x) in row.iter().enumerate() {
                listed.push((r as u32 + 4, c as u32 + 2, num(*x)));
            }
        }
        Arg::RefCells(RefRect { row: 4, col: 2, height: 2, width: 3 }, listed)
    };
    for key in [0.0, 1.0, 4.0, 5.0] {
        for row in [1.0, 2.0, 3.0] {
            let with = |table: Arg| vec![scalar(num(key)), table, scalar(num(row))];
            assert_eq!(eval_direct(func_hlookup::eval, with(sheet())), eval_direct(func_hlookup::eval, with(table())));
        }
    }
    for row in [1.0, 2.0, 3.0] {
        for col in [1.0, 3.9, 4.0] {
            let with = |table: Arg| vec![table, scalar(num(row)), scalar(num(col))];
            assert_eq!(eval_direct(func_index::eval, with(sheet())), eval_direct(func_index::eval, with(table())));
        }
    }
}

#[test]
fn index_hands_out_cells_rows_and_columns() {
    let table = || Arg::Range(block(2, 2, vec![num(1.0), num(2.0), num(3.0), num(4.0)]));
    let at = |row: f64, col: f64| eval_direct(func_index::eval, vec![table(), scalar(num(row)), scalar(num(col))]);
    assert_eq!(at(2.0, 1.0), num(3.0));
    assert_eq!(at(2.9, 2.9), num(4.0));
    assert_eq!(at(0.0, 2.0), Value::Array(block(2, 1, vec![num(2.0), num(4.0)])));
    assert_eq!(at(1.0, 0.0), Value::Array(block(1, 2, vec![num(1.0), num(2.0)])));
    assert_eq!(at(0.0, 0.0), err(ErrorKind::Unsupported));
    assert_eq!(at(-1.0, 1.0), err(ErrorKind::Unsupported));
    assert_eq!(at(3.0, 1.0), err(ErrorKind::Ref));
    let lone = eval_direct(func_index::eval, vec![table(), scalar(num(1.0))]);
    assert_eq!(lone, err(ErrorKind::Unsupported));
}

#[test]
fn hlookup_refuses_fractions_and_checks_the_row() {
    let table = || Arg::Range(block(1, 2, vec![num(1.0), num(2.0)]));
    let row = |n: f64| eval_direct(func_hlookup::eval, vec![scalar(num(1.0)), table(), scalar(num(n))]);
    assert_eq!(row(1.0), num(1.0));
    assert_eq!(row(1.5), err(ErrorKind::Unsupported));
    assert_eq!(row(0.0), err(ErrorKind::Value));
    assert_eq!(row(2.0), err(ErrorKind::Ref));
    assert_eq!(row(1e300), err(ErrorKind::Ref));
}

#[test]
fn stacked_cells_stand_to_the_right_of_those_before() {
    let left = Arg::Range(block(1, 2, vec![num(1.0), num(2.0)]));
    let right = Arg::Range(block(2, 1, vec![num(3.0), Value::Blank]));
    let na = || err(ErrorKind::Na);
    assert_eq!(
        eval_direct(func_hstack::eval, vec![left, right]),
        Value::Array(block(2, 3, vec![num(1.0), num(2.0), num(3.0), na(), na(), Value::Blank]))
    );
}

#[test]
fn stack_larger_than_the_cap_is_refused() {
    let wide = |n: usize| Arg::Range(block(2, n, (0..2 * n).map(|_| num(0.0)).collect()));
    assert!(matches!(eval_direct(func_hstack::eval, vec![wide(500)]), Value::Array(_)));
    let over = eval_direct(func_hstack::eval, vec![wide(500), wide(1)]);
    assert_eq!(over, err(ErrorKind::Unsupported));
    assert_eq!(eval_direct(func_hstack::eval, vec![]), err(ErrorKind::Unsupported));
}

// Choices.

#[test]
fn if_evaluates_only_the_chosen_argument() {
    let yes = vec![scalar(Value::Bool(true)), scalar(num(1.0)), poison()];
    assert_eq!(eval_direct(func_if::eval, yes), num(1.0));
    let no = vec![scalar(num(0.0)), poison(), scalar(txt("no"))];
    assert_eq!(eval_direct(func_if::eval, no), txt("no"));
    let failed = vec![scalar(txt("maybe")), poison(), poison()];
    assert_eq!(eval_direct(func_if::eval, failed), err(ErrorKind::Value));
}

#[test]
fn if_without_the_chosen_argument() {
    let absent = vec![scalar(Value::Bool(false)), scalar(num(1.0))];
    assert_eq!(eval_direct(func_if::eval, absent), Value::Bool(false));
    let empty = vec![scalar(Value::Bool(true)), Arg::Omitted, scalar(num(1.0))];
    assert_eq!(eval_direct(func_if::eval, empty), num(0.0));
}

#[test]
fn a_choice_of_another_extent_is_refused_though_no_test_chooses_it() {
    let tests = || scalar(Value::Array(block(2, 1, vec![Value::Bool(true), Value::Bool(true)])));
    let long = || scalar(Value::Array(block(3, 1, vec![num(1.0), num(2.0), num(3.0)])));
    let single = || scalar(Value::Array(block(1, 1, vec![num(7.0)])));
    let choose = |yes: Arg, no: Arg| in_array_context(func_if::eval, vec![tests(), yes, no]);
    assert_eq!(choose(scalar(num(1.0)), long()), err(ErrorKind::Unsupported));
    assert_eq!(choose(long(), scalar(num(1.0))), err(ErrorKind::Unsupported));
    assert_eq!(choose(scalar(num(1.0)), single()), Value::Array(block(2, 1, vec![num(1.0), num(1.0)])));
    assert_eq!(choose(single(), scalar(num(1.0))), Value::Array(block(2, 1, vec![num(7.0), num(7.0)])));
    let failed = scalar(Value::Array(block(2, 1, vec![err(ErrorKind::Na), err(ErrorKind::Na)])));
    assert_eq!(in_array_context(func_if::eval, vec![failed, long(), scalar(num(1.0))]), err(ErrorKind::Unsupported));
}

#[test]
fn if_chooses_cell_by_cell_where_an_array_is_taken() {
    let tests = || scalar(Value::Array(block(1, 3, vec![num(1.0), txt("x"), num(0.0)])));
    let yes = || scalar(Value::Array(block(1, 3, vec![num(10.0), num(20.0), num(30.0)])));
    assert_eq!(
        in_array_context(func_if::eval, vec![tests(), yes(), scalar(num(-1.0))]),
        Value::Array(block(1, 3, vec![num(10.0), err(ErrorKind::Value), num(-1.0)]))
    );
    let short = scalar(Value::Array(block(1, 2, vec![num(1.0), num(2.0)])));
    let refused = in_array_context(func_if::eval, vec![tests(), short, scalar(num(-1.0))]);
    assert_eq!(refused, err(ErrorKind::Unsupported));
    let unused = scalar(Value::Array(block(1, 2, vec![num(1.0), num(2.0)])));
    let all = scalar(Value::Array(block(1, 2, vec![num(1.0), num(1.0)])));
    let never = scalar(Value::Array(block(2, 2, vec![num(1.0), num(2.0), num(3.0), num(4.0)])));
    assert_eq!(in_array_context(func_if::eval, vec![all, unused, never]), err(ErrorKind::Unsupported));
    let missing = in_array_context(func_if::eval, vec![tests(), yes()]);
    assert_eq!(missing, err(ErrorKind::Unsupported));
    assert_eq!(eval_direct(func_if::eval, vec![tests(), yes(), yes()]), err(ErrorKind::Unsupported));
}

#[test]
fn not_negates_cell_by_cell_where_an_array_is_taken() {
    let cells = || scalar(Value::Array(block(2, 1, vec![Value::Bool(true), txt("x")])));
    assert_eq!(
        in_array_context(func_not::eval, vec![cells()]),
        Value::Array(block(2, 1, vec![Value::Bool(false), err(ErrorKind::Value)]))
    );
    assert_eq!(eval_direct(func_not::eval, vec![cells()]), err(ErrorKind::Unsupported));
    let twice = eval_direct(func_not::eval, vec![scalar(eval_direct(func_not::eval, vec![scalar(num(3.0))]))]);
    assert_eq!(twice, Value::Bool(true));
    assert_eq!(eval_direct(func_not::eval, vec![scalar(txt("fAlSe"))]), Value::Bool(true));
}

#[test]
fn isblank_tests_cell_by_cell_where_an_array_is_taken() {
    let cells = scalar(Value::Array(block(1, 3, vec![Value::Blank, txt(""), err(ErrorKind::Blocked)])));
    assert_eq!(
        in_array_context(func_isblank::eval, vec![cells]),
        Value::Array(block(1, 3, vec![Value::Bool(true), Value::Bool(false), err(ErrorKind::Blocked)]))
    );
}

#[test]
fn an_error_is_one_of_the_two_tests_or_the_other() {
    for k in [ErrorKind::Na, ErrorKind::Div0, ErrorKind::Spill] {
        let with = || vec![scalar(err(k))];
        let either = [eval_direct(func_iserr::eval, with()), eval_direct(func_isna::eval, with())];
        assert_eq!(eval_direct(func_iserror::eval, with()), Value::Bool(true));
        assert_eq!(either.iter().filter(|v| **v == Value::Bool(true)).count(), 1);
    }
}

#[test]
fn fallback_for_a_missing_value_is_that_for_an_error() {
    let with = || vec![scalar(err(ErrorKind::Na)), scalar(num(3.0))];
    assert_eq!(eval_direct(func_iferror::eval, with()), eval_direct(func_ifna::eval, with()));
}

#[test]
fn or_passes_over_what_does_not_count() {
    let mixed = vec![range(vec![txt("TRUE"), Value::Blank]), scalar(Value::Bool(false)), scalar(num(2.0))];
    assert_eq!(eval_direct(func_or::eval, mixed), Value::Bool(true));
    let first = vec![range(vec![Value::Bool(true), err(ErrorKind::Ref)]), scalar(err(ErrorKind::Num))];
    assert_eq!(eval_direct(func_or::eval, first), err(ErrorKind::Ref));
    assert_eq!(eval_direct(func_or::eval, vec![scalar(Value::Lambda(1))]), err(ErrorKind::Unsupported));
}

// Aggregates.

#[test]
fn extremes_do_not_depend_on_order() {
    for xs in [[3.0, -1.5, 9.0], [9.0, 3.0, -1.5], [-1.5, 9.0, 3.0]] {
        assert_eq!(eval_direct(func_max::eval, vec![column(&xs)]), num(9.0));
        assert_eq!(eval_direct(func_min::eval, vec![column(&xs)]), num(-1.5));
    }
}

#[test]
fn the_first_error_of_an_aggregate_is_its_result() {
    let args = vec![scalar(num(1.0)), range(vec![num(2.0), err(ErrorKind::Num)]), scalar(err(ErrorKind::Ref))];
    assert_eq!(eval_direct(func_max::eval, args), err(ErrorKind::Num));
}

#[test]
fn array_constants_drop_logicals_and_ranges_count_them() {
    let cells = || vec![num(0.5), Value::Bool(true)];
    assert_eq!(eval_direct(func_maxa::eval, vec![range(cells())]), num(1.0));
    assert_eq!(eval_direct(func_maxa::eval, vec![array(cells())]), num(0.5));
    assert_eq!(eval_direct(func_max::eval, vec![range(cells())]), num(0.5));
}

#[test]
fn a_reference_to_one_cell_is_a_range_of_it() {
    for v in [num(4.0), txt("7"), Value::Bool(true), Value::Blank] {
        let one = eval_direct(func_maxa::eval, vec![cell_ref(v.duplicate())]);
        assert_eq!(one, eval_direct(func_maxa::eval, vec![range(vec![v])]));
    }
}

#[test]
fn large_descends_from_the_maximum_to_the_minimum() {
    let xs = [4.0, -2.0, 4.0, 7.5];
    for (k, x) in [(1.0, 7.5), (2.0, 4.0), (3.0, 4.0), (4.0, -2.0)] {
        assert_eq!(eval_direct(func_large::eval, vec![column(&xs), scalar(num(k))]), num(x));
    }
}

#[test]
fn sorting_puts_the_signed_zero_first() {
    let ns: Vec<Number> = [0.0, 3.0, -0.0, -7.25, 1e300].iter().map(|x| number(*x).unwrap()).collect();
    let sorted: Vec<u64> = order::sort(&ns).iter().map(|n| n.to_bits()).collect();
    let expected: Vec<u64> = [-7.25, -0.0, 0.0, 3.0, 1e300].iter().map(|x: &f64| x.to_bits()).collect();
    assert_eq!(sorted, expected);
}

#[test]
fn medians_do_not_depend_on_order() {
    let odd = |xs: [f64; 3]| eval_direct(func_median::terms, vec![column(&xs)]);
    assert_eq!(odd([5.0, 1.0, 3.0]), odd([3.0, 5.0, 1.0]));
    assert_eq!(odd([5.0, 1.0, 3.0]), Ok(func_median::Middle::One(number(3.0).unwrap())));
    let even = eval_direct(func_median::terms, vec![column(&[8.0, 1.0, 2.0, 4.0])]);
    assert_eq!(even, Ok(func_median::Middle::Between(number(2.0).unwrap(), number(4.0).unwrap())));
}

#[test]
fn places_from_both_ends_and_ties_add_up() {
    let xs = [7.0, 3.0, 10.0, 3.0, 5.0];
    let place = |x: f64, order: f64| {
        match eval_direct(func_rank::eval, vec![scalar(num(x)), column(&xs), scalar(num(order))]) {
            Value::Number(n) => double(n),
            other => panic!("expected a place, got {other:?}"),
        }
    };
    for x in xs {
        let ties = xs.iter().filter(|y| **y == x).count() as f64;
        assert_eq!(place(x, 0.0) + place(x, 1.0) + ties, xs.len() as f64 + 2.0);
    }
}

#[test]
fn empty_aggregates() {
    assert_eq!(eval_direct(func_max::eval, vec![range(vec![txt("x")])]), num(0.0));
    assert_eq!(eval_direct(func_product::terms, vec![range(vec![txt("x")])]), Ok(func_product::Terms::Zero));
    assert_eq!(eval_direct(func_median::terms, vec![range(vec![txt("x")])]), Err(ErrorKind::Num));
}

// Numbers.

#[test]
fn int_rounds_down_and_keeps_whole_numbers() {
    for (x, floor) in [(8.9, 8.0), (-8.9, -9.0), (0.5, 0.0), (-0.5, -1.0), (5.0, 5.0), (1e300, 1e300)] {
        assert_eq!(eval_direct(func_int::eval, vec![scalar(num(x))]), num(floor));
    }
    let twice = eval_direct(func_int::eval, vec![scalar(eval_direct(func_int::eval, vec![scalar(num(-2.5))]))]);
    assert_eq!(twice, num(-3.0));
    assert_eq!(eval_direct(func_int::eval, vec![scalar(txt("19.9"))]), num(19.0));
    assert_eq!(eval_direct(func_int::eval, vec![scalar(txt("x"))]), err(ErrorKind::Value));
}

#[test]
fn mod_and_quotient_refuse_to_divide_by_zero() {
    let with = || vec![scalar(num(5.0)), scalar(num(0.0))];
    assert_eq!(eval_direct(func_mod::terms, with()), Err(ErrorKind::Div0));
    assert_eq!(eval_direct(func_quotient::terms, with()), Err(ErrorKind::Div0));
    let terms = eval_direct(func_mod::terms, vec![scalar(num(-3.0)), scalar(num(2.0))]);
    assert_eq!(terms, Ok(func_mod::Terms { number: number(-3.0).unwrap(), divisor: number(2.0).unwrap() }));
}

#[test]
fn the_base_of_a_logarithm_is_ten_by_default() {
    let given = eval_direct(func_log::terms, vec![scalar(num(7.0)), scalar(num(10.0))]);
    assert_eq!(given, eval_direct(func_log::terms, vec![scalar(num(7.0))]));
    assert_eq!(given, Ok(func_log::Terms::Decimal { number: number(7.0).unwrap() }));
}

#[test]
fn any_type_but_zero_means_payments_at_the_start() {
    let with = |t: f64| [0.05, 1.0, 10.0, 1000.0, 0.0, t].iter().map(|x| scalar(num(*x))).collect::<Vec<Arg>>();
    assert_eq!(eval_direct(func_ipmt::terms, with(1.0)), eval_direct(func_ipmt::terms, with(-3.5)));
    assert_eq!(eval_direct(func_ppmt::terms, with(1.0)), eval_direct(func_ppmt::terms, with(2.0)));
    let five = |t: f64| [0.05, 10.0, -100.0, 0.0, t].iter().map(|x| scalar(num(*x))).collect::<Vec<Arg>>();
    assert_eq!(eval_direct(func_fv::terms, five(1.0)), eval_direct(func_fv::terms, five(7.0)));
    assert_eq!(eval_direct(func_pv::terms, five(1.0)), eval_direct(func_pv::terms, five(7.0)));
    assert_eq!(eval_direct(func_pmt::terms, five(1.0)), eval_direct(func_pmt::terms, five(7.0)));
}

#[test]
fn the_parts_of_a_payment_take_the_same_loan() {
    let with = || [0.05, 2.0, 10.0, 1000.0, 5.0, 0.0].iter().map(|x| scalar(num(*x))).collect::<Vec<Arg>>();
    let at_start: Vec<Arg> = [0.05, 1.0, 10.0, 1000.0, 5.0, 1.0].iter().map(|x| scalar(num(*x))).collect();
    let whole = func_ppmt::Terms::First {
        rate: number(0.05).unwrap(),
        nper: number(10.0).unwrap(),
        pv: number(1000.0).unwrap(),
        fv: number(5.0).unwrap(),
    };
    assert_eq!(eval_direct(func_ppmt::terms, at_start), Ok(whole));
    match (eval_direct(func_ipmt::terms, with()), eval_direct(func_ppmt::terms, with())) {
        (
            Ok(func_ipmt::Terms::Interest { rate, per, nper, pv, fv, due }),
            Ok(func_ppmt::Terms::Principal { rate: r, per: p, nper: n, pv: v, fv: f, due: d }),
        ) => {
            assert_eq!((rate, per, nper, pv, fv, due), (r, p, n, v, f, d));
        }
        other => panic!("expected both parts, got {other:?}"),
    }
}

#[test]
fn the_parts_make_up_the_payment_of_the_loan() {
    for kind in [0.0, 1.0] {
        for rate in [0.0, 0.05] {
            let parts: Vec<Arg> = [rate, 1.0, 10.0, 1000.0, 5.0, kind].iter().map(|x| scalar(num(*x))).collect();
            let whole: Vec<Arg> = [rate, 10.0, 1000.0, 5.0, kind].iter().map(|x| scalar(num(*x))).collect();
            match (eval_direct(func_ppmt::terms, parts), eval_direct(func_pmt::terms, whole)) {
                (
                    Ok(func_ppmt::Terms::Straight { nper, pv, fv }),
                    Ok(func_pmt::Terms::Straight { nper: n, pv: v, fv: f }),
                ) => assert_eq!((nper, pv, fv), (n, v, f)),
                (
                    Ok(func_ppmt::Terms::First { rate, nper, pv, fv }),
                    Ok(func_pmt::Terms::Compound { rate: r, nper: n, pv: v, fv: f, due }),
                ) => assert_eq!((rate, nper, pv, fv, true), (r, n, v, f, due)),
                (
                    Ok(func_ppmt::Terms::Principal { rate, nper, pv, fv, due, .. }),
                    Ok(func_pmt::Terms::Compound { rate: r, nper: n, pv: v, fv: f, due: d }),
                ) => assert_eq!((rate, nper, pv, fv, due), (r, n, v, f, d)),
                other => panic!("expected one loan, got {other:?}"),
            }
        }
    }
}

#[test]
fn a_search_for_a_rate_starts_at_a_tenth_without_a_guess() {
    let flows = || column(&[-100.0, 60.0, 60.0]);
    let started = |args: Vec<Arg>| func_irr::start(&eval_direct(func_irr::terms, args).unwrap());
    assert_eq!(started(vec![flows()]).to_bits(), 0.1_f64.to_bits());
    assert_eq!(started(vec![flows(), Arg::Omitted]), started(vec![flows(), scalar(num(0.1))]));
    assert_eq!(started(vec![flows(), scalar(num(0.25))]).to_bits(), 0.25_f64.to_bits());
}

#[test]
fn a_search_for_a_rate_ends_after_its_rounds() {
    let going = || func_irr::Round { value_finite: true, slope: number(-2.0), next: number(0.5), settled: false };
    let mut rounds = func_irr::Rounds::new();
    for _ in 1..20 {
        assert_eq!(rounds.advance(going()), func_irr::Step::Again(number(0.5).unwrap()));
    }
    assert_eq!(rounds.advance(going()), func_irr::Step::Weigh(number(0.5).unwrap()));
    let settled = func_irr::Rounds::new().advance(func_irr::Round { settled: true, ..going() });
    assert_eq!(settled, func_irr::Step::Done(num(0.5)));
    for bad in [
        func_irr::Round { value_finite: false, ..going() },
        func_irr::Round { slope: number(0.0), ..going() },
        func_irr::Round { slope: None, ..going() },
        func_irr::Round { next: None, ..going() },
    ] {
        assert_eq!(func_irr::Rounds::new().advance(bad), func_irr::Step::Done(err(ErrorKind::Num)));
    }
    assert_eq!(func_irr::weigh(number(0.5).unwrap(), true), num(0.5));
    assert_eq!(func_irr::weigh(number(0.5).unwrap(), false), err(ErrorKind::Num));
}

// Texts.

#[test]
fn the_part_at_the_position_found_is_what_was_sought() {
    for (find, within) in [("b", "abc"), ("\u{1F600}", "A\u{1F600}B"), ("B", "A\u{1F600}B")] {
        let place = eval_direct(func_find::eval, vec![scalar(txt(find)), scalar(txt(within))]);
        let length = eval_direct(func_len::eval, vec![scalar(txt(find))]);
        let part = eval_direct(func_mid::eval, vec![scalar(txt(within)), scalar(place), scalar(length)]);
        assert_eq!(part, txt(find));
    }
}

#[test]
fn find_starts_where_it_is_told_to() {
    let from = |start: f64| eval_direct(func_find::eval, vec![scalar(txt("a")), scalar(txt("banana")), scalar(num(start))]);
    assert_eq!(from(1.0), num(2.0));
    assert_eq!(from(3.0), num(4.0));
    assert_eq!(from(7.0), err(ErrorKind::Value));
    assert_eq!(from(0.9), err(ErrorKind::Value));
    assert_eq!(from(1e300), err(ErrorKind::Value));
    let empty = |start: f64| eval_direct(func_find::eval, vec![scalar(txt("")), scalar(txt("ab")), scalar(num(start))]);
    assert_eq!(empty(3.0), num(3.0));
    assert_eq!(empty(4.0), err(ErrorKind::Value));
}

#[test]
fn the_whole_text_is_its_own_part() {
    for t in ["", "abc", "A\u{1F600}B"] {
        let length = eval_direct(func_len::eval, vec![scalar(txt(t))]);
        let part = eval_direct(func_mid::eval, vec![scalar(txt(t)), scalar(num(1.0)), scalar(length)]);
        assert_eq!(part, txt(t));
    }
}

#[test]
fn an_empty_part_inside_a_pair_is_empty() {
    let part = eval_direct(func_mid::eval, vec![scalar(txt("\u{1F600}")), scalar(num(2.0)), scalar(num(0.0))]);
    assert_eq!(part, txt(""));
}

#[test]
fn mid_cuts_out_what_find_found() {
    for (sought, within) in [("b", "abc"), ("\u{1F600}", "x\u{1F600}y"), ("y", "x\u{1F600}y"), ("", "ab"), ("ab", "ab")] {
        let place = eval_direct(func_find::eval, vec![scalar(txt(sought)), scalar(txt(within))]);
        let length = eval_direct(func_len::eval, vec![scalar(txt(sought))]);
        let part = eval_direct(func_mid::eval, vec![scalar(txt(within)), scalar(place), scalar(length)]);
        assert_eq!(part, txt(sought), "{sought} in {within}");
    }
}

#[test]
fn left_and_mid_agree_on_the_basic_plane() {
    for n in [0.0, 2.0, 9.0] {
        let left = eval_direct(func_left::eval, vec![scalar(txt("caf\u{e9}")), scalar(num(n))]);
        let mid = eval_direct(func_mid::eval, vec![scalar(txt("caf\u{e9}")), scalar(num(1.0)), scalar(num(n))]);
        assert_eq!(left, mid);
    }
}

#[test]
fn changing_case_again_changes_nothing() {
    for f in [func_lower::eval::<Strict>, func_proper::eval::<Strict>] {
        let once = eval_direct(f, vec![scalar(txt("tHIS is 3D o'NEIL"))]);
        assert_eq!(eval_direct(f, vec![scalar(once.duplicate())]), once);
    }
    let proper = eval_direct(func_proper::eval, vec![scalar(txt("tHIS is"))]);
    assert_eq!(eval_direct(func_lower::eval, vec![scalar(proper)]), txt("this is"));
}

#[test]
fn lower_keeps_characters_without_case() {
    let lower = |t: &str| eval_direct(func_lower::eval, vec![scalar(txt(t))]);
    assert_eq!(lower("A\u{4e2d}"), txt("a\u{4e2d}"));
    assert_eq!(lower("A\u{1F600}\u{3042}B"), txt("a\u{1F600}\u{3042}b"));
    assert_eq!(lower("A\u{c9}"), err(ErrorKind::Unsupported));
    assert_eq!(lower("A\u{e9}"), err(ErrorKind::Unsupported));
    assert_eq!(lower("\u{df}"), err(ErrorKind::Unsupported));
    assert_eq!(lower("A\u{138}"), err(ErrorKind::Unsupported));
    assert_eq!(lower("A\u{1D400}"), err(ErrorKind::Unsupported));
    assert_eq!(eval_direct(func_proper::eval, vec![scalar(txt("A\u{4e2d}"))]), err(ErrorKind::Unsupported));
    let own = || vec!['\u{2000}'];
    assert!(letters::is_cased_as('\u{2000}', false, false, &vec!['x'], &own()));
    assert!(letters::is_cased_as('\u{2000}', false, false, &own(), &vec!['\u{2000}', 'x']));
    assert!(letters::is_cased_as('\u{2000}', false, false, &vec![], &own()));
    assert!(letters::is_cased_as('\u{2000}', true, false, &own(), &own()));
    assert!(letters::is_cased_as('\u{2000}', false, true, &own(), &own()));
    assert!(!letters::is_cased_as('\u{2000}', false, false, &own(), &own()));
    assert!(!letters::is_cased_as('a', true, false, &vec!['a'], &vec!['A']));
}

#[test]
fn letters_outside_of_ascii_are_unsettled() {
    assert!(func_lower::is_unpinned_case('\u{c9}'));
    assert!(func_proper::is_unpinned('\u{4e2d}'));
    assert!(!func_lower::is_unpinned_case('\u{1F600}'));
    assert!(!func_proper::is_unpinned('Z'));
    assert!(letters::is_unsettled('\u{2000}', false, &vec!['x']));
    assert!(letters::is_unsettled('\u{2000}', true, &vec!['\u{2000}']));
    assert!(!letters::is_unsettled('\u{2000}', false, &vec!['\u{2000}']));
    assert!(!letters::is_unsettled('a', true, &vec!['a']));
}

// Dates and times.

#[test]
fn whole_days_do_not_change_the_hour() {
    for day in [0.0, 1.0, 45_000.0] {
        assert_eq!(eval_direct(func_hour::eval, vec![scalar(num(day + 0.875))]), num(21.0));
    }
}

#[test]
fn times_of_day_as_texts() {
    let seconds = |s: &str| func_hour::parse_time_of_day(Text::new(s).chars());
    assert_eq!(seconds("12:00 am"), Some(0));
    assert_eq!(seconds(" 12:30:15  PM "), Some(45_015));
    assert_eq!(seconds("6:45 PM"), Some(67_500));
    assert_eq!(seconds("7:05"), Some(25_500));
    assert_eq!(seconds("23:59:59"), Some(86_399));
    for bad in ["24:00", "0:30 pm", "13:00 AM", "7", "7:60", "7:05:60", "1:2:3:4", "7:", ":5", "-7:05", "4294967296:00", "", "6:45PM", "6:45am", "PM", "6:45 P M", "+6:45", "6 : 45", "6: 45 PM", "6:45: PM"] {
        assert_eq!(seconds(bad), None, "{bad}");
    }
    let (body, half) = func_hour::split_meridiem(Text::new("6:45 Pm").chars());
    assert_eq!((body.iter().collect::<String>(), half), ("6:45".to_string(), Some(func_hour::Meridiem::Pm)));
    let (body, half) = func_hour::split_meridiem(Text::new("m").chars());
    assert_eq!((body.iter().collect::<String>(), half), ("m".to_string(), None));
}

#[test]
fn months_at_the_ends_of_the_numberings() {
    let month = |serial: f64| eval_direct(func_month::eval, vec![scalar(num(serial))]);
    for (serial, m) in [(1.0, 1.0), (31.9, 1.0), (59.0, 2.0), (60.0, 2.0), (61.0, 3.0), (366.0, 12.0), (367.0, 1.0), (2_958_465.0, 12.0)] {
        assert_eq!(month(serial), num(m), "serial {serial}");
    }
    assert_eq!(month(-1.0), err(ErrorKind::Num));
    assert_eq!(month(2_958_466.0), err(ErrorKind::Num));
    assert_eq!(month(1e300), err(ErrorKind::Num));
}

#[test]
fn serial_numbers_of_the_two_numberings() {
    let date = |serial: i64, system: DateSystem| calendar::serial_to_ymd(serial, system);
    let expected = Ok(calendar::Date { year: 2020, month: 2, day: 29 });
    assert_eq!(date(43_890, DateSystem::From1900), expected);
    assert_eq!(date(43_890 - 1462, DateSystem::From1904), expected);
    assert_eq!(date(0, DateSystem::From1904), Ok(calendar::Date { year: 1904, month: 1, day: 1 }));
    assert_eq!(date(0, DateSystem::From1900), Err(calendar::DateError::JanuaryZero));
    assert_eq!(date(60, DateSystem::From1900), Ok(calendar::Date { year: 1900, month: 2, day: 29 }));
    assert_eq!(date(2_957_004, DateSystem::From1904), Err(calendar::DateError::OutOfRange));
}

#[test]
fn working_days_of_adjoining_spans_add_up() {
    let count = |start: f64, end: f64| {
        let holidays = column(&[43_838.0, 43_838.2, 43_841.0]);
        match eval_direct(func_networkdays::eval, vec![scalar(num(start)), scalar(num(end)), holidays]) {
            Value::Number(n) => double(n),
            other => panic!("expected a count, got {other:?}"),
        }
    };
    for mid in [43_831.0, 43_838.0, 43_850.0] {
        assert_eq!(count(43_830.0, mid) + count(mid + 1.0, 43_860.0), count(43_830.0, 43_860.0));
    }
    assert_eq!(count(43_843.0, 43_849.0), 5.0);
}
