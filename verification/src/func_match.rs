//! `MATCH(lookup_value, lookup_array, [match_type])`: the position, counted from
//! one, of a value in a single row or column.
//!
//! With match type 1, the default, the vector is taken to ascend and the
//! position is that of the largest value at or below the key; with -1 it is
//! taken to descend and the position is that of the smallest value at or above
//! the key; with 0 it is scanned for the first equal value. Any other match type
//! is refused, and so is a rectangle of several rows and columns. Of a range of
//! whole columns or rows only the lines in use are searched, and the position is
//! that of the line in the range.

use crate::args::{line_views, ready, row_views, CallArgs, CallModel};
use crate::grid::{column, column_of, line_heads, lines_width, row_copy, unplaced, width, width_of};
use crate::model::{EvalContext, Standing, ValueModel};
use crate::number::{counted, one, Number};
use crate::search::{
    agrees, ascending_result, ascending_search, descending_result, descending_search,
    exact_result, exact_search, law_ascending_finds_largest, law_descending_finds_smallest, law_exact_finds_first_equal, told_apart,
};
use crate::value::{views, ErrorKind, Val, Value};
use vstd::prelude::*;

verus! {

/// What a match type asks for.
#[derive(Clone, Copy, Debug, PartialEq, Eq, Structural)]
pub enum Mode {
    Exact,
    Ascending,
    Descending,
}

/// The mode that a match type stands for.
pub open spec fn mode_of(match_type: Number) -> Option<Mode> {
    if match_type.units() == 0 {
        Some(Mode::Exact)
    } else if match_type.units() == one() {
        Some(Mode::Ascending)
    } else if match_type.units() == -one() {
        Some(Mode::Descending)
    } else {
        None
    }
}

/// The outcome of a search in the given mode.
pub open spec fn search_result(m: &ValueModel, cells: Seq<Val>, mode: Mode, key: Val) -> Result<
    Option<int>,
    ErrorKind,
> {
    match mode {
        Mode::Exact => exact_result(m, cells, key),
        Mode::Ascending => ascending_result(m, cells, key),
        Mode::Descending => descending_result(m, cells, key),
    }
}

/// The result of a search of a vector: the position of its answer.
pub open spec fn vector_result(m: &ValueModel, cells: Seq<Val>, mode: Mode, key: Val) -> Val {
    match search_result(m, cells, mode, key) {
        Ok(Some(i)) => Val::Number(counted((i + 1) as nat)),
        Ok(None) => Val::Error(ErrorKind::Na),
        Err(k) => Val::Error(k),
    }
}

/// The result of a search of rows: of a single row, or of rows of one cell.
pub open spec fn rows_result(m: &ValueModel, rows: Seq<Seq<Val>>, mode: Mode, key: Val) -> Val {
    if rows.len() > 1 && width_of(rows) > 1 {
        Val::Error(ErrorKind::Unsupported)
    } else {
        let flat = if rows.len() == 0 {
            Seq::empty()
        } else if rows.len() == 1 {
            rows[0]
        } else {
            column(rows, 0)
        };
        if flat.len() == 0 {
            Val::Error(ErrorKind::Na)
        } else {
            vector_result(m, flat, mode, key)
        }
    }
}

/// The result of a search of the lines in use: the position of the line in the range.
pub open spec fn lines_result(
    m: &ValueModel,
    lines: Seq<(u32, Seq<Val>)>,
    mode: Mode,
    key: Val,
) -> Val {
    match search_result(m, column(unplaced(lines), 0), mode, key) {
        Ok(Some(i)) => Val::Number(counted((lines[i].0 + 1) as nat)),
        Ok(None) => Val::Error(ErrorKind::Na),
        Err(k) => Val::Error(k),
    }
}

/// The result over the rows in use of whole columns. A blank key finds nothing
/// to go by in an empty column, and its match counts only where every row before
/// it is in use.
pub open spec fn used_rows_result(
    m: &ValueModel,
    lines: Seq<(u32, Seq<Val>)>,
    mode: Mode,
    key: Val,
) -> Val {
    let w = width_of(unplaced(lines));
    if w == 0 {
        Val::Error(
            if key is Blank {
                ErrorKind::Unsupported
            } else {
                ErrorKind::Na
            },
        )
    } else if w > 1 {
        Val::Error(ErrorKind::Unsupported)
    } else {
        match search_result(m, column(unplaced(lines), 0), mode, key) {
            Ok(Some(i)) => if key is Blank && lines[i].0 != i {
                Val::Error(ErrorKind::Unsupported)
            } else {
                lines_result(m, lines, mode, key)
            },
            _ => lines_result(m, lines, mode, key),
        }
    }
}

/// The result over the columns in use of whole rows. A blank key is refused.
pub open spec fn used_cols_result(
    m: &ValueModel,
    lines: Seq<(u32, Seq<Val>)>,
    mode: Mode,
    key: Val,
) -> Val {
    let h = width_of(unplaced(lines));
    if key is Blank || h > 1 {
        Val::Error(ErrorKind::Unsupported)
    } else if h == 0 {
        Val::Error(ErrorKind::Na)
    } else {
        lines_result(m, lines, mode, key)
    }
}

/// The result of the call.
pub open spec fn result(m: &ValueModel, call: CallModel) -> Val {
    let key = call.scalar(0);
    let match_type = if call.args.len() >= 3 {
        m.numeric(call.scalar(2))
    } else {
        Ok(counted(1))
    };
    match (key.error(), match_type) {
        (Some(k), _) => Val::Error(k),
        (None, Err(k)) => Val::Error(k),
        (None, Ok(t)) => match mode_of(t) {
            None => Val::Error(ErrorKind::Unsupported),
            Some(mode) => match (call.arg(1).rows, call.arg(1).used_rows, call.arg(1).used_cols) {
                (Ok(rows), _, _) => rows_result(m, rows, mode, key),
                (Err(_), Ok(lines), _) => used_rows_result(m, lines, mode, key),
                (Err(_), Err(_), Ok(lines)) => used_cols_result(m, lines, mode, key),
                (Err(_), Err(_), Err(k)) => Val::Error(k),
            },
        },
    }
}

fn mode_for(match_type: Number) -> (r: Option<Mode>)
    ensures
        r == mode_of(match_type),
{
    if match_type.is_zero() {
        return Some(Mode::Exact);
    }
    if match_type.same(Number::one()) {
        return Some(Mode::Ascending);
    }
    if match_type.same(Number::minus_one()) {
        return Some(Mode::Descending);
    }
    None
}

/// Searches a vector in the given mode.
pub fn search(m: &ValueModel, flat: &Vec<Value>, mode: Mode, key: &Value) -> (r: Result<
    Option<usize>,
    ErrorKind,
>)
    ensures
        agrees(r, search_result(m, views(flat@), mode, key@)),
        r matches Ok(Some(i)) ==> i < flat@.len(),
{
    proof {
        lemma_answer_in_range(m, views(flat@), mode, key@);
    }
    match mode {
        Mode::Exact => exact_search(m, flat, key),
        Mode::Ascending => ascending_search(m, flat, key),
        Mode::Descending => descending_search(m, flat, key),
    }
}

/// A search answers with a position of the vector.
proof fn lemma_answer_in_range(m: &ValueModel, cells: Seq<Val>, mode: Mode, key: Val)
    ensures
        search_result(m, cells, mode, key) matches Ok(Some(i)) ==> 0 <= i < cells.len(),
{
    match mode {
        Mode::Exact => {
            crate::search::law_scan_finds_first(
                cells.map_values(|c: Val| crate::search::lookup_eq(m, c, key)),
                0,
            );
        },
        Mode::Ascending => {
            crate::search::lemma_bisect_answer(
                cells.map_values(|c: Val| crate::search::at_or_below(m, c, key)),
                0,
                cells.len() - 1,
                None,
            );
        },
        Mode::Descending => {
            crate::search::lemma_bisect_answer(
                cells.map_values(|c: Val| crate::search::at_or_above(m, c, key)),
                0,
                cells.len() - 1,
                None,
            );
        },
    }
}

/// Searches the rows in use of a range of whole columns.
pub fn match_used_extent(
    m: &ValueModel,
    lines: &Vec<(u32, Vec<Value>)>,
    mode: Mode,
    key: &Value,
) -> (v: Value)
    ensures
        v@ == used_rows_result(m, line_views(lines@), mode, key@),
{
    let w = lines_width(lines);
    if w == 0 {
        return if key.is_blank() {
            Value::Error(ErrorKind::Unsupported)
        } else {
            Value::Error(ErrorKind::Na)
        };
    }
    if w > 1 {
        return Value::Error(ErrorKind::Unsupported);
    }
    let flat = line_heads(lines);
    assert(flat@.len() == views(flat@).len());
    match search(m, &flat, mode, key) {
        Ok(Some(i)) => {
            if key.is_blank() && lines[i].0 as usize != i {
                return Value::Error(ErrorKind::Unsupported);
            }
            Value::Number(Number::from_count(lines[i].0 as u128 + 1))
        },
        Ok(None) => Value::Error(ErrorKind::Na),
        Err(k) => Value::Error(k),
    }
}

/// Searches the columns in use of a range of whole rows.
pub fn match_used_extent_cols(
    m: &ValueModel,
    lines: &Vec<(u32, Vec<Value>)>,
    mode: Mode,
    key: &Value,
) -> (v: Value)
    ensures
        v@ == used_cols_result(m, line_views(lines@), mode, key@),
{
    if key.is_blank() {
        return Value::Error(ErrorKind::Unsupported);
    }
    let h = lines_width(lines);
    if h == 0 {
        return Value::Error(ErrorKind::Na);
    }
    if h > 1 {
        return Value::Error(ErrorKind::Unsupported);
    }
    let flat = line_heads(lines);
    assert(flat@.len() == views(flat@).len());
    match search(m, &flat, mode, key) {
        Ok(Some(i)) => Value::Number(Number::from_count(lines[i].0 as u128 + 1)),
        Ok(None) => Value::Error(ErrorKind::Na),
        Err(k) => Value::Error(k),
    }
}

fn match_rows(m: &ValueModel, rows: &Vec<Vec<Value>>, mode: Mode, key: &Value) -> (v: Value)
    ensures
        v@ == rows_result(m, row_views(rows@), mode, key@),
{
    let flat: Vec<Value> = if rows.len() == 0 {
        let none: Vec<Value> = Vec::new();
        assert(views(none@) == Seq::<Val>::empty());
        none
    } else if rows.len() == 1 {
        row_copy(&rows[0])
    } else if width(rows) <= 1 {
        column_of(rows, 0)
    } else {
        return Value::Error(ErrorKind::Unsupported);
    };
    assert(flat@.len() == views(flat@).len());
    if flat.len() == 0 {
        return Value::Error(ErrorKind::Na);
    }
    match search(m, &flat, mode, key) {
        Ok(Some(i)) => Value::Number(Number::from_count(i as u128 + 1)),
        Ok(None) => Value::Error(ErrorKind::Na),
        Err(k) => Value::Error(k),
    }
}

/// Evaluates the call.
pub fn eval<A: CallArgs>(ctx: &EvalContext, args: &A) -> (v: Value)
    requires
        ready(args),
    ensures
        v@ == result(&ctx.model, args.call()),
{
    let key = args.eval_scalar(0);
    if let Some(k) = key.error() {
        return Value::Error(k);
    }
    let match_type = if args.count() >= 3 {
        match ctx.model.to_number(&args.eval_scalar(2)) {
            Ok(n) => n,
            Err(k) => {
                return Value::Error(k);
            },
        }
    } else {
        Number::one()
    };
    let mode = match mode_for(match_type) {
        Some(mode) => mode,
        None => {
            return Value::Error(ErrorKind::Unsupported);
        },
    };
    match args.rows(1) {
        Ok(rows) => match_rows(&ctx.model, &rows, mode, &key),
        Err(_) => match args.used_rows(1) {
            Ok(lines) => match_used_extent(&ctx.model, &lines, mode, &key),
            Err(_) => match args.used_cols(1) {
                Ok(lines) => match_used_extent_cols(&ctx.model, &lines, mode, &key),
                Err(k) => Value::Error(k),
            },
        },
    }
}

/// The law of whole columns: where every row of a column of one cell each is in use,
/// the column in use is searched as the bounded column is, for any key. Only a blank
/// key in a column without rows is answered otherwise.
pub proof fn law_used_rows_search_as_bounded(
    m: &ValueModel,
    lines: Seq<(u32, Seq<Val>)>,
    mode: Mode,
    key: Val,
)
    requires
        lines.len() > 0 || !(key is Blank),
        forall|i: int| 0 <= i < lines.len() ==> (#[trigger] lines[i]).0 == i && lines[i].1.len() == 1,
    ensures
        used_rows_result(m, lines, mode, key) == rows_result(m, unplaced(lines), mode, key),
{
    let rows = unplaced(lines);
    if rows.len() > 0 {
        crate::grid::lemma_width(rows);
        let i = choose|i: int| 0 <= i < rows.len() && (#[trigger] rows[i]).len() == width_of(rows);
        assert(rows[i] == lines[i].1);
        assert(width_of(rows) == 1);
        if rows.len() == 1 {
            assert(rows[0] == lines[0].1);
            assert(column(rows, 0) == rows[0]);
        }
        lemma_answer_in_range(m, column(rows, 0), mode, key);
    }
}

/// The law of positions: the position that an exact search answers with is the first
/// whose entry is equal to the key.
pub proof fn law_exact_position_is_first(m: &ValueModel, cells: Seq<Val>, key: Val, i: int)
    requires
        search_result(m, cells, Mode::Exact, key) == Ok::<Option<int>, ErrorKind>(Some(i)),
    ensures
        0 <= i < cells.len(),
        crate::search::lookup_eq(m, cells[i], key) == Ok::<crate::search::LookupEq, ErrorKind>(
            crate::search::LookupEq::Match,
        ),
        forall|j: int|
            0 <= j < i ==> crate::search::lookup_eq(m, #[trigger] cells[j], key) == Ok::<
                crate::search::LookupEq,
                ErrorKind,
            >(crate::search::LookupEq::NoMatch),
{
    let entries = cells.map_values(|c: Val| crate::search::lookup_eq(m, c, key));
    crate::search::law_scan_finds_first(entries, 0);
    assert(entries[i] == crate::search::lookup_eq(m, cells[i], key));
    assert forall|j: int| 0 <= j < i implies crate::search::lookup_eq(m, #[trigger] cells[j], key) == Ok::<
        crate::search::LookupEq,
        ErrorKind,
    >(crate::search::LookupEq::NoMatch) by {
        assert(entries[j] == crate::search::lookup_eq(m, cells[j], key));
    }
}

/// The match type of the call is the number with the given units; without one it is one.
pub open spec fn typed(m: &ValueModel, call: CallModel, units: int) -> bool {
    if call.args.len() >= 3 {
        m.numeric(call.scalar(2)) matches Ok(t) && t.units() == units
    } else {
        units == one()
    }
}

/// The entries of the second argument: of a single row, or of more rows of one cell each.
pub open spec fn searches(call: CallModel, cells: Seq<Val>) -> bool {
    call.arg(1).rows matches Ok(rows) && crate::func_lookup::entries_are(rows, cells)
}

/// The result is position `p`, counted from one, or that there is none where `p` is zero.
pub open spec fn answers(v: Val, p: int) -> bool {
    if p == 0 {
        v == Val::Error(ErrorKind::Na)
    } else {
        v == Val::Number(counted(p as nat))
    }
}

proof fn lemma_searched(m: &ValueModel, call: CallModel, cells: Seq<Val>, units: int)
    requires
        searches(call, cells),
        cells.len() > 0,
        typed(m, call, units),
        call.scalar(0).error() is None,
    ensures
        units == 0 ==> result(m, call) == vector_result(m, cells, Mode::Exact, call.scalar(0)),
        units == one() ==> result(m, call) == vector_result(m, cells, Mode::Ascending, call.scalar(0)),
        units == -one() ==> result(m, call) == vector_result(m, cells, Mode::Descending, call.scalar(0)),
{
    crate::number::lemma_counted_exactly(1);
    crate::number::lemma_whole_ones(1);
    let rows = call.arg(1).rows->Ok_0;
    if rows.len() > 1 {
        crate::grid::lemma_rectangle(rows, 1);
        assert forall|r: int| 0 <= r < rows.len() implies #[trigger] column(rows, 0)[r] == rows[r][0] by {
            assert(rows[r].len() == 1);
        }
        assert(cells =~= column(rows, 0));
    }
}

/// The law of the exact match: with match type zero, for a key that is no blank and holds
/// no wildcard, the result is the position of the first equal entry, and there is none
/// where none is equal.
pub proof fn law_exact_match_is_first_equal(m: &ValueModel, call: CallModel, cells: Seq<Val>, i: int)
    requires
        searches(call, cells),
        cells.len() > 0,
        typed(m, call, 0),
        !(call.scalar(0) is Blank),
        !(call.scalar(0) is Error),
        call.scalar(0) matches Val::Text(t) ==> !t.contains('*') && !t.contains('?'),
        0 <= i <= cells.len(),
        forall|j: int| 0 <= j < i ==> told_apart(m, #[trigger] cells[j], call.scalar(0), false),
        i < cells.len() ==> told_apart(m, cells[i], call.scalar(0), true),
    ensures
        answers(
            result(m, call),
            if i < cells.len() {
                i + 1
            } else {
                0
            },
        ),
{
    lemma_searched(m, call, cells, 0);
    law_exact_finds_first_equal(m, cells, call.scalar(0), i);
}

/// The law of the nearest match: with match type one, of entries without blanks of which
/// the first `cut` are at or below the key and the others above it, the result is position
/// `cut`; with match type minus one, so it is of entries of which the first `cut` are at or
/// above the key and the others below it. Where `cut` is zero there is none.
pub proof fn law_nearest_match_is_last_before_cut(m: &ValueModel, call: CallModel, cells: Seq<Val>, cut: int)
    requires
        searches(call, cells),
        cells.len() > 0,
        !(call.scalar(0) is Blank),
        !(call.scalar(0) is Error),
        0 <= cut <= cells.len(),
        forall|i: int|
            0 <= i < cells.len() ==> !(#[trigger] cells[i] is Blank) && m.order(cells[i], call.scalar(0)) is Ok,
    ensures
        typed(m, call, one()) && (forall|i: int|
            0 <= i < cells.len() ==> (i < cut <==> m.order(#[trigger] cells[i], call.scalar(0))->Ok_0 != Standing::Above))
            ==> answers(result(m, call), cut),
        typed(m, call, -one()) && (forall|i: int|
            0 <= i < cells.len() ==> (i < cut <==> m.order(#[trigger] cells[i], call.scalar(0))->Ok_0 != Standing::Below))
            ==> answers(result(m, call), cut),
{
    let key = call.scalar(0);
    if typed(m, call, one()) && (forall|i: int|
        0 <= i < cells.len() ==> (i < cut <==> m.order(#[trigger] cells[i], key)->Ok_0 != Standing::Above)) {
        lemma_searched(m, call, cells, one());
        law_ascending_finds_largest(m, cells, key, cut);
    }
    if typed(m, call, -one()) && (forall|i: int|
        0 <= i < cells.len() ==> (i < cut <==> m.order(#[trigger] cells[i], key)->Ok_0 != Standing::Below)) {
        lemma_searched(m, call, cells, -one());
        law_descending_finds_smallest(m, cells, key, cut);
    }
}

/// The lines hold one cell each.
pub open spec fn one_cell_each(lines: Seq<(u32, Seq<Val>)>) -> bool {
    forall|i: int| 0 <= i < lines.len() ==> (#[trigger] lines[i]).1.len() == 1
}

/// The law of lines in use: over whole columns, or whole rows, of one cell a line, a key
/// that is no blank is searched for in the lines in use, and where the bounded column of
/// their cells would answer with position `i + 1`, the result is the place of line `i` in
/// the range, counted from one; any other answer is the same.
pub proof fn law_position_is_that_of_the_line(
    m: &ValueModel,
    call: CallModel,
    bounded: CallModel,
    lines: Seq<(u32, Seq<Val>)>,
    i: int,
)
    requires
        call.arg(1).rows is Err,
        call.arg(1).used_rows == Ok::<Seq<(u32, Seq<Val>)>, ErrorKind>(lines) || (call.arg(1).used_rows is Err
            && call.arg(1).used_cols == Ok::<Seq<(u32, Seq<Val>)>, ErrorKind>(lines)),
        one_cell_each(lines),
        0 < lines.len() < 0x10_0000_0000_0000,
        !(call.scalar(0) is Blank),
        bounded.args.len() == call.args.len(),
        bounded.scalar(0) == call.scalar(0),
        bounded.scalar(2) == call.scalar(2),
        searches(bounded, Seq::new(lines.len(), |j: int| lines[j].1[0])),
    ensures
        0 <= i < lines.len() && result(m, bounded) == Val::Number(counted((i + 1) as nat)) ==> result(m, call)
            == Val::Number(counted((lines[i].0 + 1) as nat)),
        result(m, bounded) is Error ==> result(m, call) == result(m, bounded),
{
    let key = call.scalar(0);
    let cells = Seq::new(lines.len(), |j: int| lines[j].1[0]);
    let rows = bounded.arg(1).rows->Ok_0;
    crate::number::lemma_counted_exactly(1);
    let flat = column(unplaced(lines), 0);
    assert forall|j: int| 0 <= j < lines.len() implies #[trigger] flat[j] == cells[j] && (#[trigger] unplaced(lines)[j]).len()
        == 1 by {
        assert(lines[j].1.len() == 1);
    }
    assert(flat =~= cells);
    crate::grid::lemma_rectangle(unplaced(lines), 1);
    if rows.len() > 1 {
        crate::grid::lemma_rectangle(rows, 1);
        assert forall|r: int| 0 <= r < rows.len() implies #[trigger] column(rows, 0)[r] == rows[r][0] by {
            assert(rows[r].len() == 1);
        }
        assert(cells =~= column(rows, 0));
    }
    let t = if call.args.len() >= 3 {
        m.numeric(call.scalar(2))
    } else {
        Ok(counted(1))
    };
    if key.error() is None && t is Ok && mode_of(t->Ok_0) is Some {
        let mode = mode_of(t->Ok_0)->0;
        lemma_answer_in_range(m, cells, mode, key);
        if search_result(m, cells, mode, key) is Ok && search_result(m, cells, mode, key)->Ok_0 is Some {
            let p = search_result(m, cells, mode, key)->Ok_0->0;
            crate::number::lemma_counted_exactly((p + 1) as nat);
            if 0 <= i < lines.len() {
                crate::number::lemma_counted_exactly((i + 1) as nat);
                crate::number::lemma_whole_ones(p + 1);
                crate::number::lemma_whole_ones(i + 1);
            }
        }
    }
}

/// The law of the refusals: an error for a key comes first, then one for the match type; a
/// match type other than one, zero and minus one is refused, and so is a range of several
/// rows and columns. A range that cannot be walked in any way decides with its error.
pub proof fn law_refusals_come_in_order(m: &ValueModel, call: CallModel, w: int)
    ensures
        call.scalar(0) matches Val::Error(k) ==> result(m, call) == Val::Error(k),
        !(call.scalar(0) is Error) && call.args.len() >= 3 ==> match m.numeric(call.scalar(2)) {
            Err(k) => result(m, call) == Val::Error(k),
            Ok(t) => t.units() != 0 && t.units() != one() && t.units() != -one() ==> result(m, call) == Val::Error(
                ErrorKind::Unsupported,
            ),
        },
        !(call.scalar(0) is Error) && (typed(m, call, 0) || typed(m, call, one()) || typed(m, call, -one())) ==> {
            &&& call.arg(1).rows matches Ok(rows) ==> (rows.len() > 1 && w > 1 && crate::func_lookup::full_rows(rows, w)
                ==> result(m, call) == Val::Error(ErrorKind::Unsupported))
            &&& call.arg(1).rows is Err && call.arg(1).used_rows is Err ==> (call.arg(1).used_cols matches Err(k) ==> result(
                m,
                call,
            ) == Val::Error(k))
        },
{
    crate::number::lemma_counted_exactly(1);
    crate::number::lemma_whole_ones(1);
    if call.arg(1).rows is Ok {
        let rows = call.arg(1).rows->Ok_0;
        if rows.len() > 1 && w > 1 && crate::func_lookup::full_rows(rows, w) {
            crate::grid::lemma_rectangle(rows, w as nat);
        }
    }
}

/// The lines hold `w` cells each.
pub open spec fn cells_each(lines: Seq<(u32, Seq<Val>)>, w: nat) -> bool {
    forall|i: int| 0 <= i < lines.len() ==> (#[trigger] lines[i]).1.len() == w
}

/// The call looks at its match type and key and finds nothing to refuse.
pub open spec fn goes_to_search(m: &ValueModel, call: CallModel) -> bool {
    !(call.scalar(0) is Error) && (typed(m, call, 0) || typed(m, call, one()) || typed(m, call, -one()))
}

/// The law of lines that are not searched: lines of several cells are refused. A column
/// without lines in use has no match, for a blank key is refused, and over whole rows a
/// blank key is always refused. A bounded range without cells has no match.
pub proof fn law_what_is_not_searched(m: &ValueModel, call: CallModel, lines: Seq<(u32, Seq<Val>)>, w: nat)
    requires
        goes_to_search(m, call),
    ensures
        call.arg(1).rows is Err && call.arg(1).used_rows == Ok::<Seq<(u32, Seq<Val>)>, ErrorKind>(lines) ==> {
            &&& lines.len() > 0 && w > 1 && cells_each(lines, w) ==> result(m, call) == Val::Error(ErrorKind::Unsupported)
            &&& lines.len() == 0 ==> result(m, call) == Val::Error(
                if call.scalar(0) is Blank {
                    ErrorKind::Unsupported
                } else {
                    ErrorKind::Na
                },
            )
        },
        call.arg(1).rows is Err && call.arg(1).used_rows is Err && call.arg(1).used_cols == Ok::<
            Seq<(u32, Seq<Val>)>,
            ErrorKind,
        >(lines) ==> {
            &&& lines.len() > 0 && w > 1 && cells_each(lines, w) ==> result(m, call) == Val::Error(ErrorKind::Unsupported)
            &&& call.scalar(0) is Blank ==> result(m, call) == Val::Error(ErrorKind::Unsupported)
            &&& lines.len() == 0 && !(call.scalar(0) is Blank) ==> result(m, call) == Val::Error(ErrorKind::Na)
        },
        call.arg(1).rows matches Ok(rows) ==> (rows.len() == 0 || (rows.len() == 1 && rows[0].len() == 0) ==> result(m, call)
            == Val::Error(ErrorKind::Na)),
{
    crate::number::lemma_counted_exactly(1);
    crate::number::lemma_whole_ones(1);
    if lines.len() > 0 && cells_each(lines, w) {
        assert forall|i: int| 0 <= i < lines.len() implies (#[trigger] unplaced(lines)[i]).len() == w by {
            assert(lines[i].1.len() == w);
        }
        crate::grid::lemma_rectangle(unplaced(lines), w);
    }
}

/// The law of blank keys in columns: where the rows in use are of one cell each, a blank key
/// that the bounded column of their cells answers with position `i + 1` is answered so only
/// where row `i` in use is row `i` of the column; else it is refused.
pub proof fn law_blank_key_needs_rows_in_use(
    m: &ValueModel,
    call: CallModel,
    bounded: CallModel,
    lines: Seq<(u32, Seq<Val>)>,
    i: int,
)
    requires
        call.arg(1).rows is Err,
        call.arg(1).used_rows == Ok::<Seq<(u32, Seq<Val>)>, ErrorKind>(lines),
        one_cell_each(lines),
        0 < lines.len() < 0x10_0000_0000_0000,
        call.scalar(0) is Blank,
        bounded.args.len() == call.args.len(),
        bounded.scalar(0) == call.scalar(0),
        bounded.scalar(2) == call.scalar(2),
        searches(bounded, Seq::new(lines.len(), |j: int| lines[j].1[0])),
        0 <= i < lines.len(),
        result(m, bounded) == Val::Number(counted((i + 1) as nat)),
    ensures
        result(m, call) == (if lines[i].0 == i {
            result(m, bounded)
        } else {
            Val::Error(ErrorKind::Unsupported)
        }),
{
    let key = call.scalar(0);
    let cells = Seq::new(lines.len(), |j: int| lines[j].1[0]);
    let rows = bounded.arg(1).rows->Ok_0;
    let flat = column(unplaced(lines), 0);
    assert forall|j: int| 0 <= j < lines.len() implies #[trigger] flat[j] == cells[j] && (#[trigger] unplaced(lines)[j]).len()
        == 1 by {
        assert(lines[j].1.len() == 1);
    }
    assert(flat =~= cells);
    crate::grid::lemma_rectangle(unplaced(lines), 1);
    if rows.len() > 1 {
        crate::grid::lemma_rectangle(rows, 1);
        assert forall|r: int| 0 <= r < rows.len() implies #[trigger] column(rows, 0)[r] == rows[r][0] by {
            assert(rows[r].len() == 1);
        }
        assert(cells =~= column(rows, 0));
    }
    let t = if call.args.len() >= 3 {
        m.numeric(call.scalar(2))
    } else {
        Ok(counted(1))
    };
    let mode = mode_of(t->Ok_0)->0;
    lemma_answer_in_range(m, cells, mode, key);
    let p = search_result(m, cells, mode, key)->Ok_0->0;
    crate::number::lemma_counted_exactly((p + 1) as nat);
    crate::number::lemma_counted_exactly((i + 1) as nat);
    crate::number::lemma_whole_ones(p + 1);
    crate::number::lemma_whole_ones(i + 1);
}

} // verus!
