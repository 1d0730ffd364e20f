//! `HLOOKUP(lookup_value, table_array, row_index_num, [range_lookup])`: searches
//! the first row of a table and hands back the cell of the same column in the
//! chosen row.
//!
//! The search bisects, for the largest value at or below the key, unless
//! `range_lookup` is false, which asks for the first equal value. A row index
//! with a fraction is refused; one below one is a value error, and one past the
//! table a reference error. Of a table of whole columns or rows only the cells of
//! the first row that the search looks at and the cell of the result are read.

use crate::args::{row_views, ArgModel, CallArgs, CallModel, RefRect};
use crate::grid::{cell, row_entry};
use crate::model::{logical, to_bool, EvalContext, Standing, ValueModel};
use crate::number::{lemma_one_or_more, one, Number};
use crate::search::{
    LookupEq, agrees, approx_touches_blank, ascending_result, ascending_search, at_or_below,
    bisect, exact_eq, exact_result, first_match, has_wildcard, lemma_bisect_answer, lookup_eq, probed, scanned, told_apart, wildcard,
};
use crate::value::{views, ErrorKind, Val, Value};
use vstd::prelude::*;

verus! {

/// The outcome of the search of the first row.
pub open spec fn row_search(m: &ValueModel, row: Seq<Val>, key: Val, approximate: bool) -> Result<
    Option<int>,
    ErrorKind,
> {
    if approximate {
        ascending_result(m, row, key)
    } else {
        exact_result(m, row, key)
    }
}

/// The result over a bounded table, where `row` is counted from one.
pub open spec fn table_result(
    m: &ValueModel,
    rows: Seq<Seq<Val>>,
    key: Val,
    row: int,
    approximate: bool,
) -> Val {
    if row > rows.len() {
        Val::Error(ErrorKind::Ref)
    } else if rows[0].len() == 0 {
        Val::Error(ErrorKind::Na)
    } else {
        match row_search(m, rows[0], key, approximate) {
            Ok(Some(i)) => cell(rows, row - 1, i),
            Ok(None) => Val::Error(ErrorKind::Na),
            Err(k) => Val::Error(k),
        }
    }
}

/// The cell of the sheet, or a blank where the argument does not cover it.
pub open spec fn sheet_cell(arg: ArgModel, row: int, col: int) -> Val {
    match (arg.sheet)(row as u32, col as u32) {
        Some(v) => v,
        None => Val::Blank,
    }
}

/// The first row of the rectangle.
pub open spec fn top_row(arg: ArgModel, rect: RefRect) -> Seq<Val> {
    Seq::new(rect.width as nat, |i: int| sheet_cell(arg, rect.row as int, rect.col + i))
}

/// The result over a table of whole columns or rows, whose walk was refused with
/// `refused`.
pub open spec fn whole_axis_result(
    m: &ValueModel,
    arg: ArgModel,
    key: Val,
    row: int,
    approximate: bool,
    refused: ErrorKind,
) -> Val {
    match arg.extent {
        None => Val::Error(refused),
        Some(rect) => if row > rect.height {
            Val::Error(ErrorKind::Ref)
        } else if rect.width == 0 {
            Val::Error(ErrorKind::Na)
        } else {
            match row_search(m, top_row(arg, rect), key, approximate) {
                Ok(Some(i)) => sheet_cell(arg, rect.row + row - 1, rect.col + i),
                Ok(None) => Val::Error(ErrorKind::Na),
                Err(k) => Val::Error(k),
            }
        },
    }
}

/// The search of the first row looks at position `i`.
pub open spec fn looks_at(m: &ValueModel, row: Seq<Val>, key: Val, approximate: bool, i: int) -> bool {
    if approximate {
        probed(row.map_values(|c: Val| at_or_below(m, c, key)), 0, row.len() - 1, i)
    } else {
        !has_wildcard(key) && scanned(row.map_values(|c: Val| lookup_eq(m, c, key)), i)
    }
}

/// The cells of the sheet that are read over a table of whole columns or rows: those
/// of its first row that the search looks at, and the one in the chosen row of the
/// column found.
pub open spec fn reads(
    m: &ValueModel,
    arg: ArgModel,
    key: Val,
    row: int,
    approximate: bool,
    r: u32,
    c: u32,
) -> bool {
    arg.extent matches Some(rect) && row <= rect.height && ((r == rect.row && looks_at(
        m,
        top_row(arg, rect),
        key,
        approximate,
        c - rect.col,
    )) || (row_search(m, top_row(arg, rect), key, approximate) matches Ok(Some(i)) && r == rect.row + row - 1
        && c == rect.col + i))
}

/// The key is no error, and the row index is one that a table can have: a whole
/// number of at least one.
pub open spec fn row_given(m: &ValueModel, call: CallModel) -> bool {
    call.scalar(0).error() is None && (m.numeric(call.scalar(2)) matches Ok(index) && index.whole()
        && index.units() >= one())
}

/// Whether the search bisects.
pub open spec fn approximates(call: CallModel) -> Result<bool, ErrorKind> {
    if call.args.len() >= 4 {
        logical(call.scalar(3))
    } else {
        Ok(true)
    }
}

/// The arguments that the call evaluates: the key, the row index where the key is no
/// error, how to search where the row index is one that a table can have, and the
/// table where all of these are in order.
pub open spec fn forces(m: &ValueModel, call: CallModel, i: int) -> bool {
    ||| i == 0
    ||| i == 2 && call.scalar(0).error() is None
    ||| i == 3 && call.args.len() >= 4 && row_given(m, call)
    ||| i == 1 && row_given(m, call) && approximates(call) is Ok
}

/// The cells of the sheet that the call reads: none unless its table is one of whole
/// columns or rows.
pub open spec fn call_reads(m: &ValueModel, call: CallModel, r: u32, c: u32) -> bool {
    row_given(m, call) && call.arg(1).rows is Err && (approximates(call) matches Ok(approximate) && reads(
        m,
        call.arg(1),
        call.scalar(0),
        m.numeric(call.scalar(2))->Ok_0.units() / one(),
        approximate,
        r,
        c,
    ))
}

/// The result of the call.
pub open spec fn result(m: &ValueModel, call: CallModel) -> Val {
    let key = call.scalar(0);
    match (key.error(), m.numeric(call.scalar(2))) {
        (Some(k), _) => Val::Error(k),
        (None, Err(k)) => Val::Error(k),
        (None, Ok(index)) => if !index.whole() {
            Val::Error(ErrorKind::Unsupported)
        } else if index.units() < one() {
            Val::Error(ErrorKind::Value)
        } else {
            let row = index.units() / one();
            match approximates(call) {
                Err(k) => Val::Error(k),
                Ok(approximate) => match call.arg(1).rows {
                    Ok(rows) => table_result(m, rows, key, row, approximate),
                    Err(k) => whole_axis_result(m, call.arg(1), key, row, approximate, k),
                },
            }
        },
    }
}

/// A search answers with a column of the row.
proof fn lemma_column_in_row(m: &ValueModel, row: Seq<Val>, key: Val, approximate: bool)
    ensures
        row_search(m, row, key, approximate) matches Ok(Some(i)) ==> 0 <= i < row.len(),
{
    crate::search::law_scan_finds_first(row.map_values(|c: Val| lookup_eq(m, c, key)), 0);
    lemma_bisect_answer(row.map_values(|c: Val| at_or_below(m, c, key)), 0, row.len() - 1, None);
}

fn search_row(m: &ValueModel, row: &Vec<Value>, key: &Value, approximate: bool) -> (r: Result<
    Option<usize>,
    ErrorKind,
>)
    ensures
        agrees(r, row_search(m, views(row@), key@, approximate)),
        r matches Ok(Some(i)) ==> i < row@.len(),
{
    let ghost cells = views(row@);
    proof {
        assert(cells.len() == row@.len());
        lemma_column_in_row(m, cells, key@, approximate);
    }
    if approximate {
        ascending_search(m, row, key)
    } else {
        crate::search::exact_search(m, row, key)
    }
}

fn sheet_value<A: CallArgs>(args: &A, row: u32, col: u32) -> (v: Value)
    requires
        args.readable(1, row, col),
    ensures
        v@ == sheet_cell(args.call().arg(1), row as int, col as int),
{
    match args.cell_at(1, row, col) {
        Some(v) => v,
        None => Value::Blank,
    }
}

/// Scans the first row of the rectangle for the first cell that is equal to the key,
/// and reads no cell after it.
pub fn exact_search<A: CallArgs>(m: &ValueModel, args: &A, rect: RefRect, key: &Value) -> (r: Result<
    Option<usize>,
    ErrorKind,
>)
    requires
        rect.on_sheet(),
        forall|c: u32|
            looks_at(m, top_row(args.call().arg(1), rect), key@, false, c - rect.col) ==> #[trigger] args.readable(
                1,
                rect.row,
                c,
            ),
    ensures
        agrees(r, row_search(m, top_row(args.call().arg(1), rect), key@, false)),
{
    if wildcard(key) {
        return Err(ErrorKind::Unsupported);
    }
    let ghost row = top_row(args.call().arg(1), rect);
    let ghost entries = row.map_values(|c: Val| lookup_eq(m, c, key@));
    for i in 0..rect.width
        invariant
            rect.on_sheet(),
            row == top_row(args.call().arg(1), rect),
            entries == row.map_values(|c: Val| lookup_eq(m, c, key@)),
            first_match(entries, 0) == first_match(entries, i as int),
            forall|j: int| 0 <= j < i ==> #[trigger] entries[j] == Ok::<LookupEq, ErrorKind>(LookupEq::NoMatch),
            !has_wildcard(key@),
            forall|c: u32|
                looks_at(m, row, key@, false, c - rect.col) ==> #[trigger] args.readable(1, rect.row, c),
    {
        assert(scanned(entries, i as int));
        let cell = sheet_value(args, rect.row, rect.col + i);
        assert(entries[i as int] == lookup_eq(m, cell@, key@));
        match exact_eq(m, &cell, key) {
            Ok(LookupEq::Match) => {
                return Ok(Some(i as usize));
            },
            Ok(LookupEq::NoMatch) => {},
            Ok(LookupEq::Defer) => {
                return Err(ErrorKind::Unsupported);
            },
            Err(k) => {
                return Err(k);
            },
        }
    }
    Ok(None)
}

/// Bisects the first row of the rectangle for the last cell at or below the key, and
/// reads no cell but those that it compares.
pub fn approx_search<A: CallArgs>(m: &ValueModel, args: &A, rect: RefRect, key: &Value) -> (r: Result<
    Option<usize>,
    ErrorKind,
>)
    requires
        rect.on_sheet(),
        forall|c: u32|
            looks_at(m, top_row(args.call().arg(1), rect), key@, true, c - rect.col) ==> #[trigger] args.readable(
                1,
                rect.row,
                c,
            ),
    ensures
        agrees(r, row_search(m, top_row(args.call().arg(1), rect), key@, true)),
{
    let ghost row = top_row(args.call().arg(1), rect);
    let ghost entries = row.map_values(|c: Val| at_or_below(m, c, key@));
    let mut lo: u32 = 0;
    let mut end: u32 = rect.width;
    let mut best: Option<usize> = None;
    while lo < end
        invariant
            0 <= lo <= end <= rect.width,
            rect.on_sheet(),
            row == top_row(args.call().arg(1), rect),
            entries == row.map_values(|c: Val| at_or_below(m, c, key@)),
            ascending_result(m, row, key@) == bisect(
                entries,
                lo as int,
                end - 1,
                match best {
                    Some(b) => Some(b as int),
                    None => None,
                },
            ),
            forall|i: int| #[trigger]
                probed(entries, lo as int, end - 1, i) ==> probed(entries, 0, row.len() - 1, i),
            forall|c: u32|
                looks_at(m, row, key@, true, c - rect.col) ==> #[trigger] args.readable(1, rect.row, c),
        decreases end - lo,
    {
        let mid = lo + (end - 1 - lo) / 2;
        assert(probed(entries, lo as int, end - 1, mid as int));
        assert(looks_at(m, row, key@, true, (rect.col + mid) - rect.col));
        let cell = sheet_value(args, rect.row, rect.col + mid);
        assert(entries[mid as int] == at_or_below(m, cell@, key@));
        if approx_touches_blank(&cell, key) {
            return Err(ErrorKind::Unsupported);
        }
        let ghost (l, h) = (lo as int, end - 1);
        match m.stand(&cell, key) {
            Err(k) => {
                return Err(k);
            },
            Ok(Standing::Above) => {
                end = mid;
            },
            Ok(_) => {
                best = Some(mid as usize);
                lo = mid + 1;
            },
        }
        assert forall|i: int| #[trigger] probed(entries, lo as int, end - 1, i) implies probed(
            entries,
            0,
            row.len() - 1,
            i,
        ) by {
            assert(probed(entries, l, h, i));
        }
    }
    Ok(best)
}

/// Looks the key up in a table of whole columns or rows. `row_index` is a whole
/// number of at least one. No argument is evaluated, and no cell is read but those
/// of the first row that the search looks at and the result.
pub fn eval_whole_axis<A: CallArgs>(
    ctx: &EvalContext,
    args: &A,
    key: &Value,
    row_index: Number,
    approximate: bool,
    refused: ErrorKind,
) -> (v: Value)
    requires
        row_index.units() >= one(),
        forall|r: u32, c: u32|
            reads(
                &ctx.model,
                args.call().arg(1),
                key@,
                row_index.units() / one(),
                approximate,
                r,
                c,
            ) ==> #[trigger] args.readable(1, r, c),
    ensures
        v@ == whole_axis_result(
            &ctx.model,
            args.call().arg(1),
            key@,
            row_index.units() / one(),
            approximate,
            refused,
        ),
{
    let rect = match args.arg_ref_extent(1) {
        Some(rect) => rect,
        None => {
            return Value::Error(refused);
        },
    };
    proof {
        lemma_one_or_more(row_index);
    }
    let row = match row_index.position(rect.height as usize) {
        Some(row) => row,
        None => {
            return Value::Error(ErrorKind::Ref);
        },
    };
    if rect.width == 0 {
        return Value::Error(ErrorKind::Na);
    }
    let found = if approximate {
        approx_search(&ctx.model, args, rect, key)
    } else {
        exact_search(&ctx.model, args, rect, key)
    };
    proof {
        lemma_column_in_row(&ctx.model, top_row(args.call().arg(1), rect), key@, approximate);
    }
    match found {
        Ok(Some(i)) => sheet_value(args, rect.row + (row as u32 - 1), rect.col + i as u32),
        Ok(None) => Value::Error(ErrorKind::Na),
        Err(k) => Value::Error(k),
    }
}

/// Evaluates the call, and of its arguments only those that it must.
pub fn eval<A: CallArgs>(ctx: &EvalContext, args: &A) -> (v: Value)
    requires
        forall|i: int| forces(&ctx.model, args.call(), i) ==> args.forceable(i),
        forall|r: u32, c: u32|
            call_reads(&ctx.model, args.call(), r, c) ==> #[trigger] args.readable(1, r, c),
    ensures
        v@ == result(&ctx.model, args.call()),
{
    assert(forces(&ctx.model, args.call(), 0));
    let key = args.eval_scalar(0);
    if let Some(k) = key.error() {
        return Value::Error(k);
    }
    assert(forces(&ctx.model, args.call(), 2));
    let row_index = match ctx.model.to_number(&args.eval_scalar(2)) {
        Ok(n) => n,
        Err(k) => {
            return Value::Error(k);
        },
    };
    if !row_index.is_whole() {
        return Value::Error(ErrorKind::Unsupported);
    }
    if row_index.lt(Number::one()) {
        return Value::Error(ErrorKind::Value);
    }
    assert(row_given(&ctx.model, args.call()));
    let approximate = if args.count() >= 4 {
        assert(forces(&ctx.model, args.call(), 3));
        match to_bool(&args.eval_scalar(3)) {
            Ok(b) => b,
            Err(k) => {
                return Value::Error(k);
            },
        }
    } else {
        true
    };
    assert(forces(&ctx.model, args.call(), 1));
    let rows = match args.rows(1) {
        Ok(rows) => rows,
        Err(k) => {
            return eval_whole_axis(ctx, args, &key, row_index, approximate, k);
        },
    };
    proof {
        lemma_one_or_more(row_index);
    }
    let row = match row_index.position(rows.len()) {
        Some(row) => row,
        None => {
            return Value::Error(ErrorKind::Ref);
        },
    };
    assert(row_views(rows@)[0] == views(rows@[0]@));
    if rows[0].len() == 0 {
        return Value::Error(ErrorKind::Na);
    }
    match search_row(&ctx.model, &rows[0], &key, approximate) {
        Ok(Some(i)) => row_entry(&rows[row - 1], i),
        Ok(None) => Value::Error(ErrorKind::Na),
        Err(k) => Value::Error(k),
    }
}

/// The law of few reads: over a table of whole columns or rows, a cell that is read
/// lies in the table, and it is in the first row or it is the result.
pub proof fn law_only_first_row_and_result_are_read(
    m: &ValueModel,
    arg: ArgModel,
    rect: RefRect,
    key: Val,
    row: int,
    approximate: bool,
    r: u32,
    c: u32,
)
    requires
        arg.extent == Some(rect),
        row >= 1,
        reads(m, arg, key, row, approximate, r, c),
    ensures
        rect.covers(r, c),
        r == rect.row || (r == rect.row + row - 1 && row_search(m, top_row(arg, rect), key, approximate) == Ok::<
            Option<int>,
            ErrorKind,
        >(Some(c - rect.col))),
{
    let top = top_row(arg, rect);
    lemma_column_in_row(m, top, key, approximate);
    crate::search::lemma_probed_in_range(
        top.map_values(|v: Val| at_or_below(m, v, key)),
        0,
        top.len() - 1,
        c - rect.col,
    );
}

/// The law of whole axes: where a range of whole rows or columns covers the cells of
/// a bounded table of the same extent, looking a key up in it gives what looking it up
/// in the table gives.
pub proof fn law_whole_axis_reads_as_bounded(
    m: &ValueModel,
    arg: ArgModel,
    rect: RefRect,
    rows: Seq<Seq<Val>>,
    key: Val,
    row: int,
    approximate: bool,
    refused: ErrorKind,
)
    requires
        arg.extent == Some(rect),
        rect.on_sheet(),
        row >= 1,
        rows.len() == rect.height,
        forall|r: int| 0 <= r < rows.len() ==> (#[trigger] rows[r]).len() == rect.width,
        forall|r: int, c: int|
            #![trigger rows[r][c]]
            0 <= r < rows.len() && 0 <= c < rect.width ==> (arg.sheet)(
                (rect.row + r) as u32,
                (rect.col + c) as u32,
            ) == Some(rows[r][c]),
    ensures
        whole_axis_result(m, arg, key, row, approximate, refused) == table_result(
            m,
            rows,
            key,
            row,
            approximate,
        ),
{
    if row <= rows.len() {
        assert(rows[0].len() == rect.width);
        assert forall|c: int| 0 <= c < rect.width implies top_row(arg, rect)[c] == rows[0][c] by {
            assert(sheet_cell(arg, rect.row as int, rect.col + c) == rows[0][c]);
        }
        assert(top_row(arg, rect) == rows[0]);
        lemma_column_in_row(m, rows[0], key, approximate);
        match row_search(m, rows[0], key, approximate) {
            Ok(Some(i)) => {
                assert(rows[row - 1].len() == rect.width);
                assert(sheet_cell(arg, rect.row + row - 1, rect.col + i) == rows[row - 1][i]);
            },
            _ => {},
        }
    }
}

/// The table is `h` rows of `w` cells each.
pub open spec fn is_table(rows: Result<Seq<Seq<Val>>, ErrorKind>, h: int, w: int) -> bool {
    rows matches Ok(rows) && rows.len() == h && forall|r: int| 0 <= r < h ==> (#[trigger] rows[r]).len() == w
}

/// The call asks for row `r`, counted from one.
pub open spec fn asks_for(m: &ValueModel, call: CallModel, r: int) -> bool {
    m.numeric(call.scalar(2)) matches Ok(n) && n.units() == r * one()
}

/// The call asks for the nearest value, or for an equal one.
pub open spec fn nearest(call: CallModel, near: bool) -> bool {
    if call.args.len() >= 4 {
        logical(call.scalar(3)) == Ok::<bool, ErrorKind>(near)
    } else {
        near
    }
}

/// What is found in column `i`, counted from zero, of row `r` counted from one; a column
/// before the first stands for none.
pub open spec fn found_in(rows: Seq<Seq<Val>>, r: int, i: int) -> Val {
    if i < 0 {
        Val::Error(ErrorKind::Na)
    } else {
        rows[r - 1][i]
    }
}

/// The law of the nearest value: where the first `cut` cells of the first row are at or
/// below the key and the others above it, the result is the cell of the chosen row in the
/// last of these columns, and there is none where `cut` is zero.
pub proof fn law_nearest_column_answers(m: &ValueModel, call: CallModel, h: int, w: int, r: int, cut: int)
    requires
        is_table(call.arg(1).rows, h, w),
        w > 0,
        1 <= r <= h,
        asks_for(m, call, r),
        nearest(call, true),
        !(call.scalar(0) is Blank),
        !(call.scalar(0) is Error),
        0 <= cut <= w,
        forall|i: int|
            0 <= i < w ==> !(#[trigger] call.arg(1).rows->Ok_0[0][i] is Blank) && (m.order(
                call.arg(1).rows->Ok_0[0][i],
                call.scalar(0),
            ) matches Ok(s) && (i < cut <==> s != Standing::Above)),
    ensures
        result(m, call) == found_in(call.arg(1).rows->Ok_0, r, cut - 1),
{
    let rows = call.arg(1).rows->Ok_0;
    assert(rows[0].len() == w);
    assert(rows[r - 1].len() == w);
    lemma_row_asked(m, call, r);
    crate::search::law_ascending_finds_largest(m, rows[0], call.scalar(0), cut);
}

/// The law of the equal value: for a key that is no blank and holds no wildcard, the result
/// is the cell of the chosen row in the first column whose first cell is equal to it, and
/// there is none where none is.
pub proof fn law_first_equal_column_answers(m: &ValueModel, call: CallModel, h: int, w: int, r: int, i: int)
    requires
        is_table(call.arg(1).rows, h, w),
        w > 0,
        1 <= r <= h,
        asks_for(m, call, r),
        nearest(call, false),
        !(call.scalar(0) is Blank),
        !(call.scalar(0) is Error),
        call.scalar(0) matches Val::Text(t) ==> !t.contains('*') && !t.contains('?'),
        0 <= i <= w,
        forall|j: int| 0 <= j < i ==> told_apart(m, #[trigger] call.arg(1).rows->Ok_0[0][j], call.scalar(0), false),
        i < w ==> told_apart(m, call.arg(1).rows->Ok_0[0][i], call.scalar(0), true),
    ensures
        result(m, call) == found_in(
            call.arg(1).rows->Ok_0,
            r,
            if i < w {
                i
            } else {
                -1
            },
        ),
{
    let rows = call.arg(1).rows->Ok_0;
    assert(rows[0].len() == w);
    assert(rows[r - 1].len() == w);
    lemma_row_asked(m, call, r);
    crate::search::law_exact_finds_first_equal(m, rows[0], call.scalar(0), i);
}

proof fn lemma_row_asked(m: &ValueModel, call: CallModel, r: int)
    requires
        asks_for(m, call, r),
        r >= 1,
    ensures
        m.numeric(call.scalar(2))->Ok_0.whole(),
        m.numeric(call.scalar(2))->Ok_0.units() >= one(),
        m.numeric(call.scalar(2))->Ok_0.units() / one() == r,
{
    crate::number::lemma_whole_ones(r);
    assert(r * one() >= one()) by (nonlinear_arith)
        requires
            r >= 1,
            one() > 0,
    ;
}

/// The law of the refusals: an error for a key comes first, then that of the row number;
/// one with a fraction is refused, one below one is a value error; then the error of the
/// fourth argument decides. A row past the table is a reference error, and a table without
/// columns has nothing to find.
pub proof fn law_refusals_come_in_order(m: &ValueModel, call: CallModel, h: int, w: int, r: int)
    ensures
        call.scalar(0) matches Val::Error(k) ==> result(m, call) == Val::Error(k),
        !(call.scalar(0) is Error) ==> match m.numeric(call.scalar(2)) {
            Err(k) => result(m, call) == Val::Error(k),
            Ok(n) => if n.units() % one() != 0 {
                result(m, call) == Val::Error(ErrorKind::Unsupported)
            } else if n.units() < one() {
                result(m, call) == Val::Error(ErrorKind::Value)
            } else {
                call.args.len() >= 4 ==> (logical(call.scalar(3)) matches Err(k) ==> result(m, call) == Val::Error(k))
            },
        },
        !(call.scalar(0) is Error) && asks_for(m, call, r) && r >= 1 && (nearest(call, true) || nearest(call, false)) ==> {
            &&& call.arg(1).extent is None ==> (call.arg(1).rows matches Err(k) ==> result(m, call) == Val::Error(k))
            &&& is_table(call.arg(1).rows, h, w) && r > h ==> result(m, call) == Val::Error(ErrorKind::Ref)
            &&& is_table(call.arg(1).rows, h, w) && r <= h && w == 0 ==> result(m, call) == Val::Error(ErrorKind::Na)
        },
{
    if asks_for(m, call, r) && r >= 1 {
        lemma_row_asked(m, call, r);
    }
    if is_table(call.arg(1).rows, h, w) && h > 0 {
        assert(call.arg(1).rows->Ok_0[0].len() == w);
    }
}

/// The law of whole rows and columns: a call over a range whose rows are not walked gives
/// what the same call over the bounded table of its cells gives.
pub proof fn law_whole_axis_call_agrees(m: &ValueModel, whole: CallModel, bounded: CallModel, rect: RefRect)
    requires
        whole.arg(1).rows is Err,
        whole.arg(1).extent == Some(rect),
        rect.on_sheet(),
        is_table(bounded.arg(1).rows, rect.height as int, rect.width as int),
        forall|r: int, c: int|
            #![trigger bounded.arg(1).rows->Ok_0[r][c]]
            0 <= r < rect.height && 0 <= c < rect.width ==> (whole.arg(1).sheet)(
                (rect.row + r) as u32,
                (rect.col + c) as u32,
            ) == Some(bounded.arg(1).rows->Ok_0[r][c]),
        whole.args.len() == bounded.args.len(),
        whole.scalar(0) == bounded.scalar(0),
        whole.scalar(2) == bounded.scalar(2),
        whole.scalar(3) == bounded.scalar(3),
    ensures
        result(m, whole) == result(m, bounded),
{
    if row_given(m, whole) && approximates(whole) is Ok {
        let index = m.numeric(whole.scalar(2))->Ok_0;
        crate::number::lemma_from_whole(index.units(), 1);
        law_whole_axis_reads_as_bounded(
            m,
            whole.arg(1),
            rect,
            bounded.arg(1).rows->Ok_0,
            whole.scalar(0),
            index.units() / one(),
            approximates(whole)->Ok_0,
            whole.arg(1).rows->Err_0,
        );
    }
}

} // verus!
