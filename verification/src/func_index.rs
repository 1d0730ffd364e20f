//! `INDEX(array, row_num, [column_num])`: the cell of a rectangle in a row and a
//! column, or a whole row or column.
//!
//! Fractions are dropped downwards. A row or column number of zero asks for the
//! whole of the other axis; both zero, a negative number, and a lone index into
//! a rectangle of several rows and columns are refused. A lone index into a
//! single row counts columns. A number past the rectangle is a reference error.
//! Of a range of whole rows or columns only the cell that is asked for is read.

use crate::args::{row_views, ArgModel, CallArgs, CallModel, RefRect};
use crate::grid::{cell, column, column_of, entry, row_entry, width, width_of};
use crate::model::{EvalContext, ValueModel};
use crate::number::{from_whole, lemma_from_whole, one, Number};
use crate::value::{views, Array, ErrorKind, Grid, Val, Value};
use vstd::prelude::*;

verus! {

/// A position that an index asks for: its row and its column, each counted from
/// one, with zero for the whole of the axis.
pub struct Place {
    pub row: int,
    pub col: int,
}

/// The place that the index arguments ask for in a rectangle of the given extent.
pub open spec fn place(m: &ValueModel, call: CallModel, height: int, width: int) -> Result<
    Place,
    ErrorKind,
> {
    match m.numeric(call.scalar(1)) {
        Err(k) => Err(k),
        Ok(first) => {
            let first = first.units() / one();
            if call.args.len() >= 3 {
                match m.numeric(call.scalar(2)) {
                    Err(k) => Err(k),
                    Ok(second) => Ok(Place { row: first, col: second.units() / one() }),
                }
            } else if width == 1 {
                Ok(Place { row: first, col: 1 })
            } else if height == 1 {
                Ok(Place { row: 1, col: first })
            } else {
                Err(ErrorKind::Unsupported)
            }
        },
    }
}

/// A row of a rectangle of the given width, filled up with blanks.
pub open spec fn filled(row: Seq<Val>, width: nat) -> Seq<Val> {
    Seq::new(width, |c: int| entry(row, c))
}

/// What is found at a place of a bounded rectangle.
pub open spec fn found(rows: Seq<Seq<Val>>, at: Place) -> Val {
    let height = rows.len();
    let width = width_of(rows);
    if (at.row == 0 && at.col == 0) || at.row < 0 || at.col < 0 {
        Val::Error(ErrorKind::Unsupported)
    } else if at.row > height || at.col > width {
        Val::Error(ErrorKind::Ref)
    } else if at.row == 0 {
        Val::Array(Grid { rows: height, cols: 1, cells: column(rows, at.col - 1) })
    } else if at.col == 0 {
        Val::Array(Grid { rows: 1, cols: width, cells: filled(rows[at.row - 1], width) })
    } else {
        cell(rows, at.row - 1, at.col - 1)
    }
}

/// What is found at a place of a range of whole rows or columns.
pub open spec fn found_whole(arg: ArgModel, rect: RefRect, at: Place) -> Val {
    if at.row <= 0 || at.col <= 0 {
        Val::Error(ErrorKind::Unsupported)
    } else if at.row > rect.height || at.col > rect.width {
        Val::Error(ErrorKind::Ref)
    } else {
        match (arg.sheet)((rect.row + at.row - 1) as u32, (rect.col + at.col - 1) as u32) {
            Some(v) => v,
            None => Val::Error(ErrorKind::Ref),
        }
    }
}

/// The index arguments that are evaluated once the extent is known: the first, and
/// the second where the call has one and the first is a number.
pub open spec fn forces_index(m: &ValueModel, call: CallModel, i: int) -> bool {
    i == 1 || (i == 2 && call.args.len() >= 3 && m.numeric(call.scalar(1)) is Ok)
}

/// The arguments that are evaluated over a range of whole rows or columns: none
/// where the extent is not known.
pub open spec fn whole_axis_forces(m: &ValueModel, call: CallModel, i: int) -> bool {
    call.arg(0).extent is Some && forces_index(m, call, i)
}

/// The one cell of the sheet that is read over a range of whole rows or columns: the
/// one that is asked for, where it lies in the extent.
pub open spec fn reads(m: &ValueModel, call: CallModel, row: u32, col: u32) -> bool {
    call.arg(0).extent matches Some(rect) && (place(m, call, rect.height as int, rect.width as int) matches Ok(at)
        && 1 <= at.row <= rect.height && 1 <= at.col <= rect.width && row == rect.row + at.row - 1 && col
        == rect.col + at.col - 1)
}

/// The arguments that the call evaluates: the rectangle, and the index arguments
/// where there is anything to index.
pub open spec fn forces(m: &ValueModel, call: CallModel, i: int) -> bool {
    i == 0 || match call.arg(0).rows {
        Err(_) => whole_axis_forces(m, call, i),
        Ok(rows) => width_of(rows) > 0 && forces_index(m, call, i),
    }
}

/// The result over a range of whole rows or columns, whose walk was refused with
/// `refused`.
pub open spec fn whole_axis_result(m: &ValueModel, call: CallModel, refused: ErrorKind) -> Val {
    match call.arg(0).extent {
        None => Val::Error(refused),
        Some(rect) => match place(m, call, rect.height as int, rect.width as int) {
            Err(k) => Val::Error(k),
            Ok(at) => found_whole(call.arg(0), rect, at),
        },
    }
}

/// The result of the call.
pub open spec fn result(m: &ValueModel, call: CallModel) -> Val {
    match call.arg(0).rows {
        Err(k) => whole_axis_result(m, call, k),
        Ok(rows) => if width_of(rows) == 0 {
            Val::Error(ErrorKind::Ref)
        } else {
            match place(m, call, rows.len() as int, width_of(rows) as int) {
                Err(k) => Val::Error(k),
                Ok(at) => found(rows, at),
            }
        },
    }
}

/// One axis of a place: a negative index, the whole axis, a position, or a
/// position past the extent.
#[derive(Clone, Copy)]
enum Axis {
    Negative,
    Whole,
    At(usize),
    Past,
}

spec fn axis_is(a: Axis, n: int, extent: int) -> bool {
    match a {
        Axis::Negative => n < 0,
        Axis::Whole => n == 0,
        Axis::At(p) => p == n && 1 <= n <= extent,
        Axis::Past => n > extent,
    }
}

fn axis(n: Number, extent: usize) -> (a: Axis)
    ensures
        axis_is(a, n.units() / one(), extent as int),
{
    let whole = n.floored();
    if whole < 0 {
        Axis::Negative
    } else if whole == 0 {
        Axis::Whole
    } else {
        match n.position(extent) {
            Some(p) => Axis::At(p),
            None => Axis::Past,
        }
    }
}

fn locate<A: CallArgs>(ctx: &EvalContext, args: &A, height: usize, width: usize) -> (r: Result<
    (Axis, Axis),
    ErrorKind,
>)
    requires
        forall|i: int| forces_index(&ctx.model, args.call(), i) ==> args.forceable(i),
    ensures
        match r {
            Ok(axes) => place(&ctx.model, args.call(), height as int, width as int) matches Ok(at)
                && axis_is(axes.0, at.row, height as int) && axis_is(axes.1, at.col, width as int),
            Err(k) => place(&ctx.model, args.call(), height as int, width as int) == Err::<
                Place,
                ErrorKind,
            >(k),
        },
{
    assert(forces_index(&ctx.model, args.call(), 1));
    let first = match ctx.model.to_number(&args.eval_scalar(1)) {
        Ok(n) => n,
        Err(k) => {
            return Err(k);
        },
    };
    if args.count() >= 3 {
        assert(forces_index(&ctx.model, args.call(), 2));
        match ctx.model.to_number(&args.eval_scalar(2)) {
            Ok(n) => Ok((axis(first, height), axis(n, width))),
            Err(k) => Err(k),
        }
    } else if width == 1 {
        Ok((axis(first, height), Axis::At(1)))
    } else if height == 1 {
        Ok((Axis::At(1), axis(first, width)))
    } else {
        Err(ErrorKind::Unsupported)
    }
}

/// Indexes a range of whole rows or columns. Nothing is evaluated where its extent is
/// not known, and no cell is read but the one that is asked for.
pub fn eval_whole_axis<A: CallArgs>(ctx: &EvalContext, args: &A, refused: ErrorKind) -> (v: Value)
    requires
        forall|i: int| whole_axis_forces(&ctx.model, args.call(), i) ==> args.forceable(i),
        forall|row: u32, col: u32| reads(&ctx.model, args.call(), row, col) ==> args.readable(0, row, col),
    ensures
        v@ == whole_axis_result(&ctx.model, args.call(), refused),
{
    let rect = match args.arg_ref_extent(0) {
        Some(rect) => rect,
        None => {
            return Value::Error(refused);
        },
    };
    assert forall|i: int| forces_index(&ctx.model, args.call(), i) implies args.forceable(i) by {
        assert(whole_axis_forces(&ctx.model, args.call(), i));
    }
    match locate(ctx, args, rect.height as usize, rect.width as usize) {
        Err(k) => Value::Error(k),
        Ok((row, col)) => match (row, col) {
            (Axis::Negative, _) => Value::Error(ErrorKind::Unsupported),
            (Axis::Whole, _) => Value::Error(ErrorKind::Unsupported),
            (_, Axis::Negative) => Value::Error(ErrorKind::Unsupported),
            (_, Axis::Whole) => Value::Error(ErrorKind::Unsupported),
            (Axis::At(r), Axis::At(c)) => {
                let row = rect.row + (r as u32 - 1);
                let col = rect.col + (c as u32 - 1);
                assert(reads(&ctx.model, args.call(), row, col));
                match args.cell_at(0, row, col) {
                    Some(v) => v,
                    None => Value::Error(ErrorKind::Ref),
                }
            },
            (_, _) => Value::Error(ErrorKind::Ref),
        },
    }
}

fn whole_column(rows: &Vec<Vec<Value>>, c: usize) -> (v: Value)
    ensures
        v@ == Val::Array(
            (Grid { rows: rows@.len(), cols: 1, cells: column(row_views(rows@), c as int) }),
        ),
{
    let data = column_of(rows, c);
    let n = rows.len();
    assert(data@.len() == views(data@).len());
    assert(n * 1 == n);
    match Array::new(n, 1, data) {
        Some(a) => Value::Array(a),
        None => Value::Error(ErrorKind::Ref),
    }
}

fn whole_row(row: &Vec<Value>, width: usize) -> (v: Value)
    ensures
        v@ == Val::Array(
            (Grid { rows: 1, cols: width as nat, cells: filled(views(row@), width as nat) }),
        ),
{
    let mut data: Vec<Value> = Vec::new();
    for c in 0..width
        invariant
            data@.len() == c,
            forall|j: int| 0 <= j < c ==> (#[trigger] data@[j])@ == entry(views(row@), j),
    {
        data.push(row_entry(row, c));
    }
    assert(views(data@) == filled(views(row@), width as nat));
    assert(1 * width == width);
    match Array::new(1, width, data) {
        Some(a) => Value::Array(a),
        None => Value::Error(ErrorKind::Ref),
    }
}

/// Evaluates the call, and of its arguments only those that it must.
pub fn eval<A: CallArgs>(ctx: &EvalContext, args: &A) -> (v: Value)
    requires
        forall|i: int| forces(&ctx.model, args.call(), i) ==> args.forceable(i),
        forall|row: u32, col: u32|
            args.call().arg(0).rows is Err && reads(&ctx.model, args.call(), row, col) ==> args.readable(0, row, col),
    ensures
        v@ == result(&ctx.model, args.call()),
{
    assert(forces(&ctx.model, args.call(), 0));
    let rows = match args.rows(0) {
        Ok(rows) => rows,
        Err(k) => {
            assert forall|i: int| whole_axis_forces(&ctx.model, args.call(), i) implies args.forceable(i) by {
                assert(forces(&ctx.model, args.call(), i));
            }
            return eval_whole_axis(ctx, args, k);
        },
    };
    let height = rows.len();
    let w = width(&rows);
    if height == 0 || w == 0 {
        return Value::Error(ErrorKind::Ref);
    }
    assert forall|i: int| forces_index(&ctx.model, args.call(), i) implies args.forceable(i) by {
        assert(forces(&ctx.model, args.call(), i));
    }
    match locate(ctx, args, height, w) {
        Err(k) => Value::Error(k),
        Ok((row, col)) => match (row, col) {
            (Axis::Negative, _) => Value::Error(ErrorKind::Unsupported),
            (_, Axis::Negative) => Value::Error(ErrorKind::Unsupported),
            (Axis::Whole, Axis::Whole) => Value::Error(ErrorKind::Unsupported),
            (Axis::Whole, Axis::At(c)) => whole_column(&rows, c - 1),
            (Axis::At(r), Axis::Whole) => whole_row(&rows[r - 1], w),
            (Axis::At(r), Axis::At(c)) => row_entry(&rows[r - 1], c - 1),
            (_, _) => Value::Error(ErrorKind::Ref),
        },
    }
}

/// The law of whole axes: where a range of whole rows or columns covers the cells of
/// a bounded rectangle of the same extent, a place in it holds what the same place of
/// the rectangle holds.
pub proof fn law_whole_axis_reads_as_bounded(arg: ArgModel, rect: RefRect, rows: Seq<Seq<Val>>, at: Place)
    requires
        rect.on_sheet(),
        rows.len() == rect.height,
        width_of(rows) == rect.width,
        forall|r: int, c: int|
            #![trigger rows[r][c]]
            0 <= r < rows.len() && 0 <= c < rect.width ==> rows[r].len() == rect.width && (arg.sheet)(
                (rect.row + r) as u32,
                (rect.col + c) as u32,
            ) == Some(rows[r][c]),
        at.row > 0,
        at.col > 0,
    ensures
        found_whole(arg, rect, at) == found(rows, at),
{
    if at.row <= rows.len() && at.col <= rect.width {
        let (r, c) = (at.row - 1, at.col - 1);
        assert(rows[r].len() == rect.width && (arg.sheet)((rect.row + r) as u32, (rect.col + c) as u32) == Some(
            rows[r][c],
        ));
    }
}

/// The law of the single read: over a range of whole rows or columns no two cells are
/// read, and a cell that is read lies in the range.
pub proof fn law_one_cell_is_read(
    m: &ValueModel,
    call: CallModel,
    rect: RefRect,
    row: u32,
    col: u32,
    other_row: u32,
    other_col: u32,
)
    requires
        call.arg(0).extent == Some(rect),
        reads(m, call, row, col),
        reads(m, call, other_row, other_col),
    ensures
        row == other_row,
        col == other_col,
        rect.covers(row, col),
{
}

/// The law of single rows and columns: a lone index into them is an index into the
/// axis that has more than one.
pub proof fn law_lone_index_follows_the_vector(m: &ValueModel, call: CallModel, n: int)
    requires
        call.args.len() == 2,
        m.numeric(call.scalar(1)) is Ok,
        n > 1,
    ensures
        place(m, call, n, 1) == Ok::<Place, ErrorKind>(
            Place { row: m.numeric(call.scalar(1))->Ok_0.units() / one(), col: 1 },
        ),
        place(m, call, 1, n) == Ok::<Place, ErrorKind>(
            Place { row: 1, col: m.numeric(call.scalar(1))->Ok_0.units() / one() },
        ),
{
}

/// The rows are `h` rows of `w` cells each.
pub open spec fn is_table(rows: Result<Seq<Seq<Val>>, ErrorKind>, h: int, w: int) -> bool {
    rows matches Ok(rows) && rows.len() == h && forall|r: int| 0 <= r < h ==> (#[trigger] rows[r]).len() == w
}

/// The call asks for row `r` and column `c` of a rectangle of the given extent: by its
/// second and third argument, or by the second alone in a single column or row.
pub open spec fn asks_for(m: &ValueModel, call: CallModel, h: int, w: int, r: int, c: int) -> bool {
    m.numeric(call.scalar(1)) matches Ok(n) && if call.args.len() >= 3 {
        from_whole(n.units(), r) && (m.numeric(call.scalar(2)) matches Ok(k) && from_whole(k.units(), c))
    } else if w == 1 {
        from_whole(n.units(), r) && c == 1
    } else {
        h == 1 && r == 1 && from_whole(n.units(), c)
    }
}

/// The law of the table: a row and a column counted from one give the cell there; a row of
/// zero gives the column, and a column of zero the row; a negative one, and zero for both,
/// is refused; one past the table is a reference error.
pub proof fn law_result_stands_in_the_table(m: &ValueModel, call: CallModel, h: int, w: int, r: int, c: int)
    requires
        is_table(call.arg(0).rows, h, w),
        h > 0,
        w > 0,
        asks_for(m, call, h, w, r, c),
    ensures
        1 <= r <= h && 1 <= c <= w ==> result(m, call) == call.arg(0).rows->Ok_0[r - 1][c - 1],
        r < 0 || c < 0 || (r == 0 && c == 0) ==> result(m, call) == Val::Error(ErrorKind::Unsupported),
        r >= 0 && c >= 0 && (r > h || c > w) ==> result(m, call) == Val::Error(ErrorKind::Ref),
        r == 0 && 1 <= c <= w ==> (result(m, call) matches Val::Array(g) && g.rows == h && g.cols == 1 && g.cells.len() == h
            && forall|i: int| 0 <= i < h ==> #[trigger] g.cells[i] == call.arg(0).rows->Ok_0[i][c - 1]),
        c == 0 && 1 <= r <= h ==> (result(m, call) matches Val::Array(g) && g.rows == 1 && g.cols == w && g.cells.len() == w
            && forall|i: int| 0 <= i < w ==> #[trigger] g.cells[i] == call.arg(0).rows->Ok_0[r - 1][i]),
{
    let rows = call.arg(0).rows->Ok_0;
    crate::grid::lemma_rectangle(rows, w as nat);
    let first = m.numeric(call.scalar(1))->Ok_0.units();
    lemma_from_whole(first, r);
    lemma_from_whole(first, c);
    if call.args.len() >= 3 {
        lemma_from_whole(m.numeric(call.scalar(2))->Ok_0.units(), c);
    }
    if 1 <= r <= h {
        assert(rows[r - 1].len() == w);
    }
    if r == 0 && 1 <= c <= w {
        assert forall|i: int| 0 <= i < h implies #[trigger] column(rows, c - 1)[i] == rows[i][c - 1] by {
            assert(rows[i].len() == w);
        }
    }
}

/// The law of whole rows and columns: over a range whose rows are not walked, a row and a
/// column counted from one give the cell of the sheet that far from the first of the
/// range; zero and below are refused, and past the range is a reference error.
pub proof fn law_result_stands_on_the_sheet(m: &ValueModel, call: CallModel, rect: RefRect, r: int, c: int)
    requires
        call.arg(0).rows is Err,
        call.arg(0).extent == Some(rect),
        asks_for(m, call, rect.height as int, rect.width as int, r, c),
    ensures
        1 <= r <= rect.height && 1 <= c <= rect.width ==> match (call.arg(0).sheet)(
            (rect.row + r - 1) as u32,
            (rect.col + c - 1) as u32,
        ) {
            Some(v) => result(m, call) == v,
            None => result(m, call) == Val::Error(ErrorKind::Ref),
        },
        r <= 0 || c <= 0 ==> result(m, call) == Val::Error(ErrorKind::Unsupported),
        r > 0 && c > 0 && (r > rect.height || c > rect.width) ==> result(m, call) == Val::Error(ErrorKind::Ref),
{
    let first = m.numeric(call.scalar(1))->Ok_0.units();
    lemma_from_whole(first, r);
    lemma_from_whole(first, c);
    if call.args.len() >= 3 {
        lemma_from_whole(m.numeric(call.scalar(2))->Ok_0.units(), c);
    }
}

/// The law of the errors: a range that is not walked and whose extent is not known decides
/// first; then the row number does, then the column number. A lone number into several
/// rows and columns is refused.
pub proof fn law_errors_come_in_order(m: &ValueModel, call: CallModel, h: int, w: int)
    ensures
        call.arg(0).extent is None ==> (call.arg(0).rows matches Err(k) ==> result(m, call) == Val::Error(k)),
        is_table(call.arg(0).rows, h, w) && h > 0 && w > 0 ==> match m.numeric(call.scalar(1)) {
            Err(k) => result(m, call) == Val::Error(k),
            Ok(_) => {
                &&& call.args.len() >= 3 ==> (m.numeric(call.scalar(2)) matches Err(k) ==> result(m, call) == Val::Error(k))
                &&& call.args.len() < 3 && h > 1 && w > 1 ==> result(m, call) == Val::Error(ErrorKind::Unsupported)
            },
        },
        is_table(call.arg(0).rows, h, w) && h > 0 && w == 0 ==> result(m, call) == Val::Error(ErrorKind::Ref),
{
    if is_table(call.arg(0).rows, h, w) && h > 0 && w >= 0 {
        crate::grid::lemma_rectangle(call.arg(0).rows->Ok_0, w as nat);
    }
}

} // verus!
