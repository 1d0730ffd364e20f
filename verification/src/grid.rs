//! Rectangles of values given as rows, which may be ragged.

use crate::args::{line_views, row_views};
use crate::value::{views, Val, Value};
use vstd::prelude::*;

verus! {

/// The length of the longest row.
pub open spec fn width_of(rows: Seq<Seq<Val>>) -> nat
    decreases rows.len(),
{
    if rows.len() == 0 {
        0
    } else {
        let rest = width_of(rows.drop_last());
        if rows.last().len() > rest {
            rows.last().len()
        } else {
            rest
        }
    }
}

/// No row is longer than the width, and one is as long.
pub proof fn lemma_width(rows: Seq<Seq<Val>>)
    ensures
        forall|i: int| 0 <= i < rows.len() ==> (#[trigger] rows[i]).len() <= width_of(rows),
        rows.len() > 0 ==> exists|i: int| 0 <= i < rows.len() && (#[trigger] rows[i]).len() == width_of(rows),
    decreases rows.len(),
{
    if rows.len() > 0 {
        let front = rows.drop_last();
        lemma_width(front);
        assert forall|i: int| 0 <= i < rows.len() implies (#[trigger] rows[i]).len() <= width_of(rows) by {
            if i < front.len() {
                assert(front[i] == rows[i]);
            }
        }
        if rows.last().len() == width_of(rows) {
            assert(rows[rows.len() - 1].len() == width_of(rows));
        } else if front.len() > 0 {
            let i = choose|i: int| 0 <= i < front.len() && (#[trigger] front[i]).len() == width_of(front);
            assert(rows[i].len() == width_of(rows));
        }
    }
}

/// The entry at position `i` of a row, or a blank past its end.
pub open spec fn entry(row: Seq<Val>, i: int) -> Val {
    if 0 <= i < row.len() {
        row[i]
    } else {
        Val::Blank
    }
}

/// The cell in row `r` and column `c`, or a blank where there is none.
pub open spec fn cell(rows: Seq<Seq<Val>>, r: int, c: int) -> Val {
    if 0 <= r < rows.len() {
        entry(rows[r], c)
    } else {
        Val::Blank
    }
}

/// The entries of column `c`, from the first row to the last.
pub open spec fn column(rows: Seq<Seq<Val>>, c: int) -> Seq<Val> {
    Seq::new(rows.len(), |r: int| entry(rows[r], c))
}

/// The lines without their positions.
pub open spec fn unplaced(lines: Seq<(u32, Seq<Val>)>) -> Seq<Seq<Val>> {
    Seq::new(lines.len(), |i: int| lines[i].1)
}

/// The length of the longest row.
pub fn width(rows: &Vec<Vec<Value>>) -> (w: usize)
    ensures
        w == width_of(row_views(rows@)),
{
    let mut w: usize = 0;
    let ghost all = row_views(rows@);
    for i in 0..rows.len()
        invariant
            all == row_views(rows@),
            w == width_of(all.take(i as int)),
    {
        assert(all.take(i + 1).drop_last() == all.take(i as int));
        assert(all.take(i + 1).last() == views(rows@[i as int]@));
        if rows[i].len() > w {
            w = rows[i].len();
        }
    }
    assert(all.take(all.len() as int) == all);
    w
}

/// The length of the longest line.
pub fn lines_width(lines: &Vec<(u32, Vec<Value>)>) -> (w: usize)
    ensures
        w == width_of(unplaced(line_views(lines@))),
{
    let mut w: usize = 0;
    let ghost all = unplaced(line_views(lines@));
    for i in 0..lines.len()
        invariant
            all == unplaced(line_views(lines@)),
            w == width_of(all.take(i as int)),
    {
        assert(all.take(i + 1).drop_last() == all.take(i as int));
        assert(all.take(i + 1).last() == views(lines@[i as int].1@));
        if lines[i].1.len() > w {
            w = lines[i].1.len();
        }
    }
    assert(all.take(all.len() as int) == all);
    w
}

/// The entry at position `i` of a row, or a blank past its end.
pub fn row_entry(row: &Vec<Value>, i: usize) -> (v: Value)
    ensures
        v@ == entry(views(row@), i as int),
{
    if i < row.len() {
        row[i].duplicate()
    } else {
        Value::Blank
    }
}

/// The entries of column `c`, from the first row to the last.
pub fn column_of(rows: &Vec<Vec<Value>>, c: usize) -> (col: Vec<Value>)
    ensures
        views(col@) == column(row_views(rows@), c as int),
{
    let mut col: Vec<Value> = Vec::new();
    for i in 0..rows.len()
        invariant
            col@.len() == i,
            forall|j: int| 0 <= j < i ==> (#[trigger] col@[j])@ == entry(views(rows@[j]@), c as int),
    {
        col.push(row_entry(&rows[i], c));
    }
    assert(views(col@) == column(row_views(rows@), c as int));
    col
}

/// The first entries of the lines.
pub fn line_heads(lines: &Vec<(u32, Vec<Value>)>) -> (col: Vec<Value>)
    ensures
        views(col@) == column(unplaced(line_views(lines@)), 0),
{
    let mut col: Vec<Value> = Vec::new();
    for i in 0..lines.len()
        invariant
            col@.len() == i,
            forall|j: int| 0 <= j < i ==> (#[trigger] col@[j])@ == entry(views(lines@[j].1@), 0),
    {
        col.push(row_entry(&lines[i].1, 0));
    }
    assert(views(col@) == column(unplaced(line_views(lines@)), 0));
    col
}

/// A copy of a row.
pub fn row_copy(row: &Vec<Value>) -> (r: Vec<Value>)
    ensures
        views(r@) == views(row@),
{
    let mut r: Vec<Value> = Vec::new();
    for i in 0..row.len()
        invariant
            r@.len() == i,
            forall|j: int| 0 <= j < i ==> (#[trigger] r@[j])@ == row@[j]@,
    {
        r.push(row[i].duplicate());
    }
    assert(views(r@) == views(row@));
    r
}

/// The law of cells: where a row has a cell in a column, that is the cell of the row and
/// the column; anywhere else there is a blank. A column has a cell of every row.
pub proof fn law_cells_stand_in_rows(rows: Seq<Seq<Val>>, r: int, c: int)
    ensures
        0 <= r < rows.len() && 0 <= c < rows[r].len() ==> cell(rows, r, c) == rows[r][c] && entry(rows[r], c) == rows[r][c]
            && column(rows, c)[r] == rows[r][c],
        0 <= r < rows.len() && !(0 <= c < rows[r].len()) ==> cell(rows, r, c) is Blank && column(rows, c)[r] is Blank,
        !(0 <= r < rows.len()) ==> cell(rows, r, c) is Blank,
        column(rows, c).len() == rows.len(),
{
}

/// Rows of one length have that width.
pub proof fn lemma_rectangle(rows: Seq<Seq<Val>>, w: nat)
    requires
        rows.len() > 0,
        forall|r: int| 0 <= r < rows.len() ==> (#[trigger] rows[r]).len() == w,
    ensures
        width_of(rows) == w,
{
    lemma_width(rows);
    let i = choose|i: int| 0 <= i < rows.len() && (#[trigger] rows[i]).len() == width_of(rows);
    assert(rows[i].len() == w);
}

} // verus!
