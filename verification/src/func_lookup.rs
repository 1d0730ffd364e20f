//! `LOOKUP(lookup_value, lookup_vector, [result_vector])` and
//! `LOOKUP(lookup_value, array)`: searches a vector that is taken to ascend for
//! the largest value at or below the key and hands back the entry at the same
//! position of a result vector.
//!
//! With two arguments a rectangle that is wider than tall is searched along its
//! first row and answers from its last row; any other along its first column,
//! and answers from its last column. A single row or column answers from itself.

use crate::args::{ready, row_views, CallArgs, CallModel};
use crate::grid::{column, column_of, row_copy, width, width_of};
use crate::model::{EvalContext, Standing, ValueModel};
use crate::search::{law_settling_finds_largest, settled_result, settling_search};
use crate::value::{views, ErrorKind, Val, Value};
use vstd::prelude::*;

verus! {

/// The entries of a single row or of rows of one cell; none of a rectangle.
pub open spec fn vector_of(rows: Seq<Seq<Val>>) -> Option<Seq<Val>> {
    if rows.len() == 0 {
        Some(Seq::empty())
    } else if rows.len() == 1 {
        Some(rows[0])
    } else if width_of(rows) <= 1 {
        Some(column(rows, 0))
    } else {
        None
    }
}

/// The side of a rectangle that is searched: the first row where it is wider
/// than tall, else the first column.
pub open spec fn search_side(rows: Seq<Seq<Val>>) -> Seq<Val> {
    if width_of(rows) > rows.len() {
        if rows.len() == 0 {
            Seq::empty()
        } else {
            rows[0]
        }
    } else {
        column(rows, 0)
    }
}

/// The side of a rectangle that answers: the last row where it is wider than
/// tall, else the last column.
pub open spec fn answer_side(rows: Seq<Seq<Val>>) -> Seq<Val> {
    if width_of(rows) > rows.len() {
        rows.last()
    } else {
        column(rows, width_of(rows) - 1)
    }
}

/// The entry of `answers` at the position at which `key` is found in `search`.
pub open spec fn answer(m: &ValueModel, search: Seq<Val>, answers: Seq<Val>, key: Val) -> Val {
    match settled_result(m, search, key) {
        Ok(Some(i)) => if 0 <= i < answers.len() {
            answers[i]
        } else {
            Val::Error(ErrorKind::Na)
        },
        Ok(None) => Val::Error(ErrorKind::Na),
        Err(k) => Val::Error(k),
    }
}

/// The result of the call.
pub open spec fn result(m: &ValueModel, call: CallModel) -> Val {
    let key = call.scalar(0);
    match (key.error(), call.arg(1).rows) {
        (Some(k), _) => Val::Error(k),
        (None, Err(k)) => Val::Error(k),
        (None, Ok(rows)) => if call.args.len() >= 3 {
            let search = match vector_of(rows) {
                Some(v) => v,
                None => search_side(rows),
            };
            match call.arg(2).rows {
                Err(k) => Val::Error(k),
                Ok(answers) => match vector_of(answers) {
                    None => Val::Error(ErrorKind::Unsupported),
                    Some(v) => answer(m, search, v, key),
                },
            }
        } else {
            match vector_of(rows) {
                Some(v) => answer(m, v, v, key),
                None => answer(m, search_side(rows), answer_side(rows), key),
            }
        },
    }
}

/// The entries of a single row or of rows of one cell.
pub fn linearize(rows: &Vec<Vec<Value>>) -> (r: Option<Vec<Value>>)
    ensures
        match r {
            Some(v) => vector_of(row_views(rows@)) == Some(views(v@)),
            None => vector_of(row_views(rows@)) is None,
        },
{
    if rows.len() == 0 {
        let none: Vec<Value> = Vec::new();
        assert(views(none@) == Seq::<Val>::empty());
        Some(none)
    } else if rows.len() == 1 {
        Some(row_copy(&rows[0]))
    } else if width(rows) <= 1 {
        Some(column_of(rows, 0))
    } else {
        None
    }
}

/// The side of a rectangle that is searched.
pub fn oriented_search_vector(rows: &Vec<Vec<Value>>) -> (r: Vec<Value>)
    ensures
        views(r@) == search_side(row_views(rows@)),
{
    if width(rows) > rows.len() {
        if rows.len() == 0 {
            let none: Vec<Value> = Vec::new();
            assert(views(none@) == Seq::<Val>::empty());
            none
        } else {
            row_copy(&rows[0])
        }
    } else {
        column_of(rows, 0)
    }
}

fn oriented_result_vector(rows: &Vec<Vec<Value>>) -> (r: Vec<Value>)
    requires
        width_of(row_views(rows@)) > 0,
        rows@.len() > 0,
    ensures
        views(r@) == answer_side(row_views(rows@)),
{
    let w = width(rows);
    if w > rows.len() {
        row_copy(&rows[rows.len() - 1])
    } else {
        column_of(rows, w - 1)
    }
}

fn answer_from(m: &ValueModel, search: &Vec<Value>, answers: &Vec<Value>, key: &Value) -> (v: Value)
    ensures
        v@ == answer(m, views(search@), views(answers@), key@),
{
    match settling_search(m, search, key) {
        Ok(Some(i)) => if i < answers.len() {
            answers[i].duplicate()
        } else {
            Value::Error(ErrorKind::Na)
        },
        Ok(None) => Value::Error(ErrorKind::Na),
        Err(k) => Value::Error(k),
    }
}

/// Evaluates the call.
pub fn eval<A: CallArgs>(ctx: &EvalContext, args: &A) -> (v: Value)
    requires
        ready(args),
    ensures
        v@ == result(&ctx.model, args.call()),
{
    let key = args.eval_scalar(0);
    if let Some(k) = key.error() {
        return Value::Error(k);
    }
    let rows = match args.rows(1) {
        Ok(rows) => rows,
        Err(k) => {
            return Value::Error(k);
        },
    };
    if args.count() >= 3 {
        let search = match linearize(&rows) {
            Some(v) => v,
            None => oriented_search_vector(&rows),
        };
        let answer_rows = match args.rows(2) {
            Ok(rows) => rows,
            Err(k) => {
                return Value::Error(k);
            },
        };
        match linearize(&answer_rows) {
            Some(answers) => answer_from(&ctx.model, &search, &answers, &key),
            None => Value::Error(ErrorKind::Unsupported),
        }
    } else {
        match linearize(&rows) {
            Some(v) => answer_from(&ctx.model, &v, &v, &key),
            None => {
                let search = oriented_search_vector(&rows);
                let answers = oriented_result_vector(&rows);
                answer_from(&ctx.model, &search, &answers, &key)
            },
        }
    }
}

/// Whether the search of `cells` for `key` comes to rest at position `i`: the entries are
/// neither blank nor errors and ascend, those before position `lv` below the key, those
/// from there on to position `ab` level with it and the others above it; and `i` is the
/// only level entry, or the last one below the key where none is level.
pub open spec fn rests_at(m: &ValueModel, cells: Seq<Val>, key: Val, lv: int, ab: int, i: int) -> bool {
    &&& !(key is Blank)
    &&& key.error() is None
    &&& 0 <= lv <= ab <= cells.len()
    &&& forall|p: int|
        0 <= p < cells.len() ==> !(#[trigger] cells[p] is Blank) && !(cells[p] is Error) && m.order(cells[p], key) == Ok::<
            Standing,
            ErrorKind,
        >(
            if p < lv {
                Standing::Below
            } else if p < ab {
                Standing::Level
            } else {
                Standing::Above
            },
        )
    &&& if lv == ab {
        i == lv - 1
    } else {
        ab == lv + 1 && i == lv
    }
}

/// Rows that all have the given width.
pub open spec fn full_rows(rows: Seq<Seq<Val>>, w: int) -> bool {
    forall|r: int| 0 <= r < rows.len() ==> (#[trigger] rows[r]).len() == w
}

/// The entries of the first column of full rows, from the top.
pub open spec fn first_of_each(rows: Seq<Seq<Val>>) -> Seq<Val> {
    Seq::new(rows.len(), |r: int| rows[r][0])
}

/// The law of the array form: a table of `h` rows of `w` cells, with more than one row
/// and column, that is no wider than tall, is searched down its first column, and the
/// row at which the search comes to rest answers with its last cell. A wider one is
/// searched along its first row, and the cell below, in the last row, is the answer.
/// Where all entries are above the key there is no answer.
pub proof fn law_array_answers_from_its_last_line(
    m: &ValueModel,
    call: CallModel,
    h: int,
    w: int,
    lv: int,
    ab: int,
    i: int,
)
    requires
        call.args.len() < 3,
        call.arg(1).rows matches Ok(rows) && rows.len() == h && full_rows(rows, w),
        h > 1,
        w > 1,
    ensures
        h >= w && rests_at(m, first_of_each(call.arg(1).rows->Ok_0), call.scalar(0), lv, ab, i) ==> result(m, call) == (
        if i < 0 {
            Val::Error(ErrorKind::Na)
        } else {
            call.arg(1).rows->Ok_0[i][w - 1]
        }),
        w > h && rests_at(m, call.arg(1).rows->Ok_0[0], call.scalar(0), lv, ab, i) ==> result(m, call) == (if i < 0 {
            Val::Error(ErrorKind::Na)
        } else {
            call.arg(1).rows->Ok_0[h - 1][i]
        }),
{
    let rows = call.arg(1).rows->Ok_0;
    let key = call.scalar(0);
    crate::grid::lemma_rectangle(rows, w as nat);
    assert(rows[0].len() == w);
    assert(rows[h - 1].len() == w);
    if h >= w && rests_at(m, first_of_each(rows), key, lv, ab, i) {
        assert forall|r: int| 0 <= r < h implies #[trigger] column(rows, 0)[r] == rows[r][0] && column(rows, w - 1)[r]
            == rows[r][w - 1] by {
            assert(rows[r].len() == w);
        }
        assert(first_of_each(rows) =~= column(rows, 0));
        law_settling_finds_largest(m, column(rows, 0), key, lv, ab);
    }
    if w > h && rests_at(m, rows[0], key, lv, ab, i) {
        law_settling_finds_largest(m, rows[0], key, lv, ab);
    }
}

/// The entries of a single row, or of more rows of one cell each, of a range.
pub open spec fn entries_are(rows: Seq<Seq<Val>>, cells: Seq<Val>) -> bool {
    (rows.len() == 1 && cells == rows[0]) || (rows.len() > 1 && full_rows(rows, 1) && cells == first_of_each(rows))
}

/// The law of the vector form: the entry of the result vector at the position at which
/// the search of the lookup vector comes to rest is the answer. Without a result vector
/// it is the entry of the lookup vector itself. There is no answer where all entries are
/// above the key or the result vector ends before the position.
pub proof fn law_vector_answers_at_the_same_position(
    m: &ValueModel,
    call: CallModel,
    cells: Seq<Val>,
    answers: Seq<Val>,
    lv: int,
    ab: int,
    i: int,
)
    requires
        call.arg(1).rows matches Ok(rows) && entries_are(rows, cells),
        if call.args.len() >= 3 {
            call.arg(2).rows matches Ok(rows) && entries_are(rows, answers)
        } else {
            answers == cells
        },
        rests_at(m, cells, call.scalar(0), lv, ab, i),
    ensures
        result(m, call) == (if 0 <= i < answers.len() {
            answers[i]
        } else {
            Val::Error(ErrorKind::Na)
        }),
{
    lemma_entries(call.arg(1).rows->Ok_0, cells);
    if call.args.len() >= 3 {
        lemma_entries(call.arg(2).rows->Ok_0, answers);
    }
    law_settling_finds_largest(m, cells, call.scalar(0), lv, ab);
}

proof fn lemma_entries(rows: Seq<Seq<Val>>, cells: Seq<Val>)
    requires
        entries_are(rows, cells),
    ensures
        vector_of(rows) == Some(cells),
{
    if rows.len() > 1 {
        crate::grid::lemma_rectangle(rows, 1);
        assert forall|r: int| 0 <= r < rows.len() implies #[trigger] column(rows, 0)[r] == rows[r][0] by {
            assert(rows[r].len() == 1);
        }
        assert(cells =~= column(rows, 0));
    }
}

/// The law of the refusals: an error for a key comes first, then that of the table, then
/// that of the result vector; a result vector of more than one row and column is refused.
/// Wherever there is an answer, it stands in the table or the result vector.
pub proof fn law_refusals_come_in_order(m: &ValueModel, call: CallModel, w: int)
    ensures
        call.scalar(0) matches Val::Error(e) ==> result(m, call) == Val::Error(e),
        !(call.scalar(0) is Error) ==> (call.arg(1).rows matches Err(e) ==> result(m, call) == Val::Error(e)),
        !(call.scalar(0) is Error) && call.arg(1).rows is Ok && call.args.len() >= 3 ==> {
            &&& call.arg(2).rows matches Err(e) ==> result(m, call) == Val::Error(e)
            &&& call.arg(2).rows matches Ok(rows) ==> (rows.len() > 1 && w > 1 && full_rows(rows, w) ==> result(m, call)
                == Val::Error(ErrorKind::Unsupported))
        },
{
    if call.arg(2).rows is Ok {
        let rows = call.arg(2).rows->Ok_0;
        if rows.len() > 1 && w > 1 && full_rows(rows, w) {
            crate::grid::lemma_rectangle(rows, w as nat);
        }
    }
}

/// The law of the table with a result vector: a table of more than one row and column is
/// searched down its first column where it is no wider than tall, and else along its first
/// row, and the entry of the result vector at the position at which the search comes to
/// rest is the answer.
pub proof fn law_table_answers_from_the_result_vector(
    m: &ValueModel,
    call: CallModel,
    h: int,
    w: int,
    answers: Seq<Val>,
    lv: int,
    ab: int,
    i: int,
)
    requires
        call.args.len() >= 3,
        call.arg(1).rows matches Ok(rows) && rows.len() == h && full_rows(rows, w),
        call.arg(2).rows matches Ok(rows) && entries_are(rows, answers),
        h > 1,
        w > 1,
        rests_at(
            m,
            if h >= w {
                first_of_each(call.arg(1).rows->Ok_0)
            } else {
                call.arg(1).rows->Ok_0[0]
            },
            call.scalar(0),
            lv,
            ab,
            i,
        ),
    ensures
        result(m, call) == (if 0 <= i < answers.len() {
            answers[i]
        } else {
            Val::Error(ErrorKind::Na)
        }),
{
    let rows = call.arg(1).rows->Ok_0;
    let key = call.scalar(0);
    crate::grid::lemma_rectangle(rows, w as nat);
    lemma_entries(call.arg(2).rows->Ok_0, answers);
    if h >= w {
        assert forall|r: int| 0 <= r < h implies #[trigger] column(rows, 0)[r] == rows[r][0] by {
            assert(rows[r].len() == w);
        }
        assert(first_of_each(rows) =~= column(rows, 0));
        law_settling_finds_largest(m, column(rows, 0), key, lv, ab);
    } else {
        law_settling_finds_largest(m, rows[0], key, lv, ab);
    }
}

} // verus!
