//! `HSTACK(array1, [array2], ...)`: arrays side by side.
//!
//! The result is as high as the highest array and as wide as all of them
//! together; below a lower array it holds the error for a value that is not
//! available. Cells are moved as they are. An empty slot, a range that cannot be
//! walked, an empty result and one of more cells than may be spilled are refused.

use crate::args::{ready, row_views, ArgModel, ArgShape, CallArgs, CallModel};
use crate::grid::{cell, row_entry, width, width_of};
use crate::model::EvalContext;
use crate::value::{views, Array, ErrorKind, Grid, Val, Value};
use vstd::prelude::*;

verus! {

/// The rows of argument `i`, or why it is refused.
pub open spec fn grid(call: CallModel, i: int) -> Result<Seq<Seq<Val>>, ErrorKind> {
    if call.arg(i).shape == ArgShape::Omitted {
        Err(ErrorKind::Unsupported)
    } else {
        call.arg(i).rows
    }
}

/// The first refusal among the arguments from argument `i` on.
pub open spec fn refusal(call: CallModel, i: int) -> Option<ErrorKind>
    decreases call.args.len() - i,
{
    if i >= call.args.len() {
        None
    } else {
        match grid(call, i) {
            Err(k) => Some(k),
            Ok(_) => refusal(call, i + 1),
        }
    }
}

/// The rows of argument `i`, which is not refused.
pub open spec fn block(call: CallModel, i: int) -> Seq<Seq<Val>> {
    grid(call, i)->Ok_0
}

/// The height of the highest of the first `n` arguments.
pub open spec fn height(call: CallModel, n: int) -> nat
    decreases n,
{
    if n <= 0 {
        0
    } else {
        let rest = height(call, n - 1);
        if block(call, n - 1).len() > rest {
            block(call, n - 1).len()
        } else {
            rest
        }
    }
}

/// The width of the first `n` arguments together.
pub open spec fn total_width(call: CallModel, n: int) -> nat
    decreases n,
{
    if n <= 0 {
        0
    } else {
        total_width(call, n - 1) + width_of(block(call, n - 1))
    }
}

/// What argument `i` puts into row `r`, up to column `c` of its own.
pub open spec fn strip(call: CallModel, i: int, r: int, c: nat) -> Seq<Val> {
    Seq::new(
        c,
        |j: int|
            if r < block(call, i).len() {
                cell(block(call, i), r, j)
            } else {
                Val::Error(ErrorKind::Na)
            },
    )
}

/// Row `r` of the first `n` arguments side by side.
pub open spec fn stacked_row(call: CallModel, r: int, n: int) -> Seq<Val>
    decreases n,
{
    if n <= 0 {
        Seq::empty()
    } else {
        stacked_row(call, r, n - 1) + strip(call, n - 1, r, width_of(block(call, n - 1)))
    }
}

/// The first `rows` rows of all arguments side by side, row by row.
pub open spec fn stacked(call: CallModel, rows: int) -> Seq<Val>
    decreases rows,
{
    if rows <= 0 {
        Seq::empty()
    } else {
        stacked(call, rows - 1) + stacked_row(call, rows - 1, call.args.len() as int)
    }
}

/// The result of the call.
pub open spec fn result(cap: int, call: CallModel) -> Val {
    let n = call.args.len() as int;
    match refusal(call, 0) {
        Some(k) => Val::Error(k),
        None => {
            let rows = height(call, n);
            let cols = total_width(call, n);
            if rows * cols == 0 || rows * cols > cap {
                Val::Error(ErrorKind::Unsupported)
            } else {
                Val::Array(Grid { rows, cols, cells: stacked(call, rows as int) })
            }
        },
    }
}

/// A row of the result is as wide as all arguments together.
proof fn lemma_row_width(call: CallModel, r: int, n: int)
    requires
        n >= 0,
    ensures
        stacked_row(call, r, n).len() == total_width(call, n),
    decreases n,
{
    if n > 0 {
        lemma_row_width(call, r, n - 1);
    }
}

/// The rows of the result fill it.
proof fn lemma_stacked_len(call: CallModel, rows: int)
    requires
        rows >= 0,
    ensures
        stacked(call, rows).len() == rows * total_width(call, call.args.len() as int),
    decreases rows,
{
    let w = total_width(call, call.args.len() as int);
    if rows > 0 {
        lemma_stacked_len(call, rows - 1);
        lemma_row_width(call, rows - 1, call.args.len() as int);
        assert(rows * w == (rows - 1) * w + w) by (nonlinear_arith);
    } else {
        assert(0 * w == 0);
    }
}

/// The rows of every argument, or why the call is refused.
fn collect_grids<A: CallArgs>(args: &A) -> (r: Result<Vec<Vec<Vec<Value>>>, ErrorKind>)
    requires
        ready(args),
    ensures
        match r {
            Ok(gs) => refusal(args.call(), 0) is None && gs@.len() == args.call().args.len() && (
            forall|i: int|
                #![trigger gs@[i]]
                0 <= i < gs@.len() ==> row_views(gs@[i]@) == block(args.call(), i)),
            Err(k) => refusal(args.call(), 0) == Some(k),
        },
{
    let n = args.count();
    let mut gs: Vec<Vec<Vec<Value>>> = Vec::new();
    for i in 0..n
        invariant
            ready(args),
            n == args.call().args.len(),
            gs@.len() == i,
            forall|j: int|
                #![trigger gs@[j]]
                0 <= j < i ==> row_views(gs@[j]@) == block(args.call(), j),
            refusal(args.call(), 0) == refusal(args.call(), i as int),
    {
        if args.shape(i) == ArgShape::Omitted {
            return Err(ErrorKind::Unsupported);
        }
        match args.rows(i) {
            Ok(rows) => {
                gs.push(rows);
            },
            Err(k) => {
                return Err(k);
            },
        }
    }
    Ok(gs)
}

/// Evaluates the call.
pub fn eval<A: CallArgs>(ctx: &EvalContext, args: &A) -> (v: Value)
    requires
        ready(args),
    ensures
        v@ == result(ctx.spill_cap as int, args.call()),
{
    let gs = match collect_grids(args) {
        Ok(gs) => gs,
        Err(k) => {
            return Value::Error(k);
        },
    };
    let ghost call = args.call();
    let n = gs.len();
    let mut rows: usize = 0;
    let mut cols: usize = 0;
    let mut widths: Vec<usize> = Vec::new();
    for i in 0..n
        invariant
            n == gs@.len(),
            n == call.args.len(),
            call == args.call(),
            refusal(call, 0) is None,
            forall|j: int| #![trigger gs@[j]] 0 <= j < n ==> row_views(gs@[j]@) == block(call, j),
            rows == height(call, i as int),
            cols == total_width(call, i as int),
            widths@.len() == i,
            forall|j: int| 0 <= j < i ==> #[trigger] widths@[j] == width_of(block(call, j)),
    {
        let w = width(&gs[i]);
        let h = gs[i].len();
        assert(row_views(gs@[i as int]@).len() == h);
        if w > usize::MAX - cols {
            proof {
                lemma_width_grows(call, i + 1, n as int);
                if rows < h {
                    lemma_height_grows(call, i + 1, n as int);
                }
                lemma_refused_when_wide(call, n as int, ctx.spill_cap as int, usize::MAX as int);
            }
            return Value::Error(ErrorKind::Unsupported);
        }
        cols = cols + w;
        widths.push(w);
        if h > rows {
            rows = h;
        }
    }
    if rows == 0 || cols == 0 {
        assert(rows * cols == 0) by (nonlinear_arith)
            requires
                rows == 0 || cols == 0,
        ;
        return Value::Error(ErrorKind::Unsupported);
    }
    assert(rows * cols > 0) by (nonlinear_arith)
        requires
            rows > 0,
            cols > 0,
    ;
    if cols > ctx.spill_cap / rows {
        proof {
            let cap = ctx.spill_cap as int;
            let (a, b) = (rows as int, cols as int);
            vstd::arithmetic::div_mod::lemma_fundamental_div_mod(cap, a);
            assert(a * b > cap) by (nonlinear_arith)
                requires
                    cap == a * (cap / a) + cap % a,
                    cap % a < a,
                    a > 0,
                    b >= cap / a + 1,
            ;
        }
        return Value::Error(ErrorKind::Unsupported);
    }
    proof {
        let cap = ctx.spill_cap as int;
        let (a, b) = (rows as int, cols as int);
        vstd::arithmetic::div_mod::lemma_fundamental_div_mod(cap, a);
        assert(a * b <= cap) by (nonlinear_arith)
            requires
                cap == a * (cap / a) + cap % a,
                cap % a >= 0,
                a > 0,
                b <= cap / a,
        ;
    }
    let mut data: Vec<Value> = Vec::new();
    assert(views(data@) == Seq::<Val>::empty());
    for r in 0..rows
        invariant
            n == gs@.len(),
            n == call.args.len(),
            n == widths@.len(),
            forall|j: int| #![trigger gs@[j]] 0 <= j < n ==> row_views(gs@[j]@) == block(call, j),
            forall|j: int| 0 <= j < n ==> #[trigger] widths@[j] == width_of(block(call, j)),
            views(data@) == stacked(call, r as int),
    {
        let ghost above = views(data@);
        assert(above + Seq::<Val>::empty() == above);
        for i in 0..n
            invariant
                n == gs@.len(),
                n == call.args.len(),
                n == widths@.len(),
                forall|j: int| #![trigger gs@[j]] 0 <= j < n ==> row_views(gs@[j]@) == block(call, j),
                forall|j: int| 0 <= j < n ==> #[trigger] widths@[j] == width_of(block(call, j)),
                above == stacked(call, r as int),
                views(data@) == above + stacked_row(call, r as int, i as int),
        {
            let ghost before = views(data@);
            assert(before + strip(call, i as int, r as int, 0) == before);
            let w = widths[i];
            for c in 0..w
                invariant
                    i < n,
                    n == gs@.len(),
                    w == width_of(block(call, i as int)),
                    row_views(gs@[i as int]@) == block(call, i as int),
                    views(data@) == before + strip(call, i as int, r as int, c as nat),
            {
                let ghost so_far = data@;
                let g = &gs[i];
                assert(row_views(g@).len() == g@.len());
                let v = if r < g.len() {
                    row_entry(&g[r], c)
                } else {
                    Value::Error(ErrorKind::Na)
                };
                data.push(v);
                assert(views(data@) == views(so_far).push(v@));
                assert(strip(call, i as int, r as int, (c + 1) as nat) == strip(
                    call,
                    i as int,
                    r as int,
                    c as nat,
                ).push(v@));
                assert(views(data@) == before + strip(call, i as int, r as int, (c + 1) as nat));
            }
            assert(above + stacked_row(call, r as int, i + 1) == before + strip(
                call,
                i as int,
                r as int,
                w as nat,
            ));
        }
    }
    proof {
        lemma_stacked_len(call, rows as int);
        assert(views(data@).len() == data@.len());
    }
    match Array::new(rows, cols, data) {
        Some(a) => Value::Array(a),
        None => Value::Error(ErrorKind::Unsupported),
    }
}

proof fn lemma_width_grows(call: CallModel, i: int, n: int)
    requires
        0 <= i <= n,
    ensures
        total_width(call, i) <= total_width(call, n),
    decreases n - i,
{
    if i < n {
        lemma_width_grows(call, i, n - 1);
    }
}

proof fn lemma_height_grows(call: CallModel, i: int, n: int)
    requires
        0 <= i <= n,
    ensures
        height(call, i) <= height(call, n),
    decreases n - i,
{
    if i < n {
        lemma_height_grows(call, i, n - 1);
    }
}

/// Arguments that are together wider than any cap are refused.
proof fn lemma_refused_when_wide(call: CallModel, n: int, cap: int, limit: int)
    requires
        n == call.args.len(),
        cap <= limit,
        total_width(call, n) > limit,
        refusal(call, 0) is None,
    ensures
        result(cap, call) == Val::Error(ErrorKind::Unsupported),
{
    let a = height(call, n) as int;
    let b = total_width(call, n) as int;
    assert(a * b == 0 || a * b > cap) by (nonlinear_arith)
        requires
            a >= 0,
            b > cap,
            b > 0 || cap < 0,
            b >= 0,
    ;
}

/// The law of stacking: cell by cell the result holds what its arguments hold.
/// The cell of argument `i` at row `r` and column `c` stands in row `r`, to the
/// right of all that the arguments before it take up; below an argument stands
/// the error for a value that is not available.
pub proof fn law_cells_are_moved(call: CallModel, n: int, i: int, r: int, c: int)
    requires
        0 <= i < n,
        0 <= c < width_of(block(call, i)),
    ensures
        total_width(call, i) + c < total_width(call, n),
        stacked_row(call, r, n)[total_width(call, i) + c] == if r < block(call, i).len() {
            cell(block(call, i), r, c)
        } else {
            Val::Error(ErrorKind::Na)
        },
    decreases n,
{
    lemma_row_width(call, r, n - 1);
    if i < n - 1 {
        law_cells_are_moved(call, n - 1, i, r, c);
    }
}

/// The law of rows: row `r` of the result, which has the width of all arguments
/// together, starts after `r` such rows.
pub proof fn law_rows_are_stacked(call: CallModel, rows: int, r: int, c: int)
    requires
        0 <= r < rows,
        0 <= c < total_width(call, call.args.len() as int),
    ensures
        stacked(call, rows)[r * total_width(call, call.args.len() as int) + c] == stacked_row(
            call,
            r,
            call.args.len() as int,
        )[c],
    decreases rows,
{
    let n = call.args.len() as int;
    let w = total_width(call, n) as int;
    lemma_stacked_len(call, rows - 1);
    lemma_row_width(call, rows - 1, n);
    if r < rows - 1 {
        law_rows_are_stacked(call, rows - 1, r, c);
        assert(r * w + c < (rows - 1) * w) by (nonlinear_arith)
            requires
                r + 1 <= rows - 1,
                0 <= c < w,
        ;
        assert(0 <= r * w) by (nonlinear_arith)
            requires
                r >= 0,
                w >= 0,
        ;
    }
}

/// The arguments are given as rows of equal length each, argument `i` as rows of `widths[i]`
/// cells, and `starts[i]` is the sum of the widths before it.
pub open spec fn side_by_side(call: CallModel, widths: Seq<int>, starts: Seq<int>) -> bool {
    &&& widths.len() == call.args.len()
    &&& starts.len() == call.args.len() + 1
    &&& starts[0] == 0
    &&& forall|i: int| 0 <= i < call.args.len() ==> #[trigger] follows(widths, starts, i)
    &&& forall|i: int| 0 <= i < call.args.len() ==> full_argument(#[trigger] call.arg(i), widths[i])
}

/// The next start is one width on.
pub open spec fn follows(widths: Seq<int>, starts: Seq<int>, i: int) -> bool {
    starts[i + 1] == starts[i] + widths[i]
}

/// The argument is given, and has one or more rows of the given width.
pub open spec fn full_argument(arg: ArgModel, w: int) -> bool {
    arg.shape != ArgShape::Omitted && (arg.rows matches Ok(rows) && rows.len() > 0 && w >= 0 && forall|r: int|
        0 <= r < rows.len() ==> (#[trigger] rows[r]).len() == w)
}

/// No argument has more rows than `h`, and one has as many.
pub open spec fn highest(call: CallModel, h: int) -> bool {
    &&& forall|i: int| 0 <= i < call.args.len() ==> (#[trigger] call.arg(i)).rows->Ok_0.len() <= h
    &&& exists|i: int| 0 <= i < call.args.len() && (#[trigger] call.arg(i)).rows->Ok_0.len() == h
}

/// The law of the result: of arguments that are rows of equal length each, it is as high as
/// the highest and as wide as all together. Row by row, the cell in row `r` and column `c`
/// of argument `i` stands in row `r`, to the right of all arguments before it; below the
/// last row of an argument stands the error for a value that is not available. Without a
/// cell, or with more than may be spilled, the result is refused.
pub proof fn law_arguments_stand_side_by_side(
    cap: int,
    call: CallModel,
    widths: Seq<int>,
    starts: Seq<int>,
    h: int,
    i: int,
    r: int,
    c: int,
)
    requires
        call.args.len() > 0,
        side_by_side(call, widths, starts),
        highest(call, h),
    ensures
        h * starts.last() == 0 || h * starts.last() > cap ==> result(cap, call) == Val::Error(ErrorKind::Unsupported),
        0 < h * starts.last() <= cap ==> (result(cap, call) matches Val::Array(g) && g.rows == h && g.cols == starts.last()
            && (0 <= i < call.args.len() && 0 <= r < h && 0 <= c < widths[i] ==> g.cells[r * starts.last() + starts[i] + c]
            == (if r < call.arg(i).rows->Ok_0.len() {
            call.arg(i).rows->Ok_0[r][c]
        } else {
            Val::Error(ErrorKind::Na)
        }))),
{
    let n = call.args.len() as int;
    lemma_widths(call, widths, starts, n);
    lemma_height(call, widths, starts, n);
    lemma_no_refusal(call, widths, starts, 0);
    let top = choose|j: int| 0 <= j < n && (#[trigger] call.arg(j)).rows->Ok_0.len() == h;
    assert(full_argument(call.arg(top), widths[top]));
    assert(block(call, top).len() == h);
    let rows = height(call, n);
    assert(rows == h) by {
        let j = choose|j: int| 0 <= j < n && (#[trigger] call.arg(j)).rows->Ok_0.len() == rows;
        assert(call.arg(j).rows->Ok_0.len() <= h);
        assert(call.arg(top).rows->Ok_0.len() <= rows);
    }
    if 0 < h * starts.last() <= cap && 0 <= i < n && 0 <= r < h && 0 <= c < widths[i] {
        lemma_widths(call, widths, starts, i);
        assert(full_argument(call.arg(i), widths[i]));
        crate::grid::lemma_rectangle(block(call, i), widths[i] as nat);
        law_cells_are_moved(call, n, i, r, c);
        law_rows_are_stacked(call, h, r, starts[i] + c);
        if r < block(call, i).len() {
            assert(block(call, i)[r].len() == widths[i]);
        }
    }
}

proof fn lemma_widths(call: CallModel, widths: Seq<int>, starts: Seq<int>, n: int)
    requires
        side_by_side(call, widths, starts),
        0 <= n <= call.args.len(),
    ensures
        total_width(call, n) == starts[n],
        starts[n] >= 0,
    decreases n,
{
    if n > 0 {
        lemma_widths(call, widths, starts, n - 1);
        assert(follows(widths, starts, n - 1));
        assert(full_argument(call.arg(n - 1), widths[n - 1]));
        crate::grid::lemma_rectangle(block(call, n - 1), widths[n - 1] as nat);
    }
}

proof fn lemma_height(call: CallModel, widths: Seq<int>, starts: Seq<int>, n: int)
    requires
        side_by_side(call, widths, starts),
        0 <= n <= call.args.len(),
    ensures
        forall|i: int| 0 <= i < n ==> (#[trigger] call.arg(i)).rows->Ok_0.len() <= height(call, n),
        n > 0 ==> exists|i: int| 0 <= i < n && (#[trigger] call.arg(i)).rows->Ok_0.len() == height(call, n),
    decreases n,
{
    if n > 0 {
        lemma_height(call, widths, starts, n - 1);
        assert(full_argument(call.arg(n - 1), widths[n - 1]));
        assert(block(call, n - 1).len() == call.arg(n - 1).rows->Ok_0.len());
        if height(call, n) == call.arg(n - 1).rows->Ok_0.len() {
            assert(call.arg(n - 1).rows->Ok_0.len() == height(call, n));
        } else {
            assert(height(call, n) == height(call, n - 1));
            let i = choose|i: int| 0 <= i < n - 1 && (#[trigger] call.arg(i)).rows->Ok_0.len() == height(call, n - 1);
            assert(call.arg(i).rows->Ok_0.len() == height(call, n));
        }
    }
}

proof fn lemma_no_refusal(call: CallModel, widths: Seq<int>, starts: Seq<int>, i: int)
    requires
        side_by_side(call, widths, starts),
        0 <= i <= call.args.len(),
    ensures
        refusal(call, i) is None,
    decreases call.args.len() - i,
{
    if i < call.args.len() {
        assert(full_argument(call.arg(i), widths[i]));
        lemma_no_refusal(call, widths, starts, i + 1);
    }
}

/// The argument can be put beside others: its slot is not empty and its rows are walked.
pub open spec fn stackable(arg: ArgModel) -> bool {
    arg.shape != ArgShape::Omitted && arg.rows is Ok
}

/// The law of the refusals: the first argument that cannot be put beside others decides, an
/// empty slot as a refusal and any other with its own error.
pub proof fn law_first_bad_argument_decides(cap: int, call: CallModel, i: int)
    requires
        0 <= i < call.args.len(),
        !stackable(call.arg(i)),
        forall|j: int| 0 <= j < i ==> stackable(#[trigger] call.arg(j)),
    ensures
        result(cap, call) == Val::Error(
            if call.arg(i).shape == ArgShape::Omitted {
                ErrorKind::Unsupported
            } else {
                call.arg(i).rows->Err_0
            },
        ),
{
    lemma_refusal_at(call, 0, i);
}

proof fn lemma_refusal_at(call: CallModel, from: int, i: int)
    requires
        0 <= from <= i < call.args.len(),
        !stackable(call.arg(i)),
        forall|j: int| 0 <= j < i ==> stackable(#[trigger] call.arg(j)),
    ensures
        refusal(call, from) == refusal(call, i),
    decreases i - from,
{
    if from < i {
        assert(stackable(call.arg(from)));
        lemma_refusal_at(call, from + 1, i);
    }
}

} // verus!
