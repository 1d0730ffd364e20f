//! Aggregates over the cells that meet criteria.
//!
//! The first argument is the range whose cells are aggregated; then come pairs of
//! a range of the same shape and a criterion. A cell counts where every criterion
//! accepts the cell at the same place of its own range.

use crate::aggregate::{gather, gathered, lemma_gather_adds};
use crate::args::{ready, row_views, CallArgs, CallModel};
use crate::grid::{cell, row_entry, width, width_of};
use crate::model::{cell_number, coerce_cell, NumericArg, Ruling, ValueModel};
use crate::number::Number;
use crate::value::{ErrorKind, Val, Value};
use vstd::prelude::*;

verus! {

/// The number of pairs.
pub open spec fn pairs(call: CallModel) -> int {
    (call.args.len() - 1) / 2
}

/// The criterion of pair `k`, counted from zero.
pub open spec fn criterion(call: CallModel, k: int) -> Val {
    call.scalar(2 + 2 * k)
}

/// The rows of the range of pair `k`.
pub open spec fn range(call: CallModel, k: int) -> Result<Seq<Seq<Val>>, ErrorKind> {
    call.arg(1 + 2 * k).rows
}

/// The error that the criteria from pair `k` on settle the call with.
pub open spec fn settled(m: &ValueModel, call: CallModel, k: int) -> Option<ErrorKind>
    decreases pairs(call) - k,
{
    if k >= pairs(call) {
        None
    } else {
        match m.settled_by(criterion(call, k)) {
            Some(e) => Some(e),
            None => settled(m, call, k + 1),
        }
    }
}

/// Two rectangles have the same number of rows and the same width.
pub open spec fn same_shape(a: Seq<Seq<Val>>, b: Seq<Seq<Val>>) -> bool {
    a.len() == b.len() && width_of(a) == width_of(b)
}

/// The error of the ranges from pair `k` on: one that cannot be walked, or whose
/// shape is not that of `target`.
pub open spec fn misfit(call: CallModel, target: Seq<Seq<Val>>, k: int) -> Option<ErrorKind>
    decreases pairs(call) - k,
{
    if k >= pairs(call) {
        None
    } else {
        match range(call, k) {
            Err(e) => Some(e),
            Ok(rows) => if same_shape(rows, target) {
                misfit(call, target, k + 1)
            } else {
                Some(ErrorKind::Value)
            },
        }
    }
}

/// What the criteria from pair `k` on make of the place at row `r` and column `c`.
/// The first that does not accept decides.
pub open spec fn verdict(m: &ValueModel, call: CallModel, r: int, c: int, k: int) -> Ruling
    decreases pairs(call) - k,
{
    if k >= pairs(call) {
        Ruling::Accept
    } else {
        match m.ruling(criterion(call, k), cell(range(call, k)->Ok_0, r, c)) {
            Ruling::Accept => verdict(m, call, r, c, k + 1),
            other => other,
        }
    }
}

/// What the place at row `r` and column `c` contributes.
pub open spec fn item(m: &ValueModel, call: CallModel, target: Seq<Seq<Val>>, r: int, c: int) -> NumericArg {
    match verdict(m, call, r, c, 0) {
        Ruling::Accept => cell_number(cell(target, r, c)),
        Ruling::Reject => NumericArg::Skip,
        Ruling::Refuse(e) => NumericArg::Error(e),
    }
}

/// What the places of row `r` before column `c` contribute.
pub open spec fn row_items(m: &ValueModel, call: CallModel, target: Seq<Seq<Val>>, r: int, c: nat) -> Seq<
    NumericArg,
> {
    Seq::new(c, |j: int| item(m, call, target, r, j))
}

/// What the rows before row `r` contribute, row by row.
pub open spec fn items(m: &ValueModel, call: CallModel, target: Seq<Seq<Val>>, r: int) -> Seq<NumericArg>
    decreases r,
{
    if r <= 0 {
        Seq::empty()
    } else {
        items(m, call, target, r - 1) + row_items(m, call, target, r - 1, width_of(target))
    }
}

/// The numbers that count, or the error that the call results in.
pub open spec fn matched(m: &ValueModel, call: CallModel) -> Result<Seq<Number>, ErrorKind> {
    if call.args.len() < 3 || call.args.len() % 2 == 0 {
        Err(ErrorKind::Value)
    } else {
        match (settled(m, call, 0), call.arg(0).rows) {
            (Some(e), _) => Err(e),
            (None, Err(e)) => Err(e),
            (None, Ok(target)) => match misfit(call, target, 0) {
                Some(e) => Err(e),
                None => gather(items(m, call, target, target.len() as int)),
            },
        }
    }
}

fn rows_cell(rows: &Vec<Vec<Value>>, r: usize, c: usize) -> (v: Value)
    ensures
        v@ == cell(row_views(rows@), r as int, c as int),
{
    if r < rows.len() {
        row_entry(&rows[r], c)
    } else {
        Value::Blank
    }
}

/// The criteria of the call, where none of them settles it.
fn criteria<A: CallArgs>(m: &ValueModel, args: &A) -> (r: Result<Vec<Value>, ErrorKind>)
    requires
        ready(args),
        args.call().args.len() >= 3,
    ensures
        match r {
            Ok(cs) => settled(m, args.call(), 0) is None && cs@.len() == pairs(args.call()) && (
            forall|k: int|
                0 <= k < cs@.len() ==> (#[trigger] cs@[k])@ == criterion(args.call(), k)),
            Err(e) => settled(m, args.call(), 0) == Some(e),
        },
{
    let n = (args.count() - 1) / 2;
    let mut cs: Vec<Value> = Vec::new();
    for k in 0..n
        invariant
            ready(args),
            n == pairs(args.call()),
            n <= usize::MAX / 2,
            2 * n + 1 <= args.call().args.len() <= usize::MAX,
            cs@.len() == k,
            forall|j: int| 0 <= j < k ==> (#[trigger] cs@[j])@ == criterion(args.call(), j),
            settled(m, args.call(), 0) == settled(m, args.call(), k as int),
    {
        let c = args.eval_scalar(2 + 2 * k);
        if let Some(e) = m.short_circuit(&c) {
            return Err(e);
        }
        cs.push(c);
    }
    Ok(cs)
}

/// The ranges of the pairs, where all of them fit `target`.
fn ranges<A: CallArgs>(args: &A, target: &Vec<Vec<Value>>) -> (r: Result<Vec<Vec<Vec<Value>>>, ErrorKind>)
    requires
        ready(args),
        args.call().args.len() >= 3,
    ensures
        match r {
            Ok(gs) => misfit(args.call(), row_views(target@), 0) is None && gs@.len() == pairs(
                args.call(),
            ) && (forall|k: int|
                #![trigger gs@[k]]
                0 <= k < gs@.len() ==> range(args.call(), k) == Ok::<Seq<Seq<Val>>, ErrorKind>(
                    row_views(gs@[k]@),
                )),
            Err(e) => misfit(args.call(), row_views(target@), 0) == Some(e),
        },
{
    let n = (args.count() - 1) / 2;
    let target_width = width(target);
    let mut gs: Vec<Vec<Vec<Value>>> = Vec::new();
    for k in 0..n
        invariant
            ready(args),
            n == pairs(args.call()),
            2 * n + 1 <= args.call().args.len() <= usize::MAX,
            target_width == width_of(row_views(target@)),
            gs@.len() == k,
            forall|j: int|
                #![trigger gs@[j]]
                0 <= j < k ==> range(args.call(), j) == Ok::<Seq<Seq<Val>>, ErrorKind>(
                    row_views(gs@[j]@),
                ),
            misfit(args.call(), row_views(target@), 0) == misfit(
                args.call(),
                row_views(target@),
                k as int,
            ),
    {
        match args.rows(1 + 2 * k) {
            Ok(rows) => {
                if rows.len() != target.len() || width(&rows) != target_width {
                    return Err(ErrorKind::Value);
                }
                gs.push(rows);
            },
            Err(e) => {
                return Err(e);
            },
        }
    }
    Ok(gs)
}

/// What the criteria make of a place.
fn judge<A: CallArgs>(
    m: &ValueModel,
    args: &A,
    cs: &Vec<Value>,
    gs: &Vec<Vec<Vec<Value>>>,
    r: usize,
    c: usize,
) -> (ruling: Ruling)
    requires
        cs@.len() == pairs(args.call()),
        gs@.len() == cs@.len(),
        forall|k: int| 0 <= k < cs@.len() ==> (#[trigger] cs@[k])@ == criterion(args.call(), k),
        forall|k: int|
            #![trigger gs@[k]]
            0 <= k < gs@.len() ==> range(args.call(), k) == Ok::<Seq<Seq<Val>>, ErrorKind>(
                row_views(gs@[k]@),
            ),
    ensures
        ruling == verdict(m, args.call(), r as int, c as int, 0),
{
    for k in 0..cs.len()
        invariant
            cs@.len() == pairs(args.call()),
            gs@.len() == cs@.len(),
            forall|j: int| 0 <= j < cs@.len() ==> (#[trigger] cs@[j])@ == criterion(args.call(), j),
            forall|j: int|
                #![trigger gs@[j]]
                0 <= j < gs@.len() ==> range(args.call(), j) == Ok::<Seq<Seq<Val>>, ErrorKind>(
                    row_views(gs@[j]@),
                ),
            verdict(m, args.call(), r as int, c as int, 0) == verdict(
                m,
                args.call(),
                r as int,
                c as int,
                k as int,
            ),
    {
        match m.rule(&cs[k], &rows_cell(&gs[k], r, c)) {
            Ruling::Accept => {},
            Ruling::Reject => {
                return Ruling::Reject;
            },
            Ruling::Refuse(e) => {
                return Ruling::Refuse(e);
            },
        }
    }
    Ruling::Accept
}

/// An error in the first rows is the error of all.
proof fn lemma_error_is_final(m: &ValueModel, call: CallModel, target: Seq<Seq<Val>>, r: int, to: int)
    requires
        0 <= r <= to,
        gather(items(m, call, target, r)) is Err,
    ensures
        gather(items(m, call, target, to)) == gather(items(m, call, target, r)),
    decreases to - r,
{
    if r < to {
        lemma_error_is_final(m, call, target, r, to - 1);
        lemma_gather_adds(
            items(m, call, target, to - 1),
            row_items(m, call, target, to - 1, width_of(target)),
        );
    }
}

/// Gathers the numbers that count.
pub fn matched_numbers<A: CallArgs>(m: &ValueModel, args: &A) -> (r: Result<Vec<Number>, ErrorKind>)
    requires
        ready(args),
    ensures
        gathered(r, matched(m, args.call())),
{
    let count = args.count();
    if count < 3 || count % 2 == 0 {
        return Err(ErrorKind::Value);
    }
    let cs = match criteria(m, args) {
        Ok(cs) => cs,
        Err(e) => {
            return Err(e);
        },
    };
    let target = match args.rows(0) {
        Ok(rows) => rows,
        Err(e) => {
            return Err(e);
        },
    };
    let gs = match ranges(args, &target) {
        Ok(gs) => gs,
        Err(e) => {
            return Err(e);
        },
    };
    let w = width(&target);
    let ghost call = args.call();
    let ghost t = row_views(target@);
    let mut ns: Vec<Number> = Vec::new();
    assert(ns@ == Seq::<Number>::empty());
    for r in 0..target.len()
        invariant
            call == args.call(),
            t == row_views(target@),
            t.len() == target@.len(),
            w == width_of(t),
            cs@.len() == pairs(args.call()),
            gs@.len() == cs@.len(),
            forall|j: int| 0 <= j < cs@.len() ==> (#[trigger] cs@[j])@ == criterion(args.call(), j),
            forall|j: int|
                #![trigger gs@[j]]
                0 <= j < gs@.len() ==> range(args.call(), j) == Ok::<Seq<Seq<Val>>, ErrorKind>(
                    row_views(gs@[j]@),
                ),
            matched(m, call) == gather(items(m, call, t, t.len() as int)),
            gather(items(m, call, t, r as int)) == Ok::<Seq<Number>, ErrorKind>(ns@),
    {
        let ghost before = items(m, call, t, r as int);
        assert(before + row_items(m, call, t, r as int, 0) == before);
        for c in 0..w
            invariant
                call == args.call(),
                t == row_views(target@),
                t.len() == target@.len(),
                r < t.len(),
                w == width_of(t),
                cs@.len() == pairs(args.call()),
                gs@.len() == cs@.len(),
                forall|j: int|
                    0 <= j < cs@.len() ==> (#[trigger] cs@[j])@ == criterion(args.call(), j),
                forall|j: int|
                    #![trigger gs@[j]]
                    0 <= j < gs@.len() ==> range(args.call(), j) == Ok::<Seq<Seq<Val>>, ErrorKind>(
                        row_views(gs@[j]@),
                    ),
                matched(m, call) == gather(items(m, call, t, t.len() as int)),
                before == items(m, call, t, r as int),
                gather(before + row_items(m, call, t, r as int, c as nat)) == Ok::<
                    Seq<Number>,
                    ErrorKind,
                >(ns@),
        {
            let ghost now = before + row_items(m, call, t, r as int, c as nat);
            let ghost next = before + row_items(m, call, t, r as int, (c + 1) as nat);
            let found = match judge(m, args, &cs, &gs, r, c) {
                Ruling::Accept => coerce_cell(&rows_cell(&target, r, c)),
                Ruling::Reject => NumericArg::Skip,
                Ruling::Refuse(e) => NumericArg::Error(e),
            };
            assert(next.drop_last() == now);
            assert(next.last() == found);
            match found {
                NumericArg::Number(n) => {
                    ns.push(n);
                },
                NumericArg::Skip => {},
                NumericArg::Error(e) => {
                    proof {
                        let rest = row_items(m, call, t, r as int, w as nat).skip(c + 1);
                        lemma_gather_adds(next, rest);
                        assert(next + rest == items(m, call, t, r + 1));
                        lemma_error_is_final(m, call, t, r + 1, t.len() as int);
                    }
                    return Err(e);
                },
            }
        }
        assert(before + row_items(m, call, t, r as int, w as nat) == items(m, call, t, r + 1));
    }
    Ok(ns)
}

/// The law of criteria: a place counts exactly where every criterion accepts it.
pub proof fn law_every_criterion_must_accept(m: &ValueModel, call: CallModel, r: int, c: int, k: int)
    ensures
        verdict(m, call, r, c, k) == Ruling::Accept <==> forall|j: int|
            k <= j < pairs(call) ==> m.ruling(
                #[trigger] criterion(call, j),
                cell(range(call, j)->Ok_0, r, c),
            ) == Ruling::Accept,
    decreases pairs(call) - k,
{
    if k < pairs(call) {
        law_every_criterion_must_accept(m, call, r, c, k + 1);
        assert(criterion(call, k) == criterion(call, k));
    }
}

/// The call has `n` pairs of a range and a criterion after the range whose cells count.
pub open spec fn has_pairs(call: CallModel, n: int) -> bool {
    n >= 1 && call.args.len() == 2 * n + 1
}

/// What the criterion in argument `2 * j` makes of the cell of the range in the argument
/// before it, at row `r` and column `c`.
pub open spec fn ruled(m: &ValueModel, call: CallModel, j: int, r: int, c: int) -> Ruling {
    m.ruling(call.scalar(2 * j), call.arg(2 * j - 1).rows->Ok_0[r][c])
}

/// Each of the `n` criteria accepts the place.
pub open spec fn accepted(m: &ValueModel, call: CallModel, n: int, r: int, c: int) -> bool {
    forall|j: int| 1 <= j <= n ==> #[trigger] ruled(m, call, j, r, c) == Ruling::Accept
}

/// A criterion refuses the place with `e`, and those before it accept it.
pub open spec fn refused(m: &ValueModel, call: CallModel, n: int, r: int, c: int, e: ErrorKind) -> bool {
    exists|j: int|
        1 <= j <= n && #[trigger] ruled(m, call, j, r, c) == Ruling::Refuse(e) && forall|i: int|
            1 <= i < j ==> #[trigger] ruled(m, call, i, r, c) == Ruling::Accept
}

/// Rows of a rectangle of the given extent.
pub open spec fn rectangle(rows: Result<Seq<Seq<Val>>, ErrorKind>, h: nat, w: nat) -> bool {
    rows matches Ok(rows) && rows.len() == h && forall|r: int| 0 <= r < h ==> (#[trigger] rows[r]).len() == w
}

/// The criterion in argument `2 * j` does not settle the call, and the range in the
/// argument before it is a rectangle of the given extent.
pub open spec fn pair_in_order(m: &ValueModel, call: CallModel, j: int, h: nat, w: nat) -> bool {
    m.settled_by(call.scalar(2 * j)) is None && rectangle(call.arg(2 * j - 1).rows, h, w)
}

/// No criterion settles the call, and all ranges are rectangles of the same extent.
pub open spec fn in_order(m: &ValueModel, call: CallModel, n: int, h: nat, w: nat) -> bool {
    &&& has_pairs(call, n)
    &&& h > 0
    &&& rectangle(call.arg(0).rows, h, w)
    &&& forall|j: int| 1 <= j <= n ==> #[trigger] pair_in_order(m, call, j, h, w)
}

/// The numbers `ns` are the cells of the first range that hold numbers where each of the
/// `n` criteria accepts, row by row, and `places` says where each of them stands: place
/// `p` is in row `p / w` and column `p % w`.
pub open spec fn accepted_numbers(
    m: &ValueModel,
    call: CallModel,
    n: int,
    h: nat,
    w: nat,
    ns: Seq<Number>,
    places: Seq<int>,
) -> bool {
    let target = call.arg(0).rows->Ok_0;
    &&& places.len() == ns.len()
    &&& forall|a: int, b: int| 0 <= a < b < places.len() ==> (#[trigger] places[a]) < (#[trigger] places[b])
    &&& forall|k: int|
        0 <= k < ns.len() ==> 0 <= (#[trigger] places[k]) < h * w && accepted(
            m,
            call,
            n,
            places[k] / w as int,
            places[k] % w as int,
        ) && target[places[k] / w as int][places[k] % w as int] == Val::Number(ns[k])
    &&& forall|r: int, c: int|
        0 <= r < h && 0 <= c < w && (#[trigger] target[r][c]) is Number && accepted(m, call, n, r, c) ==> places.contains(
            r * w + c,
        )
}

/// The place at row `r` and column `c` ends the call with the error `e`: a criterion
/// refuses it, or it is accepted and its cell cannot be used.
pub open spec fn fails(m: &ValueModel, call: CallModel, n: int, r: int, c: int, e: ErrorKind) -> bool {
    refused(m, call, n, r, c, e) || (accepted(m, call, n, r, c) && crate::aggregate::unusable(
        call.arg(0).rows->Ok_0[r][c],
    ) && e == crate::aggregate::own_error(call.arg(0).rows->Ok_0[r][c]))
}

/// The verdict of one pair is that of its criterion on the aligned cell.
proof fn lemma_ruled(m: &ValueModel, call: CallModel, n: int, h: nat, w: nat, r: int, c: int, k: int)
    requires
        in_order(m, call, n, h, w),
        0 <= r < h,
        0 <= c < w,
        0 <= k < n,
    ensures
        pairs(call) == n,
        ruled(m, call, k + 1, r, c) == m.ruling(criterion(call, k), cell(range(call, k)->Ok_0, r, c)),
{
    let j = k + 1;
    assert(pair_in_order(m, call, j, h, w));
    assert(2 * j - 1 == 1 + 2 * k);
    assert(2 * j == 2 + 2 * k);
    let rows = range(call, k)->Ok_0;
    assert(rows[r].len() == w);
}

/// The first ruling from `k` on that is not an acceptance.
spec fn first_other(rulings: Seq<Ruling>, k: int) -> Ruling
    decreases rulings.len() - k,
{
    if k >= rulings.len() {
        Ruling::Accept
    } else {
        match rulings[k] {
            Ruling::Accept => first_other(rulings, k + 1),
            other => other,
        }
    }
}

proof fn lemma_first_other(rulings: Seq<Ruling>, k: int)
    requires
        0 <= k <= rulings.len(),
    ensures
        match first_other(rulings, k) {
            Ruling::Accept => forall|j: int| k <= j < rulings.len() ==> #[trigger] rulings[j] == Ruling::Accept,
            other => exists|j: int|
                k <= j < rulings.len() && #[trigger] rulings[j] == other && forall|i: int|
                    k <= i < j ==> #[trigger] rulings[i] == Ruling::Accept,
        },
    decreases rulings.len() - k,
{
    if k < rulings.len() {
        lemma_first_other(rulings, k + 1);
        assert(rulings[k] == rulings[k]);
    }
}

/// The rulings on the place, in the order of the pairs.
spec fn rulings(m: &ValueModel, call: CallModel, n: int, r: int, c: int) -> Seq<Ruling> {
    Seq::new(n as nat, |j: int| ruled(m, call, j + 1, r, c))
}

/// The criteria from pair `k` on decide as the first of them that does not accept.
proof fn lemma_verdict_from(m: &ValueModel, call: CallModel, n: int, h: nat, w: nat, r: int, c: int, k: int)
    requires
        in_order(m, call, n, h, w),
        0 <= r < h,
        0 <= c < w,
        0 <= k <= n,
    ensures
        verdict(m, call, r, c, k) == first_other(rulings(m, call, n, r, c), k),
    decreases n - k,
{
    assert(pairs(call) == n);
    if k < n {
        lemma_verdict_from(m, call, n, h, w, r, c, k + 1);
        lemma_ruled(m, call, n, h, w, r, c, k);
        assert(rulings(m, call, n, r, c)[k] == ruled(m, call, k + 1, r, c));
    }
}

proof fn lemma_verdict(m: &ValueModel, call: CallModel, n: int, h: nat, w: nat, r: int, c: int)
    requires
        in_order(m, call, n, h, w),
        0 <= r < h,
        0 <= c < w,
    ensures
        match verdict(m, call, r, c, 0) {
            Ruling::Accept => forall|j: int| 0 < j <= n ==> #[trigger] ruled(m, call, j, r, c) == Ruling::Accept,
            other => exists|j: int|
                0 < j <= n && #[trigger] ruled(m, call, j, r, c) == other && forall|i: int|
                    0 < i < j ==> #[trigger] ruled(m, call, i, r, c) == Ruling::Accept,
        },
{
    let s = rulings(m, call, n, r, c);
    lemma_verdict_from(m, call, n, h, w, r, c, 0);
    lemma_first_other(s, 0);
    assert forall|j: int| 0 < j <= n implies #[trigger] ruled(m, call, j, r, c) == s[j - 1] by {}
    match verdict(m, call, r, c, 0) {
        Ruling::Accept => {},
        other => {
            let j = choose|j: int|
                0 <= j < s.len() && #[trigger] s[j] == other && forall|i: int|
                    0 <= i < j ==> #[trigger] s[i] == Ruling::Accept;
            assert(ruled(m, call, j + 1, r, c) == other);
        },
    }
}

/// An item of a row is what its place contributes.
proof fn lemma_item_in_row(m: &ValueModel, call: CallModel, target: Seq<Seq<Val>>, h: int, r: int, c: int)
    requires
        0 <= r < h,
        0 <= c < width_of(target),
    ensures
        items(m, call, target, h).len() == h * width_of(target),
        0 <= r * width_of(target) + c < h * width_of(target),
        items(m, call, target, h)[r * width_of(target) + c] == item(m, call, target, r, c),
    decreases h,
{
    let w = width_of(target) as int;
    lemma_items_len(m, call, target, h - 1);
    assert(h * w == (h - 1) * w + w) by (nonlinear_arith);
    if r < h - 1 {
        lemma_item_in_row(m, call, target, h - 1, r, c);
    }
    assert(r * w >= 0) by (nonlinear_arith)
        requires
            r >= 0,
            w >= 0,
    ;
}

proof fn lemma_items_len(m: &ValueModel, call: CallModel, target: Seq<Seq<Val>>, h: int)
    requires
        h >= 0,
    ensures
        items(m, call, target, h).len() == h * width_of(target),
    decreases h,
{
    let w = width_of(target) as int;
    if h > 0 {
        lemma_items_len(m, call, target, h - 1);
        assert(h * w == (h - 1) * w + w) by (nonlinear_arith);
    } else {
        assert(0 * w == 0);
    }
}

/// Flat places and rows with columns stand for each other.
proof fn lemma_flat(p: int, h: int, w: int)
    requires
        0 <= p < h * w,
        w >= 0,
        h >= 0,
    ensures
        w > 0,
        0 <= p / w < h,
        0 <= p % w < w,
        (p / w) * w + p % w == p,
{
    assert(w > 0) by (nonlinear_arith)
        requires
            0 <= p < h * w,
            w >= 0,
    ;
    vstd::arithmetic::div_mod::lemma_fundamental_div_mod(p, w);
    let q = p / w;
    assert(w * q == q * w) by (nonlinear_arith);
    assert(q < h) by (nonlinear_arith)
        requires
            q * w <= p < h * w,
            w > 0,
    ;
    assert(q >= 0) by (nonlinear_arith)
        requires
            p >= 0,
            w > 0,
            q == p / w,
    ;
}

/// The law of the matched numbers: where no criterion settles the call and all ranges
/// are rectangles of one extent, the numbers that count are the numbers of the first
/// range at the places that each of the `n` criteria accepts, row by row; and the call
/// ends with an error exactly where a place does, the first one row by row.
pub proof fn law_numbers_are_accepted_by_all(m: &ValueModel, call: CallModel, n: int, h: nat, w: nat)
    requires
        in_order(m, call, n, h, w),
    ensures
        matched(m, call) matches Ok(ns) ==> (exists|places: Seq<int>| accepted_numbers(m, call, n, h, w, ns, places))
            && forall|r: int, c: int, e: ErrorKind| 0 <= r < h && 0 <= c < w ==> !#[trigger] fails(m, call, n, r, c, e),
        matched(m, call) matches Err(e) ==> exists|r: int, c: int|
            0 <= r < h && 0 <= c < w && #[trigger] fails(m, call, n, r, c, e) && forall|a: int, b: int, f: ErrorKind|
                0 <= a < h && 0 <= b < w && (a < r || (a == r && b < c)) ==> !#[trigger] fails(m, call, n, a, b, f),
{
    let target = call.arg(0).rows->Ok_0;
    lemma_settled_and_fitting(m, call, n, h, w);
    crate::grid::lemma_rectangle(target, w);
    let all = items(m, call, target, h as int);
    lemma_items_len(m, call, target, h as int);
    crate::aggregate::lemma_gather_picks(all);
    assert forall|r: int, c: int| 0 <= r < h && 0 <= c < w implies {
        &&& 0 <= r * w + c < h * w
        &&& all[r * w + c] == #[trigger] item(m, call, target, r, c)
        &&& match item(m, call, target, r, c) {
            NumericArg::Number(x) => accepted(m, call, n, r, c) && target[r][c] == Val::Number(x) && forall|e: ErrorKind|
                !#[trigger] fails(m, call, n, r, c, e),
            NumericArg::Skip => !(accepted(m, call, n, r, c) && target[r][c] is Number) && forall|e: ErrorKind|
                !#[trigger] fails(m, call, n, r, c, e),
            NumericArg::Error(e) => fails(m, call, n, r, c, e) && !(accepted(m, call, n, r, c) && target[r][c] is Number),
        }
    } by {
        lemma_item_in_row(m, call, target, h as int, r, c);
        lemma_place(m, call, n, h, w, r, c);
    }
    match matched(m, call) {
        Ok(ns) => {
            let places = choose|places: Seq<int>| crate::aggregate::picked(all, ns, places);
            assert forall|k: int| 0 <= k < ns.len() implies 0 <= (#[trigger] places[k]) < h * w && accepted(
                m,
                call,
                n,
                places[k] / w as int,
                places[k] % w as int,
            ) && target[places[k] / w as int][places[k] % w as int] == Val::Number(ns[k]) by {
                lemma_flat(places[k], h as int, w as int);
                let it = item(m, call, target, places[k] / w as int, places[k] % w as int);
                assert(all[places[k]] == it);
            }
            assert forall|r: int, c: int|
                0 <= r < h && 0 <= c < w && (#[trigger] target[r][c]) is Number && accepted(m, call, n, r, c)
                implies places.contains(r * w + c) by {
                let it = item(m, call, target, r, c);
                assert(all[r * w + c] is Number);
            }
            assert(accepted_numbers(m, call, n, h, w, ns, places));
            assert forall|r: int, c: int, e: ErrorKind| 0 <= r < h && 0 <= c < w implies !#[trigger] fails(
                m,
                call,
                n,
                r,
                c,
                e,
            ) by {
                let it = item(m, call, target, r, c);
                assert(!(all[r * w + c] is Error));
            }
        },
        Err(e) => {
            let i = choose|i: int| crate::aggregate::fails_at(all, i, e);
            lemma_flat(i, h as int, w as int);
            let (r, c) = (i / w as int, i % w as int);
            let it = item(m, call, target, r, c);
            assert(fails(m, call, n, r, c, e));
            assert forall|a: int, b: int, f: ErrorKind|
                0 <= a < h && 0 <= b < w && (a < r || (a == r && b < c)) implies !#[trigger] fails(m, call, n, a, b, f) by {
                let other = item(m, call, target, a, b);
                assert(a * w + b < r * w + c) by (nonlinear_arith)
                    requires
                        a < r || (a == r && b < c),
                        0 <= b < w,
                        0 <= c,
                ;
                assert(!(all[a * w + b] is Error));
            }
        },
    }
}

/// What a place contributes is what the criteria and its cell say.
proof fn lemma_place(m: &ValueModel, call: CallModel, n: int, h: nat, w: nat, r: int, c: int)
    requires
        in_order(m, call, n, h, w),
        0 <= r < h,
        0 <= c < w,
    ensures
        match item(m, call, call.arg(0).rows->Ok_0, r, c) {
            NumericArg::Number(x) => accepted(m, call, n, r, c) && call.arg(0).rows->Ok_0[r][c] == Val::Number(x)
                && forall|e: ErrorKind| !#[trigger] fails(m, call, n, r, c, e),
            NumericArg::Skip => !(accepted(m, call, n, r, c) && call.arg(0).rows->Ok_0[r][c] is Number) && forall|
                e: ErrorKind,
            |
                !#[trigger] fails(m, call, n, r, c, e),
            NumericArg::Error(e) => fails(m, call, n, r, c, e) && !(accepted(m, call, n, r, c)
                && call.arg(0).rows->Ok_0[r][c] is Number),
        },
{
    let target = call.arg(0).rows->Ok_0;
    lemma_verdict(m, call, n, h, w, r, c);
    assert(target[r].len() == w);
    assert(cell(target, r, c) == target[r][c]);
    match verdict(m, call, r, c, 0) {
        Ruling::Accept => {
            assert(accepted(m, call, n, r, c));
            assert forall|e: ErrorKind| !refused(m, call, n, r, c, e) by {
                if refused(m, call, n, r, c, e) {
                    let j = choose|j: int|
                        1 <= j <= n && #[trigger] ruled(m, call, j, r, c) == Ruling::Refuse(e) && forall|i: int|
                            1 <= i < j ==> #[trigger] ruled(m, call, i, r, c) == Ruling::Accept;
                    assert(ruled(m, call, j, r, c) == Ruling::Accept);
                }
            }
        },
        other => {
            let j = choose|j: int|
                0 < j <= n && #[trigger] ruled(m, call, j, r, c) == other && forall|i: int|
                    0 < i < j ==> #[trigger] ruled(m, call, i, r, c) == Ruling::Accept;
            assert(ruled(m, call, j, r, c) != Ruling::Accept);
            assert(!accepted(m, call, n, r, c));
            assert forall|e: ErrorKind| refused(m, call, n, r, c, e) == (other == Ruling::Refuse(e)) by {
                if refused(m, call, n, r, c, e) {
                    let i = choose|i: int|
                        1 <= i <= n && #[trigger] ruled(m, call, i, r, c) == Ruling::Refuse(e) && forall|d: int|
                            1 <= d < i ==> #[trigger] ruled(m, call, d, r, c) == Ruling::Accept;
                    assert(ruled(m, call, i, r, c) == Ruling::Refuse(e));
                    assert(i == j);
                }
                if other == Ruling::Refuse(e) {
                    assert(ruled(m, call, j, r, c) == Ruling::Refuse(e));
                }
            }
        },
    }
}

/// Nothing settles a call that is in order, and its ranges fit.
proof fn lemma_settled_and_fitting(m: &ValueModel, call: CallModel, n: int, h: nat, w: nat)
    requires
        in_order(m, call, n, h, w),
    ensures
        settled(m, call, 0) is None,
        misfit(call, call.arg(0).rows->Ok_0, 0) is None,
        matched(m, call) == gather(items(m, call, call.arg(0).rows->Ok_0, h as int)),
{
    lemma_nothing_settles(m, call, n, h, w, 0);
}

proof fn lemma_nothing_settles(m: &ValueModel, call: CallModel, n: int, h: nat, w: nat, k: int)
    requires
        in_order(m, call, n, h, w),
        0 <= k <= n,
    ensures
        settled(m, call, k) is None,
        misfit(call, call.arg(0).rows->Ok_0, k) is None,
    decreases n - k,
{
    let target = call.arg(0).rows->Ok_0;
    assert(pairs(call) == n);
    if k < n {
        lemma_nothing_settles(m, call, n, h, w, k + 1);
        let j = k + 1;
        assert(pair_in_order(m, call, j, h, w));
        assert(2 * j - 1 == 1 + 2 * k);
        assert(2 * j == 2 + 2 * k);
        crate::grid::lemma_rectangle(target, w);
        crate::grid::lemma_rectangle(range(call, k)->Ok_0, w);
    }
}

/// The number that the place at row `r` and column `c` counts with: that of the first
/// range, where each of the `n` criteria accepts the place.
pub open spec fn counts_with(m: &ValueModel, call: CallModel, n: int, r: int, c: int) -> Option<Number> {
    if accepted(m, call, n, r, c) && call.arg(0).rows->Ok_0[r][c] is Number {
        Some(call.arg(0).rows->Ok_0[r][c]->Number_0)
    } else {
        None
    }
}

/// No place ends the call with an error.
pub open spec fn no_place_fails(m: &ValueModel, call: CallModel, n: int, h: nat, w: nat) -> bool {
    forall|r: int, c: int, e: ErrorKind| 0 <= r < h && 0 <= c < w ==> !#[trigger] fails(m, call, n, r, c, e)
}

/// The place at row `r` and column `c` ends the call with the error `e`, and no place
/// before it, row by row, does.
pub open spec fn fails_first_at(
    m: &ValueModel,
    call: CallModel,
    n: int,
    h: nat,
    w: nat,
    r: int,
    c: int,
    e: ErrorKind,
) -> bool {
    &&& 0 <= r < h
    &&& 0 <= c < w
    &&& fails(m, call, n, r, c, e)
    &&& forall|a: int, b: int, f: ErrorKind|
        0 <= a < h && 0 <= b < w && (a < r || (a == r && b < c)) ==> !#[trigger] fails(m, call, n, a, b, f)
}

/// A place counts with the number `x`.
pub open spec fn counts_somewhere(m: &ValueModel, call: CallModel, n: int, h: nat, w: nat, x: Number) -> bool {
    exists|r: int, c: int| 0 <= r < h && 0 <= c < w && #[trigger] counts_with(m, call, n, r, c) == Some(x)
}

/// The matched numbers are those that the places count with.
pub proof fn lemma_matched_counts(m: &ValueModel, call: CallModel, n: int, h: nat, w: nat)
    requires
        in_order(m, call, n, h, w),
    ensures
        no_place_fails(m, call, n, h, w) <==> matched(m, call) is Ok,
        matched(m, call) matches Ok(ns) ==> {
            &&& forall|r: int, c: int|
                0 <= r < h && 0 <= c < w ==> (#[trigger] counts_with(m, call, n, r, c) matches Some(x) ==> ns.contains(x))
            &&& forall|k: int| 0 <= k < ns.len() ==> counts_somewhere(m, call, n, h, w, #[trigger] ns[k])
        },
        matched(m, call) matches Err(e) ==> exists|r: int, c: int| fails_first_at(m, call, n, h, w, r, c, e),
{
    law_numbers_are_accepted_by_all(m, call, n, h, w);
    match matched(m, call) {
        Ok(ns) => {
            let places = choose|places: Seq<int>| accepted_numbers(m, call, n, h, w, ns, places);
            let target = call.arg(0).rows->Ok_0;
            assert forall|r: int, c: int| 0 <= r < h && 0 <= c < w && (#[trigger] counts_with(m, call, n, r, c)) is Some
                implies ns.contains(counts_with(m, call, n, r, c)->0) by {
                assert(target[r][c] is Number);
                assert(places.contains(r * w + c));
                let k = choose|k: int| 0 <= k < places.len() && places[k] == r * w + c;
                lemma_unflat(r, c, w as int);
                assert(target[places[k] / w as int][places[k] % w as int] == Val::Number(ns[k]));
            }
            assert forall|k: int| 0 <= k < ns.len() implies counts_somewhere(m, call, n, h, w, #[trigger] ns[k]) by {
                let p = places[k];
                lemma_flat(p, h as int, w as int);
                assert(counts_with(m, call, n, p / w as int, p % w as int) == Some(ns[k]));
            }
        },
        Err(e) => {
            let (r, c) = choose|r: int, c: int|
                0 <= r < h && 0 <= c < w && #[trigger] fails(m, call, n, r, c, e) && forall|a: int, b: int, f: ErrorKind|
                    0 <= a < h && 0 <= b < w && (a < r || (a == r && b < c)) ==> !#[trigger] fails(m, call, n, a, b, f);
            assert(fails_first_at(m, call, n, h, w, r, c, e));
        },
    }
}

proof fn lemma_unflat(r: int, c: int, w: int)
    requires
        0 <= c < w,
    ensures
        (r * w + c) / w == r,
        (r * w + c) % w == c,
{
    vstd::arithmetic::div_mod::lemma_fundamental_div_mod_converse(r * w + c, w, r, c);
}

/// The law of the criteria: the arguments must be a range and then one or more pairs;
/// else the result is a value error. The first criterion that settles the call decides
/// before anything else is looked at.
pub proof fn law_criteria_settle_first(m: &ValueModel, call: CallModel, n: int, j: int)
    ensures
        call.args.len() % 2 == 0 || call.args.len() < 3 ==> matched(m, call) == Err::<Seq<Number>, ErrorKind>(
            ErrorKind::Value,
        ),
        has_pairs(call, n) && 1 <= j <= n && m.settled_by(call.scalar(2 * j)) is Some && unsettled_before(m, call, j)
            ==> matched(m, call) == Err::<Seq<Number>, ErrorKind>(m.settled_by(call.scalar(2 * j))->0),
{
    if has_pairs(call, n) && 1 <= j <= n && m.settled_by(call.scalar(2 * j)) is Some && unsettled_before(m, call, j) {
        lemma_settled_at(m, call, n, j, 0);
    }
}

/// No criterion before that of pair `j` settles the call.
pub open spec fn unsettled_before(m: &ValueModel, call: CallModel, j: int) -> bool {
    forall|i: int| 1 <= i < j ==> #[trigger] settles_nothing(m, call, i)
}

/// The criterion in argument `2 * i` does not settle the call.
pub open spec fn settles_nothing(m: &ValueModel, call: CallModel, i: int) -> bool {
    m.settled_by(call.scalar(2 * i)) is None
}

proof fn lemma_settled_at(m: &ValueModel, call: CallModel, n: int, j: int, k: int)
    requires
        has_pairs(call, n),
        0 <= k < j <= n + 1,
        unsettled_before(m, call, j),
        j <= n ==> m.settled_by(call.scalar(2 * j)) is Some,
    ensures
        settled(m, call, k) == (if j <= n {
            m.settled_by(call.scalar(2 * j))
        } else {
            None
        }),
    decreases j - k,
{
    assert(pairs(call) == n);
    assert(2 + 2 * k == 2 * (k + 1));
    if k + 1 < j {
        assert(settles_nothing(m, call, k + 1));
        lemma_settled_at(m, call, n, j, k + 1);
    } else if k < n {
    }
}

/// The range in argument `2 * i - 1` can be walked and has the extent of the first.
pub open spec fn range_fits(call: CallModel, i: int) -> bool {
    call.arg(0).rows matches Ok(target) && (call.arg(2 * i - 1).rows matches Ok(rows) && rows.len() == target.len()
        && width_of(rows) == width_of(target))
}

/// The law of the extents: where no criterion settles the call, the first range that
/// cannot be walked decides with its error, the range whose cells count before all
/// others, and one of another extent than that range with a value error.
pub proof fn law_ranges_must_fit(m: &ValueModel, call: CallModel, n: int, j: int)
    requires
        has_pairs(call, n),
        unsettled_before(m, call, n + 1),
    ensures
        call.arg(0).rows matches Err(e) ==> matched(m, call) == Err::<Seq<Number>, ErrorKind>(e),
        call.arg(0).rows is Ok && 1 <= j <= n && !range_fits(call, j) && (forall|i: int|
            1 <= i < j ==> #[trigger] range_fits(call, i)) ==> matched(m, call) == Err::<Seq<Number>, ErrorKind>(
            match call.arg(2 * j - 1).rows {
                Err(e) => e,
                Ok(_) => ErrorKind::Value,
            },
        ),
{
    lemma_settled_at(m, call, n, n + 1, 0);
    if call.arg(0).rows is Ok && 1 <= j <= n && !range_fits(call, j) && (forall|i: int|
        1 <= i < j ==> #[trigger] range_fits(call, i)) {
        lemma_misfit_at(call, n, j, 0);
    }
}

proof fn lemma_misfit_at(call: CallModel, n: int, j: int, k: int)
    requires
        has_pairs(call, n),
        0 <= k < j <= n,
        call.arg(0).rows is Ok,
        !range_fits(call, j),
        forall|i: int| 1 <= i < j ==> #[trigger] range_fits(call, i),
    ensures
        misfit(call, call.arg(0).rows->Ok_0, k) == Some(
            match call.arg(2 * j - 1).rows {
                Err(e) => e,
                Ok(_) => ErrorKind::Value,
            },
        ),
    decreases j - k,
{
    assert(pairs(call) == n);
    assert(1 + 2 * k == 2 * (k + 1) - 1);
    if k + 1 < j {
        assert(range_fits(call, k + 1));
        lemma_misfit_at(call, n, j, k + 1);
    }
}

/// The law of the pairs: every argument after the first belongs to one of the pairs, and
/// the criterion of each stands right after its range.
pub proof fn law_pairs_take_all_arguments(call: CallModel, k: int)
    requires
        call.args.len() >= 3,
        call.args.len() % 2 == 1,
    ensures
        2 * pairs(call) + 1 == call.args.len(),
        0 <= k < pairs(call) ==> range(call, k) == call.arg(2 * (k + 1) - 1).rows && criterion(call, k) == call.scalar(
            2 * (k + 1),
        ),
{
}

} // verus!
