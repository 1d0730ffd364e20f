//! The arguments of a call, as functions see them.
//!
//! Functions reach their arguments through [`CallArgs`], which a host
//! implements over its own evaluator. An argument is evaluated only when a
//! function asks for it, and [`CallArgs::forceable`] says which arguments may be
//! asked for: a function that is verified against it cannot evaluate any other.
//! In the same way [`CallArgs::readable`] says which cells of a sheet may be read.
//! [`Call`] is an implementation over arguments that have been evaluated already.

use crate::value::{views, Array, ErrorKind, Grid, Val, Value};
use vstd::prelude::*;

verus! {

/// The syntactic shape of an argument.
#[derive(Clone, Copy, Debug, PartialEq, Eq, Structural)]
pub enum ArgShape {
    /// An empty slot, or none at all.
    Omitted,
    /// An expression or a reference with a single value.
    Scalar,
    /// A reference to several cells.
    Range,
    /// An array constant.
    Array,
}

/// How an aggregate treats an argument.
#[derive(Clone, Copy, Debug, PartialEq, Eq, Structural)]
pub enum EffShape {
    Omitted,
    /// A single value that is no reference: it is coerced.
    ScalarLiteral,
    /// Cells: a range, an array constant or a reference to one cell.
    Aggregate,
}

/// The rectangle of a sheet that a reference spans: its first row and column,
/// counted from zero, and its extent.
#[derive(Clone, Copy, Debug, PartialEq, Eq, Structural)]
pub struct RefRect {
    pub row: u32,
    pub col: u32,
    pub height: u32,
    pub width: u32,
}

impl RefRect {
    /// The rectangle lies on a sheet whose rows and columns `u32` counts.
    pub open spec fn on_sheet(self) -> bool {
        self.row + self.height <= u32::MAX && self.col + self.width <= u32::MAX
    }

    /// The cell lies in the rectangle.
    pub open spec fn covers(self, row: u32, col: u32) -> bool {
        self.row <= row < self.row + self.height && self.col <= col < self.col + self.width
    }
}

/// Everything that a function can learn of one argument.
pub struct ArgModel {
    pub shape: ArgShape,
    /// The argument is a reference to one cell.
    pub reference: bool,
    /// The value in a scalar position.
    pub scalar: Val,
    /// The value in a position that takes arrays.
    pub array_scalar: Val,
    /// The cells in the order of a scan.
    pub cells: Seq<Val>,
    /// The rows of the whole rectangle, or why they are not walked.
    pub rows: Result<Seq<Seq<Val>>, ErrorKind>,
    /// The rows in use, each with its position, or why they are not walked.
    pub used_rows: Result<Seq<(u32, Seq<Val>)>, ErrorKind>,
    /// The columns in use, each with its position, or why they are not walked.
    pub used_cols: Result<Seq<(u32, Seq<Val>)>, ErrorKind>,
    /// The rectangle that the argument refers to.
    pub extent: Option<RefRect>,
    /// The cell at a row and column of the sheet, where the argument covers it.
    pub sheet: spec_fn(u32, u32) -> Option<Val>,
}

/// Everything that a function can learn of its call.
pub struct CallModel {
    pub args: Seq<ArgModel>,
    /// The call stands where an array is taken.
    pub array_context: bool,
}

/// An argument that is not there.
pub open spec fn no_argument() -> ArgModel {
    ArgModel {
        shape: ArgShape::Omitted,
        reference: false,
        scalar: Val::Blank,
        array_scalar: Val::Blank,
        cells: Seq::empty(),
        rows: Ok(Seq::empty()),
        used_rows: Err(ErrorKind::Unsupported),
        used_cols: Err(ErrorKind::Unsupported),
        extent: None,
        sheet: |r: u32, c: u32| None,
    }
}

impl CallModel {
    /// What is to be learned of argument `i`.
    pub open spec fn arg(self, i: int) -> ArgModel {
        if 0 <= i < self.args.len() {
            self.args[i]
        } else {
            no_argument()
        }
    }

    /// The value of argument `i` in a scalar position.
    pub open spec fn scalar(self, i: int) -> Val {
        self.arg(i).scalar
    }
}

impl ArgModel {
    /// How an aggregate treats the argument.
    pub open spec fn eff_shape(self) -> EffShape {
        match self.shape {
            ArgShape::Omitted => EffShape::Omitted,
            ArgShape::Scalar => if self.reference {
                EffShape::Aggregate
            } else {
                EffShape::ScalarLiteral
            },
            _ => EffShape::Aggregate,
        }
    }
}

/// What the values of rows are.
pub open spec fn row_views(rows: Seq<Vec<Value>>) -> Seq<Seq<Val>> {
    Seq::new(rows.len(), |i: int| views(rows[i]@))
}

/// What the values of positioned lines are.
pub open spec fn line_views(lines: Seq<(u32, Vec<Value>)>) -> Seq<(u32, Seq<Val>)> {
    Seq::new(lines.len(), |i: int| (lines[i].0, views(lines[i].1@)))
}

/// The arguments of a call.
pub trait CallArgs {
    /// What is to be learned of the call: the answers that the methods give. A host
    /// whose evaluator is not verified leaves it as it is.
    open spec fn call(&self) -> CallModel {
        arbitrary()
    }

    /// Whether argument `i` may be evaluated.
    open spec fn forceable(&self, i: int) -> bool {
        true
    }

    /// Whether the cell at a row and column of the sheet may be read through the
    /// reference that argument `i` is.
    open spec fn readable(&self, i: int, row: u32, col: u32) -> bool {
        true
    }

    /// The number of arguments, empty slots counted.
    fn count(&self) -> (n: usize)
        ensures
            n == self.call().args.len(),
    ;

    /// The shape of argument `i`.
    fn shape(&self, i: usize) -> (s: ArgShape)
        ensures
            s == self.call().arg(i as int).shape,
    ;

    /// Whether argument `i` is a reference to one cell.
    fn is_reference(&self, i: usize) -> (b: bool)
        ensures
            b == self.call().arg(i as int).reference,
    ;

    /// Whether the call stands where an array is taken.
    fn array_arg_ctx(&self) -> (b: bool)
        ensures
            b == self.call().array_context,
    ;

    /// Evaluates argument `i` in a scalar position.
    fn eval_scalar(&self, i: usize) -> (v: Value)
        requires
            self.forceable(i as int),
        ensures
            v@ == self.call().scalar(i as int),
    ;

    /// Evaluates argument `i` in a position that takes arrays.
    fn eval_scalar_array_arg(&self, i: usize) -> (v: Value)
        requires
            self.forceable(i as int),
        ensures
            v@ == self.call().arg(i as int).array_scalar,
    ;

    /// The cells of argument `i` in the order of a scan.
    fn cells(&self, i: usize) -> (cells: Vec<Value>)
        requires
            self.forceable(i as int),
        ensures
            views(cells@) == self.call().arg(i as int).cells,
    ;

    /// The rows of argument `i`, where it is bounded.
    fn rows(&self, i: usize) -> (r: Result<Vec<Vec<Value>>, ErrorKind>)
        requires
            self.forceable(i as int),
        ensures
            match r {
                Ok(rows) => self.call().arg(i as int).rows == Ok::<Seq<Seq<Val>>, ErrorKind>(
                    row_views(rows@),
                ),
                Err(k) => self.call().arg(i as int).rows == Err::<Seq<Seq<Val>>, ErrorKind>(k),
            },
    ;

    /// The rows in use of argument `i`, each with its position.
    fn used_rows(&self, i: usize) -> (r: Result<Vec<(u32, Vec<Value>)>, ErrorKind>)
        requires
            self.forceable(i as int),
        ensures
            match r {
                Ok(lines) => self.call().arg(i as int).used_rows == Ok::<
                    Seq<(u32, Seq<Val>)>,
                    ErrorKind,
                >(line_views(lines@)),
                Err(k) => self.call().arg(i as int).used_rows == Err::<
                    Seq<(u32, Seq<Val>)>,
                    ErrorKind,
                >(k),
            },
    ;

    /// The columns in use of argument `i`, each with its position.
    fn used_cols(&self, i: usize) -> (r: Result<Vec<(u32, Vec<Value>)>, ErrorKind>)
        requires
            self.forceable(i as int),
        ensures
            match r {
                Ok(lines) => self.call().arg(i as int).used_cols == Ok::<
                    Seq<(u32, Seq<Val>)>,
                    ErrorKind,
                >(line_views(lines@)),
                Err(k) => self.call().arg(i as int).used_cols == Err::<
                    Seq<(u32, Seq<Val>)>,
                    ErrorKind,
                >(k),
            },
    ;

    /// The rectangle that argument `i` refers to.
    fn arg_ref_extent(&self, i: usize) -> (r: Option<RefRect>)
        ensures
            r == self.call().arg(i as int).extent,
            r matches Some(rect) ==> rect.on_sheet(),
    ;

    /// Reads the cell at a row and column of the sheet, where argument `i` covers it.
    fn cell_at(&self, i: usize, row: u32, col: u32) -> (v: Option<Value>)
        requires
            self.readable(i as int, row, col),
        ensures
            match v {
                Some(v) => (self.call().arg(i as int).sheet)(row, col) == Some(v@),
                None => (self.call().arg(i as int).sheet)(row, col) is None,
            },
    ;
}

/// Every argument may be evaluated.
pub open spec fn ready<A: CallArgs>(args: &A) -> bool {
    forall|i: int| args.forceable(i)
}

/// How an aggregate treats argument `i`.
pub fn eff_shape<A: CallArgs>(args: &A, i: usize) -> (s: EffShape)
    ensures
        s == args.call().arg(i as int).eff_shape(),
{
    match args.shape(i) {
        ArgShape::Omitted => EffShape::Omitted,
        ArgShape::Scalar => {
            if args.is_reference(i) {
                EffShape::Aggregate
            } else {
                EffShape::ScalarLiteral
            }
        },
        ArgShape::Range => EffShape::Aggregate,
        ArgShape::Array => EffShape::Aggregate,
    }
}

/// An argument that has been evaluated already.
#[derive(Debug, PartialEq)]
pub enum Arg {
    /// An empty slot.
    Omitted,
    /// A single value that is no reference.
    Scalar(Value),
    /// The value of the one cell that is referred to.
    CellRef(Value),
    /// The cells of a bounded range.
    Range(Array),
    /// An array constant.
    Constant(Array),
    /// The cells of a range whose rows and columns cannot be walked.
    Unbounded(Vec<Value>),
    /// The rows in use of a range of whole columns.
    UsedRows(Vec<(u32, Vec<Value>)>),
    /// The columns in use of a range of whole rows.
    UsedCols(Vec<(u32, Vec<Value>)>),
    /// A reference to whole rows or columns, with the cells that are not blank.
    RefCells(RefRect, Vec<(u32, u32, Value)>),
}

/// A call whose arguments have been evaluated already.
#[derive(Debug, PartialEq)]
pub struct Call {
    pub args: Vec<Arg>,
    pub array_context: bool,
}

/// The rows of a rectangle.
pub open spec fn grid_rows(g: Grid) -> Seq<Seq<Val>> {
    Seq::new(g.rows, |r: int| Seq::new(g.cols, |c: int| g.at(r, c)))
}

/// The value of a rectangle in a scalar position: that of its one cell. More
/// cells are handed on only where an array is taken.
pub open spec fn grid_scalar(g: Grid, array_context: bool) -> Val {
    if g.single() {
        g.at(0, 0)
    } else if array_context {
        Val::Array(g)
    } else {
        Val::Error(ErrorKind::Unsupported)
    }
}

/// The cells of positioned lines, line by line.
pub open spec fn joined(lines: Seq<(u32, Seq<Val>)>) -> Seq<Val>
    decreases lines.len(),
{
    if lines.len() == 0 {
        Seq::empty()
    } else {
        joined(lines.drop_last()) + lines.last().1
    }
}

/// The value that the first entry for a cell gives; of a cell that has none, a blank.
pub open spec fn listed(cells: Seq<(u32, u32, Value)>, row: u32, col: u32) -> Val
    decreases cells.len(),
{
    if cells.len() == 0 {
        Val::Blank
    } else if cells[0].0 == row && cells[0].1 == col {
        cells[0].2@
    } else {
        listed(cells.drop_first(), row, col)
    }
}

/// What the values of listed cells are.
pub open spec fn listed_views(cells: Seq<(u32, u32, Value)>) -> Seq<Val> {
    Seq::new(cells.len(), |i: int| cells[i].2@)
}

impl Arg {
    /// What is to be learned of the argument.
    pub open spec fn model(self, array_context: bool) -> ArgModel {
        let refused = ArgModel {
            shape: ArgShape::Range,
            scalar: Val::Error(ErrorKind::Unsupported),
            array_scalar: Val::Error(ErrorKind::Unsupported),
            rows: Err(ErrorKind::Unsupported),
            ..no_argument()
        };
        match self {
            Arg::Omitted => no_argument(),
            Arg::Scalar(v) => ArgModel {
                shape: ArgShape::Scalar,
                scalar: v@,
                array_scalar: v@,
                cells: seq![v@],
                rows: Ok(seq![seq![v@]]),
                ..no_argument()
            },
            Arg::CellRef(v) => ArgModel {
                shape: ArgShape::Scalar,
                reference: true,
                scalar: v@,
                array_scalar: v@,
                cells: seq![v@],
                rows: Ok(seq![seq![v@]]),
                ..no_argument()
            },
            Arg::Range(a) => ArgModel {
                shape: ArgShape::Range,
                scalar: grid_scalar(a@, array_context),
                array_scalar: grid_scalar(a@, true),
                cells: a@.cells,
                rows: Ok(grid_rows(a@)),
                ..no_argument()
            },
            Arg::Constant(a) => ArgModel {
                shape: ArgShape::Array,
                scalar: grid_scalar(a@, array_context),
                array_scalar: grid_scalar(a@, true),
                cells: a@.cells,
                rows: Ok(grid_rows(a@)),
                ..no_argument()
            },
            Arg::Unbounded(cells) => ArgModel { cells: views(cells@), ..refused },
            Arg::UsedRows(lines) => ArgModel {
                cells: joined(line_views(lines@)),
                used_rows: Ok(line_views(lines@)),
                ..refused
            },
            Arg::UsedCols(lines) => ArgModel {
                cells: joined(line_views(lines@)),
                used_cols: Ok(line_views(lines@)),
                ..refused
            },
            Arg::RefCells(rect, cells) => ArgModel {
                cells: listed_views(cells@),
                extent: if rect.on_sheet() {
                    Some(rect)
                } else {
                    None
                },
                sheet: |r: u32, c: u32|
                    if rect.covers(r, c) {
                        Some(listed(cells@, r, c))
                    } else {
                        None
                    },
                ..refused
            },
        }
    }
}

fn duplicate_all(values: &Vec<Value>) -> (r: Vec<Value>)
    ensures
        views(r@) == views(values@),
{
    let mut r: Vec<Value> = Vec::new();
    for i in 0..values.len()
        invariant
            r@.len() == i,
            forall|j: int| 0 <= j < i ==> r@[j]@ == values@[j]@,
    {
        r.push(values[i].duplicate());
    }
    assert(views(r@) == views(values@));
    r
}

fn duplicate_lines(lines: &Vec<(u32, Vec<Value>)>) -> (r: Vec<(u32, Vec<Value>)>)
    ensures
        line_views(r@) == line_views(lines@),
{
    let mut r: Vec<(u32, Vec<Value>)> = Vec::new();
    for i in 0..lines.len()
        invariant
            r@.len() == i,
            forall|j: int|
                #![trigger r@[j]]
                0 <= j < i ==> r@[j].0 == lines@[j].0 && views(r@[j].1@) == views(lines@[j].1@),
    {
        r.push((lines[i].0, duplicate_all(&lines[i].1)));
    }
    assert(line_views(r@) == line_views(lines@));
    r
}

fn join_lines(lines: &Vec<(u32, Vec<Value>)>) -> (r: Vec<Value>)
    ensures
        views(r@) == joined(line_views(lines@)),
{
    let mut r: Vec<Value> = Vec::new();
    let ghost all = line_views(lines@);
    for i in 0..lines.len()
        invariant
            all == line_views(lines@),
            views(r@) == joined(all.take(i as int)),
    {
        let mut line = duplicate_all(&lines[i].1);
        let ghost before = r@;
        let ghost added = line@;
        r.append(&mut line);
        assert(views(before + added) == views(before) + views(added));
        assert(all.take(i + 1).drop_last() == all.take(i as int));
        assert(all.take(i + 1).last() == all[i as int]);
    }
    assert(all.take(all.len() as int) == all);
    r
}

fn array_scalar_value(a: &Array, array_context: bool) -> (v: Value)
    ensures
        v@ == grid_scalar(a@, array_context),
{
    match a.as_scalar() {
        Some(v) => v.duplicate(),
        None => {
            if array_context {
                Value::Array(a.duplicate())
            } else {
                Value::Error(ErrorKind::Unsupported)
            }
        },
    }
}

fn array_rows(a: &Array) -> (rows: Vec<Vec<Value>>)
    ensures
        row_views(rows@) == grid_rows(a@),
{
    let mut rows: Vec<Vec<Value>> = Vec::new();
    let height = a.rows();
    let width = a.cols();
    for r in 0..height
        invariant
            height == a@.rows,
            width == a@.cols,
            rows@.len() == r,
            forall|i: int| 0 <= i < r ==> views(#[trigger] rows@[i]@) == grid_rows(a@)[i],
    {
        let mut row: Vec<Value> = Vec::new();
        for c in 0..width
            invariant
                width == a@.cols,
                r < a@.rows,
                row@.len() == c,
                forall|j: int| 0 <= j < c ==> (#[trigger] row@[j])@ == a@.at(r as int, j),
        {
            row.push(a.get(r, c).duplicate());
        }
        assert(views(row@) == grid_rows(a@)[r as int]);
        rows.push(row);
    }
    assert(row_views(rows@) == grid_rows(a@));
    rows
}

impl CallArgs for Call {
    open spec fn call(&self) -> CallModel {
        CallModel {
            args: self.args@.map_values(|a: Arg| a.model(self.array_context)),
            array_context: self.array_context,
        }
    }

    open spec fn forceable(&self, i: int) -> bool {
        true
    }

    open spec fn readable(&self, i: int, row: u32, col: u32) -> bool {
        true
    }

    fn count(&self) -> (n: usize) {
        self.args.len()
    }

    fn shape(&self, i: usize) -> (s: ArgShape) {
        if i >= self.args.len() {
            return ArgShape::Omitted;
        }
        match &self.args[i] {
            Arg::Omitted => ArgShape::Omitted,
            Arg::Scalar(_) => ArgShape::Scalar,
            Arg::CellRef(_) => ArgShape::Scalar,
            Arg::Constant(_) => ArgShape::Array,
            _ => ArgShape::Range,
        }
    }

    fn is_reference(&self, i: usize) -> (b: bool) {
        if i >= self.args.len() {
            return false;
        }
        match &self.args[i] {
            Arg::CellRef(_) => true,
            _ => false,
        }
    }

    fn array_arg_ctx(&self) -> (b: bool) {
        self.array_context
    }

    fn eval_scalar(&self, i: usize) -> (v: Value) {
        if i >= self.args.len() {
            return Value::Blank;
        }
        match &self.args[i] {
            Arg::Omitted => Value::Blank,
            Arg::Scalar(v) => v.duplicate(),
            Arg::CellRef(v) => v.duplicate(),
            Arg::Range(a) => array_scalar_value(a, self.array_context),
            Arg::Constant(a) => array_scalar_value(a, self.array_context),
            _ => Value::Error(ErrorKind::Unsupported),
        }
    }

    fn eval_scalar_array_arg(&self, i: usize) -> (v: Value) {
        if i >= self.args.len() {
            return Value::Blank;
        }
        match &self.args[i] {
            Arg::Omitted => Value::Blank,
            Arg::Scalar(v) => v.duplicate(),
            Arg::CellRef(v) => v.duplicate(),
            Arg::Range(a) => array_scalar_value(a, true),
            Arg::Constant(a) => array_scalar_value(a, true),
            _ => Value::Error(ErrorKind::Unsupported),
        }
    }

    fn cells(&self, i: usize) -> (cells: Vec<Value>) {
        if i >= self.args.len() {
            let none: Vec<Value> = Vec::new();
            assert(views(none@) == Seq::<Val>::empty());
            return none;
        }
        match &self.args[i] {
            Arg::Omitted => {
                let none: Vec<Value> = Vec::new();
                assert(views(none@) == Seq::<Val>::empty());
                none
            },
            Arg::Scalar(v) => {
                let one: Vec<Value> = vec![v.duplicate()];
                assert(views(one@) == seq![v@]);
                one
            },
            Arg::CellRef(v) => {
                let one: Vec<Value> = vec![v.duplicate()];
                assert(views(one@) == seq![v@]);
                one
            },
            Arg::Range(a) => duplicate_all(a.data()),
            Arg::Constant(a) => duplicate_all(a.data()),
            Arg::Unbounded(cells) => duplicate_all(cells),
            Arg::UsedRows(lines) => join_lines(lines),
            Arg::UsedCols(lines) => join_lines(lines),
            Arg::RefCells(_, listed_cells) => {
                let mut r: Vec<Value> = Vec::new();
                for j in 0..listed_cells.len()
                    invariant
                        r@.len() == j,
                        forall|m: int| 0 <= m < j ==> (#[trigger] r@[m])@ == listed_cells@[m].2@,
                {
                    r.push(listed_cells[j].2.duplicate());
                }
                assert(views(r@) == listed_views(listed_cells@));
                r
            },
        }
    }

    fn rows(&self, i: usize) -> (r: Result<Vec<Vec<Value>>, ErrorKind>) {
        if i >= self.args.len() {
            let none: Vec<Vec<Value>> = Vec::new();
            assert(row_views(none@) == Seq::<Seq<Val>>::empty());
            return Ok(none);
        }
        match &self.args[i] {
            Arg::Omitted => {
                let none: Vec<Vec<Value>> = Vec::new();
                assert(row_views(none@) == Seq::<Seq<Val>>::empty());
                Ok(none)
            },
            Arg::Scalar(v) => Ok(single_row(v)),
            Arg::CellRef(v) => Ok(single_row(v)),
            Arg::Range(a) => Ok(array_rows(a)),
            Arg::Constant(a) => Ok(array_rows(a)),
            _ => Err(ErrorKind::Unsupported),
        }
    }

    fn used_rows(&self, i: usize) -> (r: Result<Vec<(u32, Vec<Value>)>, ErrorKind>) {
        if i >= self.args.len() {
            return Err(ErrorKind::Unsupported);
        }
        match &self.args[i] {
            Arg::UsedRows(lines) => Ok(duplicate_lines(lines)),
            _ => Err(ErrorKind::Unsupported),
        }
    }

    fn used_cols(&self, i: usize) -> (r: Result<Vec<(u32, Vec<Value>)>, ErrorKind>) {
        if i >= self.args.len() {
            return Err(ErrorKind::Unsupported);
        }
        match &self.args[i] {
            Arg::UsedCols(lines) => Ok(duplicate_lines(lines)),
            _ => Err(ErrorKind::Unsupported),
        }
    }

    fn arg_ref_extent(&self, i: usize) -> (r: Option<RefRect>) {
        if i >= self.args.len() {
            return None;
        }
        match &self.args[i] {
            Arg::RefCells(rect, _) => {
                if rect.height <= u32::MAX - rect.row && rect.width <= u32::MAX - rect.col {
                    Some(*rect)
                } else {
                    None
                }
            },
            _ => None,
        }
    }

    fn cell_at(&self, i: usize, row: u32, col: u32) -> (v: Option<Value>) {
        if i >= self.args.len() {
            return None;
        }
        match &self.args[i] {
            Arg::RefCells(rect, cells) => {
                if row < rect.row || col < rect.col || row - rect.row >= rect.height || col - rect.col
                    >= rect.width {
                    return None;
                }
                assert(cells@.skip(0) == cells@);
                for j in 0..cells.len()
                    invariant
                        listed(cells@, row, col) == listed(cells@.skip(j as int), row, col),
                        i < self.args@.len(),
                        self.args@[i as int] == Arg::RefCells(*rect, *cells),
                        rect.covers(row, col),
                {
                    assert(cells@.skip(j as int)[0] == cells@[j as int]);
                    if cells[j].0 == row && cells[j].1 == col {
                        return Some(cells[j].2.duplicate());
                    }
                    assert(cells@.skip(j as int).drop_first() == cells@.skip(j + 1));
                }
                Some(Value::Blank)
            },
            _ => None,
        }
    }
}

fn single_row(v: &Value) -> (rows: Vec<Vec<Value>>)
    ensures
        row_views(rows@) == seq![seq![v@]],
{
    let row: Vec<Value> = vec![v.duplicate()];
    assert(views(row@) == seq![v@]);
    let rows: Vec<Vec<Value>> = vec![row];
    assert(row_views(rows@) == seq![seq![v@]]);
    rows
}

/// The law of single values: an argument that is one value, referred to or not, is that
/// value in any position, and its one cell and its one row are it; only a reference is
/// known as one.
pub proof fn law_single_value_is_its_cell(v: Value, array_context: bool)
    ensures
        ({
            let plain = Arg::Scalar(v).model(array_context);
            let cell = Arg::CellRef(v).model(array_context);
            &&& plain.shape == ArgShape::Scalar && cell.shape == ArgShape::Scalar
            &&& !plain.reference && cell.reference
            &&& plain.scalar == v@ && cell.scalar == v@ && plain.array_scalar == v@ && cell.array_scalar == v@
            &&& plain.cells.len() == 1 && plain.cells[0] == v@ && cell.cells.len() == 1 && cell.cells[0] == v@
            &&& plain.rows matches Ok(rows) && rows.len() == 1 && rows[0].len() == 1 && rows[0][0] == v@
            &&& cell.rows == plain.rows
        }),
{
}

/// The law of missing arguments: an empty slot, and a position past the last argument, is
/// blank, has no cells and is known as empty.
pub proof fn law_missing_argument_is_blank(call: CallModel, i: int, array_context: bool)
    ensures
        i < 0 || i >= call.args.len() ==> call.arg(i).shape == ArgShape::Omitted && call.scalar(i) is Blank && call.arg(
            i,
        ).cells.len() == 0 && call.arg(i).extent is None,
        0 <= i < call.args.len() ==> call.arg(i) == call.args[i] && call.scalar(i) == call.args[i].scalar,
        Arg::Omitted.model(array_context).shape == ArgShape::Omitted,
        Arg::Omitted.model(array_context).scalar is Blank,
        Arg::Omitted.model(array_context).cells.len() == 0,
{
}

/// The law of rectangles: the cells of a bounded range or an array constant come row by row,
/// its rows are its rows, and in a scalar position it is its one cell, or as a whole where
/// an array is taken, and else is refused.
pub proof fn law_cells_come_row_by_row(a: Array, array_context: bool, r: int, c: int)
    requires
        0 <= r < a@.rows,
        0 <= c < a@.cols,
    ensures
        ({
            let range = Arg::Range(a).model(array_context);
            let constant = Arg::Constant(a).model(array_context);
            let here = a@.cells[r * a@.cols + c];
            &&& range.shape == ArgShape::Range && constant.shape == ArgShape::Array
            &&& range.rows == constant.rows && range.cells == constant.cells && range.scalar == constant.scalar
            &&& range.cells == a@.cells
            &&& range.rows matches Ok(rows) && rows.len() == a@.rows && rows[r].len() == a@.cols && rows[r][c] == here
            &&& a@.rows == 1 && a@.cols == 1 ==> range.scalar == a@.cells[0]
            &&& a@.rows != 1 || a@.cols != 1 ==> range.scalar == (if array_context {
                Val::Array(a@)
            } else {
                Val::Error(ErrorKind::Unsupported)
            })
        }),
{
}

/// The law of lines: the cells of lines are those of the first lines and then those of the
/// others, and those of one line are its cells.
pub proof fn law_cells_of_lines_are_joined(a: Seq<(u32, Seq<Val>)>, b: Seq<(u32, Seq<Val>)>, line: (u32, Seq<Val>))
    ensures
        joined(a + b) == joined(a) + joined(b),
        joined(seq![line]) == line.1,
        joined(Seq::empty()).len() == 0,
    decreases b.len(),
{
    assert(seq![line].drop_last() =~= Seq::<(u32, Seq<Val>)>::empty());
    assert(joined(Seq::<(u32, Seq<Val>)>::empty()) =~= Seq::<Val>::empty());
    assert(joined(seq![line]) == joined(seq![line].drop_last()) + seq![line].last().1);
    assert(Seq::<Val>::empty() + line.1 =~= line.1);
    if b.len() > 0 {
        law_cells_of_lines_are_joined(a, b.drop_last(), line);
        assert((a + b).drop_last() =~= a + b.drop_last());
        assert(joined(a) + (joined(b.drop_last()) + b.last().1) =~= (joined(a) + joined(b.drop_last())) + b.last().1);
    } else {
        assert(a + b =~= a);
        assert(joined(a) + joined(b) =~= joined(a));
    }
}

/// Entry `i` is the first for the cell at a row and column.
pub open spec fn lists_at(cells: Seq<(u32, u32, Value)>, row: u32, col: u32, i: int) -> bool {
    0 <= i < cells.len() && cells[i].0 == row && cells[i].1 == col && forall|j: int|
        0 <= j < i ==> (#[trigger] cells[j]).0 != row || cells[j].1 != col
}

/// The law of listed cells: a cell of the sheet is what its first entry gives, and blank
/// without one; outside of the range nothing is read.
pub proof fn law_first_entry_of_a_cell_counts(rect: RefRect, cells: Vec<(u32, u32, Value)>, array_context: bool, row: u32, col: u32)
    ensures
        ({
            let sheet = Arg::RefCells(rect, cells).model(array_context).sheet;
            &&& !rect.covers(row, col) ==> sheet(row, col) is None
            &&& rect.covers(row, col) ==> forall|i: int| #[trigger]
                lists_at(cells@, row, col, i) ==> sheet(row, col) == Some(cells@[i].2@)
            &&& rect.covers(row, col) && (forall|j: int|
                0 <= j < cells@.len() ==> (#[trigger] cells@[j]).0 != row || cells@[j].1 != col) ==> sheet(row, col) == Some(
                Val::Blank,
            )
        }),
{
    lemma_listed(cells@, row, col);
}

proof fn lemma_listed(cells: Seq<(u32, u32, Value)>, row: u32, col: u32)
    ensures
        forall|i: int| #[trigger] lists_at(cells, row, col, i) ==> listed(cells, row, col) == cells[i].2@,
        (forall|j: int| 0 <= j < cells.len() ==> (#[trigger] cells[j]).0 != row || cells[j].1 != col) ==> listed(
            cells,
            row,
            col,
        ) is Blank,
    decreases cells.len(),
{
    if cells.len() > 0 {
        let rest = cells.drop_first();
        lemma_listed(rest, row, col);
        assert forall|i: int| #[trigger] lists_at(cells, row, col, i) implies listed(cells, row, col) == cells[i].2@ by {
            if i > 0 {
                assert(cells[0].0 != row || cells[0].1 != col);
                assert(rest[i - 1] == cells[i]);
                assert forall|j: int| 0 <= j < i - 1 implies (#[trigger] rest[j]).0 != row || rest[j].1 != col by {
                    assert(rest[j] == cells[j + 1]);
                }
                assert(lists_at(rest, row, col, i - 1));
            }
        }
        if forall|j: int| 0 <= j < cells.len() ==> (#[trigger] cells[j]).0 != row || cells[j].1 != col {
            assert(cells[0].0 != row || cells[0].1 != col);
            assert forall|j: int| 0 <= j < rest.len() implies (#[trigger] rest[j]).0 != row || rest[j].1 != col by {
                assert(rest[j] == cells[j + 1]);
            }
        }
    }
}

/// The law of extents: a reference whose cells lie on a sheet is known by its extent.
pub proof fn law_extent_lies_on_the_sheet(rect: RefRect, cells: Vec<(u32, u32, Value)>, array_context: bool)
    ensures
        rect.row + rect.height <= u32::MAX && rect.col + rect.width <= u32::MAX <==> Arg::RefCells(rect, cells).model(
            array_context,
        ).extent == Some(rect),
        Arg::RefCells(rect, cells).model(array_context).rows == Err::<Seq<Seq<Val>>, ErrorKind>(ErrorKind::Unsupported),
{
}

} // verus!
