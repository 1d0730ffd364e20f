//! Spreadsheet values: numbers, texts, logicals, blanks, errors, arrays and the
//! handles of references and lambdas.

use crate::number::Number;
use vstd::prelude::*;

verus! {

/// The error values. The last three are refusals of the evaluator itself, not
/// errors that a sheet can hold by its own formulas.
#[derive(Clone, Copy, Debug, PartialEq, Eq, Structural)]
pub enum ErrorKind {
    Null,
    Div0,
    Value,
    Ref,
    Name,
    Num,
    Na,
    GettingData,
    Spill,
    Calc,
    Unsupported,
    Blocked,
    Resource,
}

impl ErrorKind {
    /// Whether the error is a refusal of the evaluator.
    pub open spec fn sentinel(self) -> bool {
        self == ErrorKind::Unsupported || self == ErrorKind::Blocked || self == ErrorKind::Resource
    }

    /// Whether the error is a refusal of the evaluator.
    pub fn is_recalc_sentinel(self) -> (b: bool)
        ensures
            b == self.sentinel(),
    {
        self == ErrorKind::Unsupported || self == ErrorKind::Blocked || self == ErrorKind::Resource
    }
}

/// A text value: a sequence of characters.
#[derive(Debug, PartialEq)]
pub struct Text {
    chars: Vec<char>,
}

impl View for Text {
    type V = Seq<char>;

    closed spec fn view(&self) -> Seq<char> {
        self.chars@
    }
}

impl Text {
    /// The text with the characters of a string.
    pub fn new(s: &str) -> (t: Text)
        ensures
            t@ == s@,
    {
        let mut chars: Vec<char> = Vec::new();
        for c in it: s.chars()
            invariant
                chars@ == it.seq().take(it.index() as int),
                it.seq() == s@,
        {
            chars.push(c);
        }
        assert(s@.take(s@.len() as int) == s@);
        Text { chars }
    }

    /// The text with the given characters.
    pub fn from_chars(chars: Vec<char>) -> (t: Text)
        ensures
            t@ == chars@,
    {
        Text { chars }
    }

    /// The characters of the text.
    pub fn chars(&self) -> (r: &Vec<char>)
        ensures
            r@ == self@,
    {
        &self.chars
    }

    /// Another text with the same characters.
    pub fn duplicate(&self) -> (t: Text)
        ensures
            t@ == self@,
    {
        let mut chars: Vec<char> = Vec::new();
        for i in 0..self.chars.len()
            invariant
                chars@ == self.chars@.take(i as int),
        {
            chars.push(self.chars[i]);
            assert(self.chars@.take(i + 1) == self.chars@.take(i as int).push(self.chars@[i as int]));
        }
        assert(self.chars@.take(self.chars@.len() as int) == self.chars@);
        Text { chars }
    }

    /// Whether two texts have the same characters.
    pub fn same(&self, other: &Text) -> (b: bool)
        ensures
            b == (self@ == other@),
    {
        if self.chars.len() != other.chars.len() {
            return false;
        }
        for i in 0..self.chars.len()
            invariant
                self.chars@.len() == other.chars@.len(),
                forall|j: int| 0 <= j < i ==> self.chars@[j] == other.chars@[j],
        {
            if self.chars[i] != other.chars[i] {
                return false;
            }
        }
        assert(self.chars@ == other.chars@);
        true
    }
}

/// A rectangle of values, kept row by row.
#[derive(Debug, PartialEq)]
pub struct Array {
    rows: usize,
    cols: usize,
    data: Vec<Value>,
}

/// A spreadsheet value. References and lambdas are handles that the host resolves.
#[derive(Debug, PartialEq)]
pub enum Value {
    Number(Number),
    Text(Text),
    Bool(bool),
    Blank,
    Error(ErrorKind),
    Array(Array),
    Ref(u64),
    Lambda(u64),
}

/// What a [`Value`] is, as a mathematical value.
pub enum Val {
    Number(Number),
    Text(Seq<char>),
    Bool(bool),
    Blank,
    Error(ErrorKind),
    Array(Grid),
    Ref(u64),
    Lambda(u64),
}

/// What an [`Array`] is, as a mathematical value.
pub struct Grid {
    pub rows: nat,
    pub cols: nat,
    pub cells: Seq<Val>,
}

impl Value {
    /// The value as a mathematical value.
    pub open spec fn view(&self) -> Val
        decreases self,
    {
        match *self {
            Value::Number(n) => Val::Number(n),
            Value::Text(t) => Val::Text(t@),
            Value::Bool(b) => Val::Bool(b),
            Value::Blank => Val::Blank,
            Value::Error(k) => Val::Error(k),
            Value::Array(a) => Val::Array(a.view()),
            Value::Ref(r) => Val::Ref(r),
            Value::Lambda(l) => Val::Lambda(l),
        }
    }

    /// The value of a computed number: a number error where it is not finite.
    pub fn number(n: Option<Number>) -> (v: Value)
        ensures
            v@ == Val::computed(n),
    {
        match n {
            Some(n) => Value::Number(n),
            None => Value::Error(ErrorKind::Num),
        }
    }

    /// The text value with the characters of a string.
    pub fn text(s: &str) -> (v: Value)
        ensures
            v@ == Val::Text(s@),
    {
        Value::Text(Text::new(s))
    }

    /// Whether the value is blank.
    pub fn is_blank(&self) -> (b: bool)
        ensures
            b == (self@ is Blank),
    {
        match self {
            Value::Blank => true,
            _ => false,
        }
    }

    /// The error, where the value is one.
    pub fn error(&self) -> (k: Option<ErrorKind>)
        ensures
            k == self@.error(),
    {
        match self {
            Value::Error(k) => Some(*k),
            _ => None,
        }
    }

    /// Another value that is the same.
    pub fn duplicate(&self) -> (v: Value)
        ensures
            v@ == self@,
        decreases self,
    {
        match self {
            Value::Number(n) => Value::Number(*n),
            Value::Text(t) => Value::Text(t.duplicate()),
            Value::Bool(b) => Value::Bool(*b),
            Value::Blank => Value::Blank,
            Value::Error(k) => Value::Error(*k),
            Value::Array(a) => Value::Array(a.duplicate()),
            Value::Ref(r) => Value::Ref(*r),
            Value::Lambda(l) => Value::Lambda(*l),
        }
    }

    /// Whether two values are the same, down to the encoding of their numbers.
    pub fn same(&self, other: &Value) -> (b: bool)
        ensures
            b == (self@ == other@),
        decreases self,
    {
        match (self, other) {
            (Value::Number(m), Value::Number(n)) => {
                proof {
                    crate::number::lemma_same_bits(*m, *n);
                }
                m.to_bits() == n.to_bits()
            },
            (Value::Text(s), Value::Text(t)) => s.same(t),
            (Value::Bool(a), Value::Bool(b)) => *a == *b,
            (Value::Blank, Value::Blank) => true,
            (Value::Error(j), Value::Error(k)) => *j == *k,
            (Value::Array(a), Value::Array(b)) => a.same(b),
            (Value::Ref(r), Value::Ref(s)) => *r == *s,
            (Value::Lambda(l), Value::Lambda(m)) => *l == *m,
            _ => false,
        }
    }
}

impl Val {
    /// The value of a computed number: a number error where it is not finite.
    pub open spec fn computed(n: Option<Number>) -> Val {
        match n {
            Some(n) => Val::Number(n),
            None => Val::Error(ErrorKind::Num),
        }
    }

    /// The error, where the value is one.
    pub open spec fn error(self) -> Option<ErrorKind> {
        match self {
            Val::Error(k) => Some(k),
            _ => None,
        }
    }
}

impl Grid {
    /// The cells fill the rectangle.
    pub open spec fn full(self) -> bool {
        self.cells.len() == self.rows * self.cols
    }

    /// The cell in row `r` and column `c`, both counted from zero.
    pub open spec fn at(self, r: int, c: int) -> Val {
        self.cells[r * self.cols + c]
    }

    /// The rectangle is a single cell.
    pub open spec fn single(self) -> bool {
        self.rows == 1 && self.cols == 1
    }
}

impl Array {
    #[verifier::type_invariant]
    closed spec fn rectangular(self) -> bool {
        self.data@.len() == self.rows * self.cols
    }

    /// The array as a mathematical value.
    pub closed spec fn view(&self) -> Grid
        decreases self,
    {
        Grid {
            rows: self.rows as nat,
            cols: self.cols as nat,
            cells: views(self.data@),
        }
    }

    /// The array of `rows` by `cols` values, given row by row; none where the
    /// values do not fill the rectangle.
    pub fn new(rows: usize, cols: usize, data: Vec<Value>) -> (a: Option<Array>)
        ensures
            a is Some <==> data@.len() == rows * cols,
            a matches Some(a) ==> a@ == (Grid {
                rows: rows as nat,
                cols: cols as nat,
                cells: views(data@),
            }),
    {
        let mut i: usize = 0;
        let mut left: usize = data.len();
        while i < rows && left >= cols
            invariant
                i <= rows,
                left + i * cols == data@.len(),
            decreases rows - i,
        {
            assert((i + 1) * cols == i * cols + cols) by (nonlinear_arith);
            i = i + 1;
            left = left - cols;
        }
        if i == rows && left == 0 {
            Some(Array { rows, cols, data })
        } else {
            assert(data@.len() != rows * cols) by (nonlinear_arith)
                requires
                    left + i * cols == data@.len(),
                    i <= rows,
                    (i < rows && left < cols) || (i == rows && left != 0),
            ;
            None
        }
    }

    /// The number of rows.
    pub fn rows(&self) -> (n: usize)
        ensures
            n == self@.rows,
    {
        self.rows
    }

    /// The number of columns.
    pub fn cols(&self) -> (n: usize)
        ensures
            n == self@.cols,
    {
        self.cols
    }

    /// The values of the array, row by row.
    pub fn data(&self) -> (d: &Vec<Value>)
        ensures
            views(d@) == self@.cells,
            self@.full(),
    {
        proof {
            use_type_invariant(self);
        }
        &self.data
    }

    /// The value in row `r` and column `c`, both counted from zero.
    pub fn get(&self, r: usize, c: usize) -> (v: &Value)
        requires
            r < self@.rows,
            c < self@.cols,
        ensures
            v@ == self@.at(r as int, c as int),
    {
        proof {
            use_type_invariant(self);
            assert(0 <= r * self.cols + c < self.rows * self.cols) by (nonlinear_arith)
                requires
                    0 <= r < self.rows,
                    0 <= c < self.cols,
            ;
            assert(0 <= r * self.cols <= r * self.cols + c) by (nonlinear_arith)
                requires
                    0 <= r,
                    0 <= c,
                    0 <= self.cols,
            ;
            assert(self.data.len() == self.rows * self.cols);
        }
        &self.data[r * self.cols + c]
    }

    /// The one value of an array of a single cell.
    pub fn as_scalar(&self) -> (v: Option<&Value>)
        ensures
            v is Some <==> self@.single(),
            v matches Some(v) ==> v@ == self@.at(0, 0),
    {
        if self.rows == 1 && self.cols == 1 {
            Some(self.get(0, 0))
        } else {
            None
        }
    }

    /// Another array that is the same.
    pub fn duplicate(&self) -> (a: Array)
        ensures
            a@ == self@,
        decreases self,
    {
        proof {
            use_type_invariant(self);
        }
        let mut data: Vec<Value> = Vec::new();
        for i in 0..self.data.len()
            invariant
                data@.len() == i,
                forall|j: int| 0 <= j < i ==> data@[j]@ == self.data@[j]@,
        {
            data.push(self.data[i].duplicate());
        }
        assert(views(data@) == views(self.data@));
        Array { rows: self.rows, cols: self.cols, data }
    }

    /// Whether two arrays are the same.
    pub fn same(&self, other: &Array) -> (b: bool)
        ensures
            b == (self@ == other@),
        decreases self,
    {
        if self.rows != other.rows || self.cols != other.cols || self.data.len() != other.data.len() {
            assert(views(self.data@).len() == self.data@.len());
            assert(views(other.data@).len() == other.data@.len());
            return false;
        }
        for i in 0..self.data.len()
            invariant
                self.data@.len() == other.data@.len(),
                forall|j: int| 0 <= j < i ==> self.data@[j]@ == other.data@[j]@,
        {
            if !self.data[i].same(&other.data[i]) {
                assert(views(self.data@)[i as int] != views(other.data@)[i as int]);
                return false;
            }
        }
        assert(views(self.data@) == views(other.data@));
        true
    }
}

/// What the values of a sequence are.
pub open spec fn views(s: Seq<Value>) -> Seq<Val>
    decreases s,
{
    Seq::new(
        s.len(),
        |i: int|
            if 0 <= i < s.len() {
                s[i].view()
            } else {
                Val::Blank
            },
    )
}

/// The law of refusals: an error is a refusal of the evaluator where it is one of the
/// three that no sheet holds.
pub proof fn law_three_errors_are_refusals(k: ErrorKind)
    ensures
        k == ErrorKind::Unsupported || k == ErrorKind::Blocked || k == ErrorKind::Resource <==> k.sentinel(),
{
}

} // verus!
