//! What the host's value model says of the values in a call, and the coercions
//! that rest on it.
//!
//! Which texts read as numbers, how a number is written out, how two values
//! stand to each other and which cells a criterion accepts are matters of the
//! host's locale and comparison rules. The host states them as facts in a
//! [`ValueModel`]. A text without a reading is no number; where any other needed
//! fact is absent, the call is refused with [`ErrorKind::Unsupported`] rather than
//! guessed.

use crate::letters::{ascii_upper, to_upper};
use crate::number::{counted, lemma_same_bits, Number};
use crate::value::{ErrorKind, Text, Val, Value};
use vstd::prelude::*;

verus! {

/// How one value stands to another.
#[derive(Clone, Copy, Debug, PartialEq, Eq, Structural)]
pub enum Standing {
    Below,
    Level,
    Above,
}

/// How the value `left` stands to the value `right`: by the ordering of values,
/// and by equality in lookups.
#[derive(Debug, PartialEq)]
pub struct Relation {
    pub left: Value,
    pub right: Value,
    pub order: Result<Standing, ErrorKind>,
    pub equal: Result<bool, ErrorKind>,
}

/// What a criterion makes of a cell.
#[derive(Clone, Copy, Debug, PartialEq, Eq, Structural)]
pub enum Ruling {
    Accept,
    Reject,
    Refuse(ErrorKind),
}

/// A criterion of a conditional aggregate. `short` is the result of the whole
/// call where the criterion itself already settles it; `cells` says what the
/// criterion makes of each cell.
#[derive(Debug, PartialEq)]
pub struct Criterion {
    pub value: Value,
    pub short: Option<ErrorKind>,
    pub cells: Vec<(Value, Ruling)>,
}

/// The facts that the host's value model states of a call's values.
#[derive(Debug, PartialEq)]
pub struct ValueModel {
    /// The texts that read as numbers, each with its number.
    pub readings: Vec<(Text, Number)>,
    /// How numbers are written out as text.
    pub renderings: Vec<(Number, Text)>,
    /// How pairs of values stand to each other.
    pub relations: Vec<Relation>,
    /// The criteria and what they make of cells.
    pub criteria: Vec<Criterion>,
}

/// The number that the first entry for `t` gives.
pub open spec fn reading_in(table: Seq<(Text, Number)>, t: Seq<char>) -> Option<Number>
    decreases table.len(),
{
    if table.len() == 0 {
        None
    } else if table[0].0@ == t {
        Some(table[0].1)
    } else {
        reading_in(table.drop_first(), t)
    }
}

/// The text that the first entry for `n` gives.
pub open spec fn rendering_in(table: Seq<(Number, Text)>, n: Number) -> Option<Seq<char>>
    decreases table.len(),
{
    if table.len() == 0 {
        None
    } else if table[0].0 == n {
        Some(table[0].1@)
    } else {
        rendering_in(table.drop_first(), n)
    }
}

/// The first entry for the pair of `left` and `right`.
pub open spec fn relation_in(table: Seq<Relation>, left: Val, right: Val) -> Option<Relation>
    decreases table.len(),
{
    if table.len() == 0 {
        None
    } else if table[0].left@ == left && table[0].right@ == right {
        Some(table[0])
    } else {
        relation_in(table.drop_first(), left, right)
    }
}

/// The first entry for the criterion `value`.
pub open spec fn criterion_in(table: Seq<Criterion>, value: Val) -> Option<Criterion>
    decreases table.len(),
{
    if table.len() == 0 {
        None
    } else if table[0].value@ == value {
        Some(table[0])
    } else {
        criterion_in(table.drop_first(), value)
    }
}

/// What the first entry for `cell` says.
pub open spec fn ruling_in(table: Seq<(Value, Ruling)>, cell: Val) -> Ruling
    decreases table.len(),
{
    if table.len() == 0 {
        Ruling::Refuse(ErrorKind::Unsupported)
    } else if table[0].0@ == cell {
        table[0].1
    } else {
        ruling_in(table.drop_first(), cell)
    }
}

/// Whether the text is `word`, in capital letters, but for case.
pub open spec fn is_word(t: Seq<char>, word: Seq<char>) -> bool {
    t.map_values(|c: char| ascii_upper(c)) == word
}

/// The logical value that a value stands for.
pub open spec fn logical(v: Val) -> Result<bool, ErrorKind> {
    match v {
        Val::Number(n) => Ok(n.units() != 0),
        Val::Bool(b) => Ok(b),
        Val::Blank => Ok(false),
        Val::Text(t) => if is_word(t, "TRUE"@) {
            Ok(true)
        } else if is_word(t, "FALSE"@) {
            Ok(false)
        } else {
            Err(ErrorKind::Value)
        },
        Val::Error(k) => Err(k),
        _ => Err(ErrorKind::Unsupported),
    }
}

/// What a value contributes to an aggregate of numbers.
#[derive(Clone, Copy, Debug)]
pub enum NumericArg {
    Number(Number),
    Skip,
    Error(ErrorKind),
}

/// What a cell of a range or array contributes: numbers count, errors spread,
/// the other scalars are passed over.
pub open spec fn cell_number(v: Val) -> NumericArg {
    match v {
        Val::Number(n) => NumericArg::Number(n),
        Val::Text(_) | Val::Bool(_) | Val::Blank => NumericArg::Skip,
        Val::Error(k) => NumericArg::Error(k),
        _ => NumericArg::Error(ErrorKind::Unsupported),
    }
}

/// The number that a logical value stands for: one, or zero.
pub open spec fn logical_number(b: bool) -> Number {
    counted(if b { 1 } else { 0 })
}

/// The number that a logical value stands for: one, or zero.
pub fn number_of_logical(b: bool) -> (n: Number)
    ensures
        n == logical_number(b),
{
    if b {
        Number::from_count(1)
    } else {
        Number::from_count(0)
    }
}

fn word_matches(t: &Text, word: &str) -> (b: bool)
    ensures
        b == is_word(t@, word@),
{
    let w = Text::new(word);
    let cs = t.chars();
    let ws = w.chars();
    let ghost upper = t@.map_values(|c: char| ascii_upper(c));
    if cs.len() != ws.len() {
        assert(upper.len() != word@.len());
        return false;
    }
    for i in 0..cs.len()
        invariant
            cs@ == t@,
            ws@ == word@,
            cs@.len() == ws@.len(),
            upper == t@.map_values(|c: char| ascii_upper(c)),
            forall|j: int| 0 <= j < i ==> upper[j] == word@[j],
    {
        if to_upper(cs[i]) != ws[i] {
            assert(upper[i as int] != word@[i as int]);
            return false;
        }
    }
    assert(upper == word@);
    true
}

/// The logical value that a value stands for: of a number, whether it is not
/// zero; of a text, only the words for the two logical values count.
pub fn to_bool(v: &Value) -> (r: Result<bool, ErrorKind>)
    ensures
        r == logical(v@),
{
    match v {
        Value::Number(n) => Ok(!n.is_zero()),
        Value::Bool(b) => Ok(*b),
        Value::Blank => Ok(false),
        Value::Text(t) => {
            if word_matches(t, "TRUE") {
                Ok(true)
            } else if word_matches(t, "FALSE") {
                Ok(false)
            } else {
                Err(ErrorKind::Value)
            }
        },
        Value::Error(k) => Err(*k),
        Value::Array(_) => Err(ErrorKind::Unsupported),
        Value::Ref(_) => Err(ErrorKind::Unsupported),
        Value::Lambda(_) => Err(ErrorKind::Unsupported),
    }
}

/// What a cell of a range or array contributes to an aggregate of numbers.
pub fn coerce_cell(v: &Value) -> (r: NumericArg)
    ensures
        r == cell_number(v@),
{
    match v {
        Value::Number(n) => NumericArg::Number(*n),
        Value::Text(_) => NumericArg::Skip,
        Value::Bool(_) => NumericArg::Skip,
        Value::Blank => NumericArg::Skip,
        Value::Error(k) => NumericArg::Error(*k),
        Value::Array(_) => NumericArg::Error(ErrorKind::Unsupported),
        Value::Ref(_) => NumericArg::Error(ErrorKind::Unsupported),
        Value::Lambda(_) => NumericArg::Error(ErrorKind::Unsupported),
    }
}

impl ValueModel {
    /// The number that a text reads as, if it reads as one.
    pub open spec fn reading(&self, t: Seq<char>) -> Option<Number> {
        reading_in(self.readings@, t)
    }

    /// The number that a value stands for.
    pub open spec fn numeric(&self, v: Val) -> Result<Number, ErrorKind> {
        match v {
            Val::Number(n) => Ok(n),
            Val::Bool(b) => Ok(logical_number(b)),
            Val::Blank => Ok(counted(0)),
            Val::Text(t) => match self.reading(t) {
                Some(n) => Ok(n),
                None => Err(ErrorKind::Value),
            },
            Val::Error(k) => Err(k),
            _ => Err(ErrorKind::Unsupported),
        }
    }

    /// The text that a value stands for.
    pub open spec fn textual(&self, v: Val) -> Result<Seq<char>, ErrorKind> {
        match v {
            Val::Text(t) => Ok(t),
            Val::Bool(b) => Ok(if b { "TRUE"@ } else { "FALSE"@ }),
            Val::Blank => Ok(Seq::empty()),
            Val::Number(n) => match rendering_in(self.renderings@, n) {
                Some(t) => Ok(t),
                None => Err(ErrorKind::Unsupported),
            },
            Val::Error(k) => Err(k),
            _ => Err(ErrorKind::Unsupported),
        }
    }

    /// How `left` stands to `right` in the ordering of values.
    pub open spec fn order(&self, left: Val, right: Val) -> Result<Standing, ErrorKind> {
        match relation_in(self.relations@, left, right) {
            Some(r) => r.order,
            None => Err(ErrorKind::Unsupported),
        }
    }

    /// Whether `left` equals `right` as values.
    pub open spec fn equality(&self, left: Val, right: Val) -> Result<bool, ErrorKind> {
        match relation_in(self.relations@, left, right) {
            Some(r) => r.equal,
            None => Err(ErrorKind::Unsupported),
        }
    }

    /// The result of the whole call where the criterion `value` settles it.
    pub open spec fn settled_by(&self, value: Val) -> Option<ErrorKind> {
        match criterion_in(self.criteria@, value) {
            Some(c) => c.short,
            None => Some(ErrorKind::Unsupported),
        }
    }

    /// What the criterion `value` makes of `cell`.
    pub open spec fn ruling(&self, value: Val, cell: Val) -> Ruling {
        match criterion_in(self.criteria@, value) {
            Some(c) => ruling_in(c.cells@, cell),
            None => Ruling::Refuse(ErrorKind::Unsupported),
        }
    }

    fn read(&self, t: &Text) -> (r: Option<Number>)
        ensures
            r == self.reading(t@),
    {
        assert(self.readings@.skip(0) == self.readings@);
        for i in 0..self.readings.len()
            invariant
                self.reading(t@) == reading_in(self.readings@.skip(i as int), t@),
        {
            assert(self.readings@.skip(i as int)[0] == self.readings@[i as int]);
            if self.readings[i].0.same(t) {
                return Some(self.readings[i].1);
            }
            assert(self.readings@.skip(i as int).drop_first() == self.readings@.skip(i + 1));
        }
        None
    }

    fn render(&self, n: Number) -> (r: Option<Text>)
        ensures
            match r {
                Some(t) => rendering_in(self.renderings@, n) == Some(t@),
                None => rendering_in(self.renderings@, n) is None,
            },
    {
        assert(self.renderings@.skip(0) == self.renderings@);
        for i in 0..self.renderings.len()
            invariant
                rendering_in(self.renderings@, n) == rendering_in(self.renderings@.skip(i as int), n),
        {
            assert(self.renderings@.skip(i as int)[0] == self.renderings@[i as int]);
            proof {
                lemma_same_bits(self.renderings@[i as int].0, n);
            }
            if self.renderings[i].0.to_bits() == n.to_bits() {
                return Some(self.renderings[i].1.duplicate());
            }
            assert(self.renderings@.skip(i as int).drop_first() == self.renderings@.skip(i + 1));
        }
        None
    }

    fn find_relation(&self, left: &Value, right: &Value) -> (r: Option<&Relation>)
        ensures
            match r {
                Some(e) => relation_in(self.relations@, left@, right@) == Some(*e),
                None => relation_in(self.relations@, left@, right@) is None,
            },
    {
        assert(self.relations@.skip(0) == self.relations@);
        for i in 0..self.relations.len()
            invariant
                relation_in(self.relations@, left@, right@) == relation_in(
                    self.relations@.skip(i as int),
                    left@,
                    right@,
                ),
        {
            assert(self.relations@.skip(i as int)[0] == self.relations@[i as int]);
            if self.relations[i].left.same(left) && self.relations[i].right.same(right) {
                return Some(&self.relations[i]);
            }
            assert(self.relations@.skip(i as int).drop_first() == self.relations@.skip(i + 1));
        }
        None
    }

    fn find_criterion(&self, value: &Value) -> (r: Option<&Criterion>)
        ensures
            match r {
                Some(e) => criterion_in(self.criteria@, value@) == Some(*e),
                None => criterion_in(self.criteria@, value@) is None,
            },
    {
        assert(self.criteria@.skip(0) == self.criteria@);
        for i in 0..self.criteria.len()
            invariant
                criterion_in(self.criteria@, value@) == criterion_in(
                    self.criteria@.skip(i as int),
                    value@,
                ),
        {
            assert(self.criteria@.skip(i as int)[0] == self.criteria@[i as int]);
            if self.criteria[i].value.same(value) {
                return Some(&self.criteria[i]);
            }
            assert(self.criteria@.skip(i as int).drop_first() == self.criteria@.skip(i + 1));
        }
        None
    }

    /// The number that a value stands for: of a logical value one or zero, of a
    /// blank zero, of a text the number it reads as.
    pub fn to_number(&self, v: &Value) -> (r: Result<Number, ErrorKind>)
        ensures
            r == self.numeric(v@),
    {
        match v {
            Value::Number(n) => Ok(*n),
            Value::Bool(b) => Ok(number_of_logical(*b)),
            Value::Blank => Ok(Number::from_count(0)),
            Value::Text(t) => match self.read(t) {
                Some(n) => Ok(n),
                None => Err(ErrorKind::Value),
            },
            Value::Error(k) => Err(*k),
            Value::Array(_) => Err(ErrorKind::Unsupported),
            Value::Ref(_) => Err(ErrorKind::Unsupported),
            Value::Lambda(_) => Err(ErrorKind::Unsupported),
        }
    }

    /// The text that a value stands for: of a logical value its word, of a blank
    /// the empty text, of a number what the model writes it out as.
    pub fn to_text(&self, v: &Value) -> (r: Result<Text, ErrorKind>)
        ensures
            match r {
                Ok(t) => self.textual(v@) == Ok::<Seq<char>, ErrorKind>(t@),
                Err(k) => self.textual(v@) == Err::<Seq<char>, ErrorKind>(k),
            },
    {
        match v {
            Value::Text(t) => Ok(t.duplicate()),
            Value::Bool(b) => Ok(if *b { Text::new("TRUE") } else { Text::new("FALSE") }),
            Value::Blank => {
                let t = Text::from_chars(Vec::new());
                assert(t@ == Seq::<char>::empty());
                Ok(t)
            },
            Value::Number(n) => match self.render(*n) {
                Some(t) => Ok(t),
                None => Err(ErrorKind::Unsupported),
            },
            Value::Error(k) => Err(*k),
            Value::Array(_) => Err(ErrorKind::Unsupported),
            Value::Ref(_) => Err(ErrorKind::Unsupported),
            Value::Lambda(_) => Err(ErrorKind::Unsupported),
        }
    }

    /// How `left` stands to `right` in the ordering of values.
    pub fn stand(&self, left: &Value, right: &Value) -> (r: Result<Standing, ErrorKind>)
        ensures
            r == self.order(left@, right@),
    {
        match self.find_relation(left, right) {
            Some(e) => e.order,
            None => Err(ErrorKind::Unsupported),
        }
    }

    /// Whether `left` equals `right` as values.
    pub fn equals(&self, left: &Value, right: &Value) -> (r: Result<bool, ErrorKind>)
        ensures
            r == self.equality(left@, right@),
    {
        match self.find_relation(left, right) {
            Some(e) => e.equal,
            None => Err(ErrorKind::Unsupported),
        }
    }

    /// The result of the whole call where the criterion `value` settles it.
    pub fn short_circuit(&self, value: &Value) -> (r: Option<ErrorKind>)
        ensures
            r == self.settled_by(value@),
    {
        match self.find_criterion(value) {
            Some(c) => c.short,
            None => Some(ErrorKind::Unsupported),
        }
    }

    /// What the criterion `value` makes of `cell`.
    pub fn rule(&self, value: &Value, cell: &Value) -> (r: Ruling)
        ensures
            r == self.ruling(value@, cell@),
    {
        match self.find_criterion(value) {
            Some(c) => {
                assert(c.cells@.skip(0) == c.cells@);
                for i in 0..c.cells.len()
                    invariant
                        ruling_in(c.cells@, cell@) == ruling_in(c.cells@.skip(i as int), cell@),
                        criterion_in(self.criteria@, value@) == Some(*c),
                {
                    assert(c.cells@.skip(i as int)[0] == c.cells@[i as int]);
                    if c.cells[i].0.same(cell) {
                        return c.cells[i].1;
                    }
                    assert(c.cells@.skip(i as int).drop_first() == c.cells@.skip(i + 1));
                }
                Ruling::Refuse(ErrorKind::Unsupported)
            },
            None => Ruling::Refuse(ErrorKind::Unsupported),
        }
    }
}

/// The two ways in which dates are numbered.
#[derive(Clone, Copy, Debug, PartialEq, Eq, Structural)]
pub enum DateSystem {
    /// Day 1 is the first of January 1900, and day 60 the 29th of February of
    /// that year, which did not exist.
    From1900,
    /// Day 0 is the first of January 1904.
    From1904,
}

/// What a function knows of the sheet around its call.
#[derive(Debug, PartialEq)]
pub struct EvalContext {
    pub model: ValueModel,
    pub date_system: DateSystem,
    /// The most cells that a function may spill.
    pub spill_cap: usize,
}

impl EvalContext {
    /// A random draw. No generator with a seed is attached, so the draw is refused.
    pub fn rand(&self) -> (r: Result<Number, ErrorKind>)
        ensures
            r == Err::<Number, ErrorKind>(ErrorKind::Unsupported),
    {
        Err(ErrorKind::Unsupported)
    }
}

/// The law of readings: the first entry for a text gives its number, and a text without
/// an entry has none.
pub proof fn law_first_reading_counts(table: Seq<(Text, Number)>, t: Seq<char>)
    ensures
        match reading_in(table, t) {
            Some(n) => exists|i: int|
                0 <= i < table.len() && (#[trigger] table[i]).0@ == t && table[i].1 == n && forall|j: int|
                    0 <= j < i ==> (#[trigger] table[j]).0@ != t,
            None => forall|j: int| 0 <= j < table.len() ==> (#[trigger] table[j]).0@ != t,
        },
    decreases table.len(),
{
    if table.len() > 0 && table[0].0@ != t {
        let rest = table.drop_first();
        law_first_reading_counts(rest, t);
        assert forall|j: int| 0 <= j < rest.len() implies rest[j] == #[trigger] table[j + 1] by {}
        if reading_in(rest, t) is Some {
            let n = reading_in(rest, t)->0;
            let i = choose|i: int|
                0 <= i < rest.len() && (#[trigger] rest[i]).0@ == t && rest[i].1 == n && forall|j: int|
                    0 <= j < i ==> (#[trigger] rest[j]).0@ != t;
            assert(table[i + 1].0@ == t);
            assert forall|j: int| 0 <= j < i + 1 implies (#[trigger] table[j]).0@ != t by {
                if j > 0 {
                    assert(rest[j - 1] == table[j]);
                }
            }
        } else {
            assert forall|j: int| 0 <= j < table.len() implies (#[trigger] table[j]).0@ != t by {
                if j > 0 {
                    assert(rest[j - 1] == table[j]);
                }
            }
        }
    } else if table.len() > 0 {
        assert(table[0].0@ == t);
    }
}

/// The law of renderings: the first entry for a number gives its text, and a number without
/// an entry has none.
pub proof fn law_first_rendering_counts(table: Seq<(Number, Text)>, n: Number)
    ensures
        match rendering_in(table, n) {
            Some(t) => exists|i: int|
                0 <= i < table.len() && (#[trigger] table[i]).0 == n && table[i].1@ == t && forall|j: int|
                    0 <= j < i ==> (#[trigger] table[j]).0 != n,
            None => forall|j: int| 0 <= j < table.len() ==> (#[trigger] table[j]).0 != n,
        },
    decreases table.len(),
{
    if table.len() > 0 && table[0].0 != n {
        let rest = table.drop_first();
        law_first_rendering_counts(rest, n);
        assert forall|j: int| 0 <= j < rest.len() implies rest[j] == #[trigger] table[j + 1] by {}
        if rendering_in(rest, n) is Some {
            let t = rendering_in(rest, n)->0;
            let i = choose|i: int|
                0 <= i < rest.len() && (#[trigger] rest[i]).0 == n && rest[i].1@ == t && forall|j: int|
                    0 <= j < i ==> (#[trigger] rest[j]).0 != n;
            assert(table[i + 1].0 == n);
            assert forall|j: int| 0 <= j < i + 1 implies (#[trigger] table[j]).0 != n by {
                if j > 0 {
                    assert(rest[j - 1] == table[j]);
                }
            }
        } else {
            assert forall|j: int| 0 <= j < table.len() implies (#[trigger] table[j]).0 != n by {
                if j > 0 {
                    assert(rest[j - 1] == table[j]);
                }
            }
        }
    } else if table.len() > 0 {
        assert(table[0].0 == n);
    }
}

/// The law of relations: of a pair of values the first entry counts; a pair without one has
/// none.
pub proof fn law_first_relation_counts(table: Seq<Relation>, left: Val, right: Val)
    ensures
        (exists|i: int| #[trigger] relates_at(table, left, right, i)) || forall|j: int|
            0 <= j < table.len() ==> !((#[trigger] table[j]).left@ == left && table[j].right@ == right),
        forall|i: int| #[trigger] relates_at(table, left, right, i) ==> relation_in(table, left, right) == Some(table[i]),
        (forall|j: int| 0 <= j < table.len() ==> !((#[trigger] table[j]).left@ == left && table[j].right@ == right)) ==> relation_in(table, left, right) is None,
    decreases table.len(),
{
    if table.len() > 0 {
        let rest = table.drop_first();
        law_first_relation_counts(rest, left, right);
        assert forall|j: int| 0 <= j < rest.len() implies rest[j] == #[trigger] table[j + 1] by {}
        if table[0].left@ == left && table[0].right@ == right {
            assert(relates_at(table, left, right, 0));
        } else {
            assert forall|i: int| #[trigger] relates_at(rest, left, right, i) implies relates_at(table, left, right, i + 1) by {
                assert(rest[i] == table[i + 1]);
                assert forall|j: int| 0 <= j < i + 1 implies !((#[trigger] table[j]).left@ == left && table[j].right@ == right) by {
                    if j > 0 {
                        assert(rest[j - 1] == table[j]);
                    }
                }
            }
            assert forall|i: int| #[trigger] relates_at(table, left, right, i) implies relates_at(rest, left, right, i - 1) by {
                assert(rest[i - 1] == table[i]);
                assert forall|j: int| 0 <= j < i - 1 implies !((#[trigger] rest[j]).left@ == left && rest[j].right@ == right) by {
                    assert(rest[j] == table[j + 1]);
                }
            }
            if exists|i: int| #[trigger] relates_at(rest, left, right, i) {
                let i = choose|i: int| #[trigger] relates_at(rest, left, right, i);
                assert(relates_at(table, left, right, i + 1));
            } else {
                assert forall|j: int| 0 <= j < table.len() implies !((#[trigger] table[j]).left@ == left && table[j].right@ == right) by {
                    if j > 0 {
                        assert(rest[j - 1] == table[j]);
                    }
                }
            }
            if forall|j: int| 0 <= j < table.len() ==> !((#[trigger] table[j]).left@ == left && table[j].right@ == right) {
                assert forall|j: int| 0 <= j < rest.len() implies !((#[trigger] rest[j]).left@ == left && rest[j].right@ == right) by {
                    assert(rest[j] == table[j + 1]);
                }
            }
        }
    }
}

/// Entry `i` is the first for the pair of `left` and `right`.
pub open spec fn relates_at(table: Seq<Relation>, left: Val, right: Val, i: int) -> bool {
    0 <= i < table.len() && table[i].left@ == left && table[i].right@ == right && forall|j: int| 0 <= j < i ==> !((#[trigger] table[j]).left@ == left && table[j].right@ == right)
}

/// The law of criteria: of a criterion the first entry counts; one without an entry has none.
pub proof fn law_first_criterion_counts(table: Seq<Criterion>, value: Val)
    ensures
        (exists|i: int| #[trigger] states_at(table, value, i)) || forall|j: int|
            0 <= j < table.len() ==> !((#[trigger] table[j]).value@ == value),
        forall|i: int| #[trigger] states_at(table, value, i) ==> criterion_in(table, value) == Some(table[i]),
        (forall|j: int| 0 <= j < table.len() ==> !((#[trigger] table[j]).value@ == value)) ==> criterion_in(table, value) is None,
    decreases table.len(),
{
    if table.len() > 0 {
        let rest = table.drop_first();
        law_first_criterion_counts(rest, value);
        assert forall|j: int| 0 <= j < rest.len() implies rest[j] == #[trigger] table[j + 1] by {}
        if table[0].value@ == value {
            assert(states_at(table, value, 0));
        } else {
            assert forall|i: int| #[trigger] states_at(rest, value, i) implies states_at(table, value, i + 1) by {
                assert(rest[i] == table[i + 1]);
                assert forall|j: int| 0 <= j < i + 1 implies !((#[trigger] table[j]).value@ == value) by {
                    if j > 0 {
                        assert(rest[j - 1] == table[j]);
                    }
                }
            }
            assert forall|i: int| #[trigger] states_at(table, value, i) implies states_at(rest, value, i - 1) by {
                assert(rest[i - 1] == table[i]);
                assert forall|j: int| 0 <= j < i - 1 implies !((#[trigger] rest[j]).value@ == value) by {
                    assert(rest[j] == table[j + 1]);
                }
            }
            if exists|i: int| #[trigger] states_at(rest, value, i) {
                let i = choose|i: int| #[trigger] states_at(rest, value, i);
                assert(states_at(table, value, i + 1));
            } else {
                assert forall|j: int| 0 <= j < table.len() implies !((#[trigger] table[j]).value@ == value) by {
                    if j > 0 {
                        assert(rest[j - 1] == table[j]);
                    }
                }
            }
            if forall|j: int| 0 <= j < table.len() ==> !((#[trigger] table[j]).value@ == value) {
                assert forall|j: int| 0 <= j < rest.len() implies !((#[trigger] rest[j]).value@ == value) by {
                    assert(rest[j] == table[j + 1]);
                }
            }
        }
    }
}

/// Entry `i` is the first for the criterion `value`.
pub open spec fn states_at(table: Seq<Criterion>, value: Val, i: int) -> bool {
    0 <= i < table.len() && table[i].value@ == value && forall|j: int| 0 <= j < i ==> !((#[trigger] table[j]).value@ == value)
}

/// The law of rulings: what the first entry for a cell says counts; a cell without an entry
/// is refused.
pub proof fn law_first_ruling_counts(table: Seq<(Value, Ruling)>, cell: Val)
    ensures
        (exists|i: int| #[trigger] rules_at(table, cell, i)) || forall|j: int|
            0 <= j < table.len() ==> !((#[trigger] table[j]).0@ == cell),
        forall|i: int| #[trigger] rules_at(table, cell, i) ==> ruling_in(table, cell) == table[i].1,
        (forall|j: int| 0 <= j < table.len() ==> !((#[trigger] table[j]).0@ == cell)) ==> ruling_in(table, cell) == Ruling::Refuse(ErrorKind::Unsupported),
    decreases table.len(),
{
    if table.len() > 0 {
        let rest = table.drop_first();
        law_first_ruling_counts(rest, cell);
        assert forall|j: int| 0 <= j < rest.len() implies rest[j] == #[trigger] table[j + 1] by {}
        if table[0].0@ == cell {
            assert(rules_at(table, cell, 0));
        } else {
            assert forall|i: int| #[trigger] rules_at(rest, cell, i) implies rules_at(table, cell, i + 1) by {
                assert(rest[i] == table[i + 1]);
                assert forall|j: int| 0 <= j < i + 1 implies !((#[trigger] table[j]).0@ == cell) by {
                    if j > 0 {
                        assert(rest[j - 1] == table[j]);
                    }
                }
            }
            assert forall|i: int| #[trigger] rules_at(table, cell, i) implies rules_at(rest, cell, i - 1) by {
                assert(rest[i - 1] == table[i]);
                assert forall|j: int| 0 <= j < i - 1 implies !((#[trigger] rest[j]).0@ == cell) by {
                    assert(rest[j] == table[j + 1]);
                }
            }
            if exists|i: int| #[trigger] rules_at(rest, cell, i) {
                let i = choose|i: int| #[trigger] rules_at(rest, cell, i);
                assert(rules_at(table, cell, i + 1));
            } else {
                assert forall|j: int| 0 <= j < table.len() implies !((#[trigger] table[j]).0@ == cell) by {
                    if j > 0 {
                        assert(rest[j - 1] == table[j]);
                    }
                }
            }
            if forall|j: int| 0 <= j < table.len() ==> !((#[trigger] table[j]).0@ == cell) {
                assert forall|j: int| 0 <= j < rest.len() implies !((#[trigger] rest[j]).0@ == cell) by {
                    assert(rest[j] == table[j + 1]);
                }
            }
        }
    }
}

/// Entry `i` is the first for the cell.
pub open spec fn rules_at(table: Seq<(Value, Ruling)>, cell: Val, i: int) -> bool {
    0 <= i < table.len() && table[i].0@ == cell && forall|j: int| 0 <= j < i ==> !((#[trigger] table[j]).0@ == cell)
}

/// The law of numbers: a number stands for itself, a logical value for one or zero, a
/// blank for zero and a text for its reading, without which it is a value error; an error
/// spreads, and any other value is refused.
pub proof fn law_values_stand_for_numbers(m: &ValueModel, v: Val)
    ensures
        v matches Val::Number(n) ==> m.numeric(v) == Ok::<Number, ErrorKind>(n),
        v matches Val::Bool(b) ==> (m.numeric(v) matches Ok(n) && n.units() == (if b {
            crate::number::one()
        } else {
            0
        })),
        v is Blank ==> (m.numeric(v) matches Ok(n) && n.units() == 0),
        v matches Val::Text(t) ==> m.numeric(v) == (match reading_in(m.readings@, t) {
            Some(n) => Ok::<Number, ErrorKind>(n),
            None => Err(ErrorKind::Value),
        }),
        v matches Val::Error(k) ==> m.numeric(v) == Err::<Number, ErrorKind>(k),
        v is Array || v is Ref || v is Lambda ==> m.numeric(v) == Err::<Number, ErrorKind>(ErrorKind::Unsupported),
{
    crate::number::lemma_counted_exactly(0);
    crate::number::lemma_counted_exactly(1);
}

/// The law of texts: a text stands for itself, a logical value for its word, a blank for
/// the empty text and a number for its rendering, without which it is refused; an error
/// spreads, and any other value is refused.
pub proof fn law_values_stand_for_texts(m: &ValueModel, v: Val)
    ensures
        v matches Val::Text(t) ==> m.textual(v) == Ok::<Seq<char>, ErrorKind>(t),
        v == Val::Bool(true) ==> m.textual(v) == Ok::<Seq<char>, ErrorKind>(seq!['T', 'R', 'U', 'E']),
        v == Val::Bool(false) ==> m.textual(v) == Ok::<Seq<char>, ErrorKind>(seq!['F', 'A', 'L', 'S', 'E']),
        v is Blank ==> (m.textual(v) matches Ok(t) && t.len() == 0),
        v matches Val::Number(n) ==> m.textual(v) == (match rendering_in(m.renderings@, n) {
            Some(t) => Ok::<Seq<char>, ErrorKind>(t),
            None => Err(ErrorKind::Unsupported),
        }),
        v matches Val::Error(k) ==> m.textual(v) == Err::<Seq<char>, ErrorKind>(k),
        v is Array || v is Ref || v is Lambda ==> m.textual(v) == Err::<Seq<char>, ErrorKind>(ErrorKind::Unsupported),
{
    reveal_strlit("TRUE");
    reveal_strlit("FALSE");
    assert("TRUE"@ =~= seq!['T', 'R', 'U', 'E']);
    assert("FALSE"@ =~= seq!['F', 'A', 'L', 'S', 'E']);
}

/// The text spells `word`, in capital letters, letter by letter, in either case.
pub open spec fn spells(t: Seq<char>, word: Seq<char>) -> bool {
    t.len() == word.len() && forall|i: int|
        0 <= i < t.len() ==> t[i] == #[trigger] word[i] || t[i] as int == word[i] as int + 32
}

/// The law of truth: a number is true where it is not zero, a text where it spells the
/// word for true, and false where it spells that for false, in either case, else it is a
/// value error; a blank is false; an error spreads, and any other value is refused.
pub proof fn law_values_stand_for_truth(v: Val)
    ensures
        v matches Val::Number(n) ==> logical(v) == Ok::<bool, ErrorKind>(n.units() != 0),
        v matches Val::Bool(b) ==> logical(v) == Ok::<bool, ErrorKind>(b),
        v is Blank ==> logical(v) == Ok::<bool, ErrorKind>(false),
        v matches Val::Text(t) ==> logical(v) == (if spells(t, seq!['T', 'R', 'U', 'E']) {
            Ok::<bool, ErrorKind>(true)
        } else if spells(t, seq!['F', 'A', 'L', 'S', 'E']) {
            Ok(false)
        } else {
            Err(ErrorKind::Value)
        }),
        v matches Val::Error(k) ==> logical(v) == Err::<bool, ErrorKind>(k),
        v is Array || v is Ref || v is Lambda ==> logical(v) == Err::<bool, ErrorKind>(ErrorKind::Unsupported),
{
    if v is Text {
        let t = v->Text_0;
        reveal_strlit("TRUE");
        reveal_strlit("FALSE");
        assert("TRUE"@ =~= seq!['T', 'R', 'U', 'E']);
        assert("FALSE"@ =~= seq!['F', 'A', 'L', 'S', 'E']);
        lemma_spells(t, "TRUE"@);
        lemma_spells(t, "FALSE"@);
    }
}

proof fn lemma_spells(t: Seq<char>, word: Seq<char>)
    requires
        forall|i: int| 0 <= i < word.len() ==> 'A' <= #[trigger] word[i] <= 'Z',
    ensures
        is_word(t, word) <==> spells(t, word),
{
    let up = t.map_values(|c: char| ascii_upper(c));
    if is_word(t, word) {
        assert(up.len() == word.len());
        assert forall|i: int| 0 <= i < t.len() implies t[i] == #[trigger] word[i] || t[i] as int == word[i] as int + 32 by {
            assert(up[i] == ascii_upper(t[i]));
        }
    }
    if spells(t, word) {
        assert forall|i: int| 0 <= i < t.len() implies up[i] == #[trigger] word[i] by {
            assert('A' <= word[i] <= 'Z');
            assert(up[i] == ascii_upper(t[i]));
        }
        assert(up =~= word);
    }
}

/// The law of unknown pairs and criteria: how two values stand, and what a criterion makes
/// of a cell, is what the entry for them says; without one the answer is refused.
pub proof fn law_unstated_is_refused(m: &ValueModel, left: Val, right: Val)
    ensures
        match relation_in(m.relations@, left, right) {
            Some(r) => m.order(left, right) == r.order && m.equality(left, right) == r.equal,
            None => m.order(left, right) == Err::<Standing, ErrorKind>(ErrorKind::Unsupported) && m.equality(left, right)
                == Err::<bool, ErrorKind>(ErrorKind::Unsupported),
        },
        match criterion_in(m.criteria@, left) {
            Some(c) => m.settled_by(left) == c.short && m.ruling(left, right) == ruling_in(c.cells@, right),
            None => m.settled_by(left) == Some(ErrorKind::Unsupported) && m.ruling(left, right) == Ruling::Refuse(
                ErrorKind::Unsupported,
            ),
        },
{
}

} // verus!
