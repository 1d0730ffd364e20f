//! `IRR(values, [guess])`: the rate at which cash flows are worth nothing now.
//!
//! The flows are the numbers of a range or array constant, or one single value;
//! an error among cells is a value error. Without a flow above zero and one below
//! there is no rate, and the result is a number error. The rate is found by
//! Newton's method from the guess, which is one tenth where none is given: in at
//! most twenty rounds, each of which takes a rate to the rate less its present value
//! over the slope there. [`start`] gives the first rate, and [`Rounds`] decides after each
//! round how the search goes on.

use crate::aggregate::{
    all_usable, arg_items, collect_arg, gather, lemma_all_cells_count, lemma_one_range, numbers_of_cells, Rules, Slot,
};
use crate::args::{ready, ArgShape, CallArgs, CallModel};
use crate::model::{EvalContext, ValueModel};
use crate::number::{lemma_same_bits, one, Number, EXPONENT_LIMIT, HIDDEN, SIGN};
use crate::value::{ErrorKind, Val, Value};
use vstd::arithmetic::power2::{lemma2_to64_rest, lemma_pow2_adds, lemma_pow2_pos, pow2};
use vstd::prelude::*;

verus! {

/// What the rate is computed from.
#[derive(Debug, PartialEq)]
pub struct Terms {
    /// The flow of each period, from the start of the first period on.
    pub flows: Vec<Number>,
    /// The guess, where one is given.
    pub guess: Option<Number>,
}

/// An empty slot is not looked at, a blank counts as zero; of cells only numbers count.
pub open spec fn rules() -> Rules {
    Rules { references: false, omitted: None, blank: Slot::Coerce, logicals: false }
}

/// The flows of the call. An error among cells is a value error.
pub open spec fn flows_of(m: &ValueModel, call: CallModel) -> Result<Seq<Number>, ErrorKind> {
    match gather(arg_items(m, call.arg(0), rules())) {
        Ok(ns) => Ok(ns),
        Err(k) => if call.arg(0).shape == ArgShape::Scalar {
            Err(k)
        } else {
            Err(ErrorKind::Value)
        },
    }
}

/// The guess of the call.
pub open spec fn guess_of(m: &ValueModel, call: CallModel) -> Result<Option<Number>, ErrorKind> {
    if call.arg(1).shape == ArgShape::Omitted {
        Ok(None)
    } else {
        match m.numeric(call.scalar(1)) {
            Ok(n) => Ok(Some(n)),
            Err(k) => Err(k),
        }
    }
}

/// One flow is above zero and one below.
pub open spec fn changes_sign(ns: Seq<Number>) -> bool {
    &&& exists|i: int| 0 <= i < ns.len() && (#[trigger] ns[i]).units() > 0
    &&& exists|i: int| 0 <= i < ns.len() && (#[trigger] ns[i]).units() < 0
}

/// The outcome of the call is `r`.
pub open spec fn outcome(m: &ValueModel, call: CallModel, r: Result<Terms, ErrorKind>) -> bool {
    match (flows_of(m, call), guess_of(m, call)) {
        (Err(k), _) => r == Err::<Terms, ErrorKind>(k),
        (Ok(_), Err(k)) => r == Err::<Terms, ErrorKind>(k),
        (Ok(ns), Ok(guess)) => if changes_sign(ns) {
            r matches Ok(t) && t.flows@ == ns && t.guess == guess
        } else {
            r == Err::<Terms, ErrorKind>(ErrorKind::Num)
        },
    }
}

/// The encoding of the rate that the search starts at without a guess: the double
/// nearest to one tenth.
pub const DEFAULT_GUESS_BITS: u64 = 0x3FB9_9999_9999_999A;

/// The search starts at the rate `n`: the guess, or where there is none the rate with
/// the default encoding.
pub open spec fn starts_at(t: Terms, n: Number) -> bool {
    match t.guess {
        Some(guess) => n == guess,
        None => n.bits() == DEFAULT_GUESS_BITS,
    }
}

/// The rate that the search starts at.
pub fn start(t: &Terms) -> (n: Number)
    ensures
        starts_at(*t, n),
{
    match t.guess {
        Some(guess) => guess,
        None => {
            assert((DEFAULT_GUESS_BITS % SIGN) / HIDDEN < EXPONENT_LIMIT);
            match Number::from_bits(DEFAULT_GUESS_BITS) {
                Some(n) => n,
                None => Number::zero(),
            }
        },
    }
}

/// The most rounds that the search takes.
pub const MAX_ROUNDS: u32 = 20;

/// What a round of the search comes to.
#[derive(Clone, Copy, Debug)]
pub struct Round {
    /// The present value at the rate is finite.
    pub value_finite: bool,
    /// The slope at the rate, where it is finite.
    pub slope: Option<Number>,
    /// The rate that the round leads to, where it is finite.
    pub next: Option<Number>,
    /// The step to it is within the tolerance.
    pub settled: bool,
}

/// How the search goes on.
#[derive(Debug, PartialEq)]
pub enum Step {
    /// It ends with a result.
    Done(Value),
    /// It takes another round, at this rate.
    Again(Number),
    /// It ends with this rate if the present value there is within the tolerance.
    Weigh(Number),
}

/// What a round that leads to a rate has: a finite value and a usable slope.
pub open spec fn usable(r: Round) -> bool {
    r.value_finite && (r.slope matches Some(s) && s.units() != 0) && r.next is Some
}

/// How the search goes on after a round, `taken` rounds having been taken with it.
pub open spec fn goes_on(taken: nat, r: Round, step: Step) -> bool {
    if !usable(r) {
        step matches Step::Done(v) && v@ == Val::Error(ErrorKind::Num)
    } else if r.settled {
        step matches Step::Done(v) && v@ == Val::Number(r.next->0)
    } else if taken < MAX_ROUNDS {
        step == Step::Again(r.next->0)
    } else {
        step == Step::Weigh(r.next->0)
    }
}

/// The rounds that a search has taken.
#[derive(Debug, PartialEq)]
pub struct Rounds {
    taken: u32,
}

impl Rounds {
    /// How many rounds have been taken.
    pub closed spec fn taken(&self) -> nat {
        self.taken as nat
    }

    #[verifier::type_invariant]
    closed spec fn bounded(self) -> bool {
        self.taken <= MAX_ROUNDS
    }

    /// A search that has taken no round.
    pub fn new() -> (s: Rounds)
        ensures
            s.taken() == 0,
    {
        Rounds { taken: 0 }
    }

    /// Takes a round. One that leads to no rate is a number error; one whose step is
    /// within the tolerance ends with its rate; after the last, the rate is weighed.
    pub fn advance(&mut self, r: Round) -> (step: Step)
        requires
            old(self).taken() < MAX_ROUNDS,
        ensures
            final(self).taken() == old(self).taken() + 1,
            !usable(r) ==> (step matches Step::Done(v) && v@ == Val::Error(ErrorKind::Num)),
            usable(r) && r.settled ==> (step matches Step::Done(v) && v@ == Val::Number(r.next->0)),
            usable(r) && !r.settled && final(self).taken() < MAX_ROUNDS ==> step == Step::Again(r.next->0),
            usable(r) && !r.settled && final(self).taken() == MAX_ROUNDS ==> step == Step::Weigh(r.next->0),
            goes_on(final(self).taken(), r, step),
    {
        self.taken = self.taken + 1;
        let slope_usable = match r.slope {
            Some(s) => !s.is_zero(),
            None => false,
        };
        if !r.value_finite || !slope_usable {
            return Step::Done(Value::Error(ErrorKind::Num));
        }
        match r.next {
            None => Step::Done(Value::Error(ErrorKind::Num)),
            Some(next) => if r.settled {
                Step::Done(Value::Number(next))
            } else if self.taken < MAX_ROUNDS {
                Step::Again(next)
            } else {
                Step::Weigh(next)
            },
        }
    }
}

/// The result of a search that has taken all its rounds.
pub open spec fn weighed(rate: Number, within: bool) -> Val {
    if within {
        Val::Number(rate)
    } else {
        Val::Error(ErrorKind::Num)
    }
}

/// The result of a search that has taken all its rounds: the last rate, where the
/// present value there is within the tolerance, else a number error.
pub fn weigh(rate: Number, within: bool) -> (v: Value)
    ensures
        v@ == weighed(rate, within),
{
    if within {
        Value::Number(rate)
    } else {
        Value::Error(ErrorKind::Num)
    }
}

fn sign_changes(ns: &Vec<Number>) -> (b: bool)
    ensures
        b == changes_sign(ns@),
{
    let mut above = false;
    let mut below = false;
    for i in 0..ns.len()
        invariant
            above == (exists|j: int| 0 <= j < i && (#[trigger] ns@[j]).units() > 0),
            below == (exists|j: int| 0 <= j < i && (#[trigger] ns@[j]).units() < 0),
    {
        if ns[i].is_positive() {
            above = true;
        }
        if ns[i].is_negative() {
            below = true;
        }
    }
    above && below
}

/// The terms of the call, or the error that it results in.
pub fn terms<A: CallArgs>(ctx: &EvalContext, args: &A) -> (r: Result<Terms, ErrorKind>)
    requires
        ready(args),
    ensures
        outcome(&ctx.model, args.call(), r),
{
    let rules = Rules { references: false, omitted: None, blank: Slot::Coerce, logicals: false };
    let flows = match collect_arg(&ctx.model, args, 0, rules) {
        Ok(ns) => ns,
        Err(k) => {
            return if args.shape(0) == ArgShape::Scalar {
                Err(k)
            } else {
                Err(ErrorKind::Value)
            };
        },
    };
    let guess = if args.shape(1) == ArgShape::Omitted {
        None
    } else {
        match ctx.model.to_number(&args.eval_scalar(1)) {
            Ok(n) => Some(n),
            Err(k) => {
                return Err(k);
            },
        }
    };
    if !sign_changes(&flows) {
        return Err(ErrorKind::Num);
    }
    Ok(Terms { flows, guess })
}

/// The law of the omitted guess: of the same flows, a call without a guess searches as
/// one with the guess of one tenth does, from the same rate. The rate is above one tenth
/// by less than half a step between doubles of its size, so that no other double is as
/// near.
pub proof fn law_omitted_guess_is_a_tenth(
    m: &ValueModel,
    without: CallModel,
    with: CallModel,
    t: Terms,
    u: Terms,
    tenth: Number,
    n: Number,
)
    requires
        flows_of(m, without) == flows_of(m, with),
        without.arg(1).shape == ArgShape::Omitted,
        with.arg(1).shape != ArgShape::Omitted,
        m.numeric(with.scalar(1)) == Ok::<Number, ErrorKind>(tenth),
        tenth.bits() == DEFAULT_GUESS_BITS,
        outcome(m, without, Ok(t)),
        outcome(m, with, Ok(u)),
        starts_at(t, n),
    ensures
        t.flows@ == u.flows@,
        starts_at(u, n),
        n.units() == 0x19_9999_9999_999A * pow2(1018),
        0 < 10 * n.units() - one(),
        2 * (10 * n.units() - one()) < 10 * pow2(1018),
{
    lemma_same_bits(n, tenth);
    assert(DEFAULT_GUESS_BITS as int / (HIDDEN as int) == 1019);
    assert(HIDDEN + DEFAULT_GUESS_BITS as int % (HIDDEN as int) == 0x19_9999_9999_999A);
    lemma2_to64_rest();
    lemma_pow2_adds(56, 1018);
    lemma_pow2_pos(1018);
}

/// The law of the flows: the flows of a range or array constant are the numbers of its
/// cells, in their order, zeros among them. Where every cell is a number, flow `j` is
/// the number in cell `j`.
pub proof fn law_flows_are_the_numeric_cells(m: &ValueModel, call: CallModel, t: Terms)
    requires
        call.arg(0).shape == ArgShape::Range || call.arg(0).shape == ArgShape::Array,
        outcome(m, call, Ok(t)),
    ensures
        exists|places: Seq<int>| numbers_of_cells(t.flows@, call.arg(0).cells, places),
        (forall|j: int| 0 <= j < call.arg(0).cells.len() ==> (#[trigger] call.arg(0).cells[j]) is Number)
            ==> t.flows@.len() == call.arg(0).cells.len() && forall|j: int|
            0 <= j < call.arg(0).cells.len() ==> call.arg(0).cells[j] == Val::Number(#[trigger] t.flows@[j]),
{
    let cells = call.arg(0).cells;
    lemma_one_range(m, call.arg(0), rules());
    let places = choose|places: Seq<int>| numbers_of_cells(t.flows@, cells, places);
    if forall|j: int| 0 <= j < cells.len() ==> (#[trigger] cells[j]) is Number {
        lemma_all_cells_count(t.flows@, cells, places);
    }
}

/// A cell holds a number above zero.
pub open spec fn some_cell_above_zero(cells: Seq<Val>) -> bool {
    exists|j: int| 0 <= j < cells.len() && (#[trigger] cells[j] matches Val::Number(x) && x.units() > 0)
}

/// A cell holds a number below zero.
pub open spec fn some_cell_below_zero(cells: Seq<Val>) -> bool {
    exists|j: int| 0 <= j < cells.len() && (#[trigger] cells[j] matches Val::Number(x) && x.units() < 0)
}

proof fn lemma_signs_of_cells(ns: Seq<Number>, cells: Seq<Val>, places: Seq<int>)
    requires
        numbers_of_cells(ns, cells, places),
    ensures
        changes_sign(ns) == (some_cell_above_zero(cells) && some_cell_below_zero(cells)),
{
    assert forall|i: int| 0 <= i < ns.len() implies 0 <= places[i] < cells.len() && cells[places[i]] == Val::Number(
        #[trigger] ns[i],
    ) by {
        assert(0 <= places[i]);
    }
    assert forall|j: int| 0 <= j < cells.len() && (#[trigger] cells[j]) is Number implies exists|p: int|
        0 <= p < ns.len() && Val::Number(#[trigger] ns[p]) == cells[j] by {
        assert(places.contains(j));
        let p = choose|p: int| 0 <= p < places.len() && places[p] == j;
        assert(Val::Number(ns[p]) == cells[j]);
    }
}

/// The law of the outcome: of a range or array constant a rate is searched exactly where
/// every cell can be used, the guess is a number or left out, and a cell holds a number
/// above zero and another one below. A cell that cannot be used is a value error, which
/// comes before an error of the guess, and that before the number error of flows that
/// do not change sign.
pub proof fn law_search_needs_both_signs(m: &ValueModel, call: CallModel, r: Result<Terms, ErrorKind>)
    requires
        call.arg(0).shape == ArgShape::Range || call.arg(0).shape == ArgShape::Array,
        outcome(m, call, r),
    ensures
        !all_usable(call.arg(0).cells) ==> r == Err::<Terms, ErrorKind>(ErrorKind::Value),
        all_usable(call.arg(0).cells) && call.arg(1).shape != ArgShape::Omitted ==> match m.numeric(call.scalar(1)) {
            Err(k) => r == Err::<Terms, ErrorKind>(k),
            Ok(guess) => r matches Ok(t) ==> t.guess == Some(guess),
        },
        all_usable(call.arg(0).cells) && call.arg(1).shape == ArgShape::Omitted ==> (r matches Ok(t) ==> t.guess is None),
        all_usable(call.arg(0).cells) && (call.arg(1).shape == ArgShape::Omitted || m.numeric(call.scalar(1)) is Ok)
            ==> if some_cell_above_zero(call.arg(0).cells) && some_cell_below_zero(call.arg(0).cells) {
            r is Ok
        } else {
            r == Err::<Terms, ErrorKind>(ErrorKind::Num)
        },
{
    let cells = call.arg(0).cells;
    lemma_one_range(m, call.arg(0), rules());
    if all_usable(cells) {
        let ns = flows_of(m, call)->Ok_0;
        let places = choose|places: Seq<int>| numbers_of_cells(ns, cells, places);
        lemma_signs_of_cells(ns, cells, places);
    }
}

/// The law of the single value: one flow cannot change sign, so that there is no rate.
pub proof fn law_one_flow_has_no_rate(m: &ValueModel, call: CallModel, r: Result<Terms, ErrorKind>)
    requires
        call.arg(0).shape == ArgShape::Scalar || call.arg(0).shape == ArgShape::Omitted,
        outcome(m, call, r),
    ensures
        r is Err,
        call.arg(0).shape == ArgShape::Scalar ==> (m.numeric(call.arg(0).array_scalar) matches Err(k) ==> r == Err::<
            Terms,
            ErrorKind,
        >(k)),
        (call.arg(0).shape == ArgShape::Omitted || m.numeric(call.arg(0).array_scalar) is Ok) && call.arg(1).shape
            == ArgShape::Omitted ==> r == Err::<Terms, ErrorKind>(ErrorKind::Num),
{
    let items = arg_items(m, call.arg(0), rules());
    if items.len() > 0 {
        assert(items.drop_last() == Seq::<crate::model::NumericArg>::empty());
    }
    reveal_with_fuel(gather, 2);
}

/// The law of the rounds: another round is taken only before the twentieth, at the rate
/// that a round with a finite value and a slope that is not zero leads to, and not where
/// its step is within the tolerance; such a step is what a search ends with a rate for.
/// After the twentieth round the rate is weighed. Without a finite value, slope or rate,
/// or with a slope of zero, the search ends with a number error.
pub proof fn law_steps_follow_from_the_round(taken: nat, r: Round, step: Step)
    requires
        goes_on(taken, r, step),
        taken <= 20,
    ensures
        step is Again || step is Weigh ==> r.value_finite && (r.slope matches Some(s) && s.units() != 0) && !r.settled,
        step matches Step::Again(n) ==> taken < 20 && r.next == Some(n),
        step matches Step::Weigh(n) ==> taken == 20 && r.next == Some(n),
        step matches Step::Done(v) ==> if r.value_finite && (r.slope matches Some(s) && s.units() != 0) && r.next is Some {
            r.settled && v@ == Val::Number(r.next->0)
        } else {
            v@ == Val::Error(ErrorKind::Num)
        },
{
}

/// The law of the start: a call with a guess searches from the number that its second
/// argument stands for, whatever that is, and an error of that argument is the outcome of
/// a single value that stands for a number.
pub proof fn law_search_starts_at_the_guess(m: &ValueModel, call: CallModel, r: Result<Terms, ErrorKind>, n: Number)
    requires
        outcome(m, call, r),
        call.arg(1).shape != ArgShape::Omitted,
    ensures
        r matches Ok(t) ==> (starts_at(t, n) ==> m.numeric(call.scalar(1)) == Ok::<Number, ErrorKind>(n)),
        call.arg(0).shape == ArgShape::Scalar && m.numeric(call.arg(0).array_scalar) is Ok ==> (m.numeric(call.scalar(1))
            matches Err(k) ==> r == Err::<Terms, ErrorKind>(k)),
{
    let v = call.arg(0).array_scalar;
    if call.arg(0).shape == ArgShape::Scalar && m.numeric(v) is Ok {
        let items = arg_items(m, call.arg(0), rules());
        assert(items.drop_last() =~= Seq::empty());
        reveal_with_fuel(gather, 3);
    }
}

/// The law of weighing: only a rate whose present value is within the tolerance is a
/// result, and it is the rate that was weighed.
pub proof fn law_weighing_keeps_the_rate(rate: Number, within: bool)
    ensures
        weighed(rate, within) matches Val::Number(n) ==> within && n == rate,
        weighed(rate, within) is Number || weighed(rate, within) == Val::Error(ErrorKind::Num),
        within ==> weighed(rate, within) is Number,
{
}

} // verus!
