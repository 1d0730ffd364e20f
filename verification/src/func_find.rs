//! `FIND(find_text, within_text, [start_num])`: the position of a text in another.
//!
//! Positions count UTF-16 code units from one, and case matters. The search
//! begins at `start_num`, without its fraction; a start below one, and a text that
//! is not found from there on, are value errors. The empty text is found at the
//! start, up to just past the end.

use crate::args::{ready, CallArgs, CallModel};
use crate::model::{EvalContext, ValueModel};
use crate::number::{counted, from_whole, lemma_from_whole, one, Number};
use crate::utf16::{decoded, encode, utf16};
use crate::value::{ErrorKind, Val, Value};
use vstd::prelude::*;

verus! {

/// The units `f` stand in `w` at position `i`, counted from zero.
pub open spec fn occurs(w: Seq<u16>, f: Seq<u16>, i: int) -> bool {
    0 <= i && i + f.len() <= w.len() && w.subrange(i, i + f.len()) == f
}

/// The first position from `from` on at which `f` stands in `w`.
pub open spec fn first_at(w: Seq<u16>, f: Seq<u16>, from: int) -> Option<int>
    decreases w.len() + 1 - from,
{
    if from > w.len() {
        None
    } else if occurs(w, f, from) {
        Some(from)
    } else {
        first_at(w, f, from + 1)
    }
}

/// The result of a search in texts from the number `start` on.
pub open spec fn found(find: Seq<char>, within: Seq<char>, start: Number) -> Val {
    if start.units() < one() {
        Val::Error(ErrorKind::Value)
    } else {
        match first_at(utf16(within), utf16(find), start.units() / one() - 1) {
            Some(i) => Val::Number(counted((i + 1) as nat)),
            None => Val::Error(ErrorKind::Value),
        }
    }
}

/// The result of the call.
pub open spec fn result(m: &ValueModel, call: CallModel) -> Val {
    let start = if call.args.len() > 2 {
        m.numeric(call.scalar(2))
    } else {
        Ok(counted(1))
    };
    match (m.textual(call.scalar(0)), m.textual(call.scalar(1)), start) {
        (Err(k), _, _) => Val::Error(k),
        (Ok(_), Err(k), _) => Val::Error(k),
        (Ok(_), Ok(_), Err(k)) => Val::Error(k),
        (Ok(f), Ok(w), Ok(s)) => found(f, w, s),
    }
}

fn stands_at(w: &Vec<u16>, f: &Vec<u16>, i: usize) -> (b: bool)
    requires
        i + f@.len() <= w@.len(),
    ensures
        b == occurs(w@, f@, i as int),
{
    let ghost part = w@.subrange(i as int, i + f@.len());
    let n = w.len();
    for j in 0..f.len()
        invariant
            i + f@.len() <= n == w@.len(),
            part == w@.subrange(i as int, i + f@.len()),
            forall|k: int| 0 <= k < j ==> part[k] == f@[k],
    {
        if w[i + j] != f[j] {
            assert(part[j as int] != f@[j as int]);
            return false;
        }
    }
    assert(part == f@);
    true
}

/// Past the last place that has room for it, a text is not found.
proof fn lemma_no_room(w: Seq<u16>, f: Seq<u16>, from: int)
    requires
        0 <= from,
        from + f.len() > w.len(),
    ensures
        first_at(w, f, from) is None,
    decreases w.len() + 1 - from,
{
    if from <= w.len() {
        lemma_no_room(w, f, from + 1);
    }
}

/// Searches `find` in `within` from the number `start` on.
pub fn search(find: &Vec<char>, within: &Vec<char>, start: Number) -> (v: Value)
    ensures
        v@ == found(find@, within@, start),
{
    if start.lt(Number::one()) {
        return Value::Error(ErrorKind::Value);
    }
    let f = encode(find);
    let w = encode(within);
    proof {
        crate::number::lemma_one_or_more(start);
    }
    let length = w.len() as u128;
    let first = match start.whole_part() {
        Some(p) => p - 1,
        None => {
            return Value::Error(ErrorKind::Value);
        },
    };
    if first > length {
        return Value::Error(ErrorKind::Value);
    }
    let mut i: usize = first as usize;
    while f.len() <= w.len() - i
        invariant
            first <= i <= w@.len(),
            w@ == utf16(within@),
            f@ == utf16(find@),
            found(find@, within@, start) == match first_at(w@, f@, i as int) {
                Some(i) => Val::Number(counted((i + 1) as nat)),
                None => Val::Error(ErrorKind::Value),
            },
        decreases w@.len() - i,
    {
        if stands_at(&w, &f, i) {
            return Value::Number(Number::from_count(i as u128 + 1));
        }
        if i == w.len() {
            assert(w@.subrange(i as int, i + f@.len()) == f@);
        }
        i = i + 1;
    }
    proof {
        lemma_no_room(w@, f@, i as int);
    }
    Value::Error(ErrorKind::Value)
}

/// Evaluates the call.
pub fn eval<A: CallArgs>(ctx: &EvalContext, args: &A) -> (v: Value)
    requires
        ready(args),
    ensures
        v@ == result(&ctx.model, args.call()),
{
    let find = match ctx.model.to_text(&args.eval_scalar(0)) {
        Ok(t) => t,
        Err(k) => {
            return Value::Error(k);
        },
    };
    let within = match ctx.model.to_text(&args.eval_scalar(1)) {
        Ok(t) => t,
        Err(k) => {
            return Value::Error(k);
        },
    };
    let start = if args.count() > 2 {
        match ctx.model.to_number(&args.eval_scalar(2)) {
            Ok(n) => n,
            Err(k) => {
                return Value::Error(k);
            },
        }
    } else {
        Number::one()
    };
    search(find.chars(), within.chars(), start)
}

/// The law of the first occurrence: the position found is one at which the text
/// stands, it does not come before the start, and the text stands at none between
/// the start and it; nothing is found only where the text stands nowhere from the
/// start on.
pub proof fn law_first_occurrence(w: Seq<u16>, f: Seq<u16>, from: int)
    requires
        0 <= from,
    ensures
        match first_at(w, f, from) {
            Some(i) => from <= i && occurs(w, f, i) && forall|j: int|
                from <= j < i ==> !#[trigger] occurs(w, f, j),
            None => forall|j: int| from <= j ==> !#[trigger] occurs(w, f, j),
        },
    decreases w.len() + 1 - from,
{
    if from <= w.len() && !occurs(w, f, from) {
        law_first_occurrence(w, f, from + 1);
    }
}

/// The law of finding and cutting out: the part of the text at the position
/// found, as long as what was searched for, is what was searched for.
pub proof fn law_found_part_is_sought(find: Seq<char>, within: Seq<char>, from: int)
    requires
        0 <= from,
    ensures
        first_at(utf16(within), utf16(find), from) matches Some(i) ==> decoded(
            utf16(within).subrange(i, i + utf16(find).len()),
        ) == Some(find),
{
    law_first_occurrence(utf16(within), utf16(find), from);
    crate::utf16::law_decoding_undoes_encoding(find);
}

/// The units `f` stand in `w` from position `i` on, counted from zero, one by one.
pub open spec fn stand_at(w: Seq<u16>, f: Seq<u16>, i: int) -> bool {
    0 <= i && i + f.len() <= w.len() && forall|j: int| 0 <= j < f.len() ==> w[i + j] == #[trigger] f[j]
}

/// The number from which a call searches, or one where it gives none.
pub open spec fn starts_from(m: &ValueModel, call: CallModel, k: int) -> bool {
    if call.args.len() > 2 {
        m.numeric(call.scalar(2)) matches Ok(n) && from_whole(n.units(), k)
    } else {
        k == 1
    }
}

/// The law of the result: from a start of `k` of at least one, it is the first position,
/// counted in code units from one and not before the start, from which the first text
/// stands in the second; where there is none, it is a value error.
pub proof fn law_result_is_the_first_position(
    m: &ValueModel,
    call: CallModel,
    find: Seq<char>,
    within: Seq<char>,
    k: int,
    p: int,
)
    requires
        m.textual(call.scalar(0)) == Ok::<Seq<char>, ErrorKind>(find),
        m.textual(call.scalar(1)) == Ok::<Seq<char>, ErrorKind>(within),
        starts_from(m, call, k),
        k >= 1,
    ensures
        k <= p && stand_at(utf16(within), utf16(find), p - 1) && (forall|q: int|
            k <= q < p ==> !stand_at(utf16(within), utf16(find), #[trigger] place_before(q))) ==> result(m, call)
            == Val::Number(counted(p as nat)),
        (forall|q: int| k <= q ==> !stand_at(utf16(within), utf16(find), #[trigger] place_before(q))) ==> result(m, call)
            == Val::Error(ErrorKind::Value),
{
    let w = utf16(within);
    let f = utf16(find);
    crate::number::lemma_counted_exactly(1);
    crate::number::lemma_whole_ones(1);
    if call.args.len() > 2 {
        lemma_from_whole(m.numeric(call.scalar(2))->Ok_0.units(), k);
    }
    law_first_occurrence(w, f, k - 1);
    assert forall|i: int| #[trigger] occurs(w, f, i) == stand_at(w, f, i) by {
        if 0 <= i && i + f.len() <= w.len() {
            if stand_at(w, f, i) {
                assert forall|j: int| 0 <= j < f.len() implies w.subrange(i, i + f.len())[j] == f[j] by {
                    assert(w[i + j] == f[j]);
                }
                assert(w.subrange(i, i + f.len()) =~= f);
            }
            if occurs(w, f, i) {
                assert forall|j: int| 0 <= j < f.len() implies w[i + j] == #[trigger] f[j] by {
                    assert(w.subrange(i, i + f.len())[j] == w[i + j]);
                }
            }
        }
    }
    match first_at(w, f, k - 1) {
        Some(i) => {
            assert(occurs(w, f, i));
            assert(place_before(i + 1) == i);
            if k <= p && stand_at(w, f, p - 1) {
                assert(occurs(w, f, p - 1));
                assert(place_before(p) == p - 1);
            }
        },
        None => {
            if k <= p && stand_at(w, f, p - 1) {
                assert(occurs(w, f, p - 1));
            }
        },
    }
}

/// The position before another.
pub open spec fn place_before(q: int) -> int {
    q - 1
}

/// The law of the errors: that of the first text comes first, then that of the second, then
/// that of the start; a start below one is a value error.
pub proof fn law_errors_come_in_order(m: &ValueModel, call: CallModel)
    ensures
        m.textual(call.scalar(0)) matches Err(k) ==> result(m, call) == Val::Error(k),
        m.textual(call.scalar(0)) is Ok ==> (m.textual(call.scalar(1)) matches Err(k) ==> result(m, call) == Val::Error(k)),
        m.textual(call.scalar(0)) is Ok && m.textual(call.scalar(1)) is Ok && call.args.len() > 2 ==> match m.numeric(
            call.scalar(2),
        ) {
            Err(k) => result(m, call) == Val::Error(k),
            Ok(n) => n.units() < one() ==> result(m, call) == Val::Error(ErrorKind::Value),
        },
{
}

} // verus!
