//! `LEFT(text, [num_chars])`: the first characters of a text.
//!
//! Characters are counted whole. Without a number it is one; a fraction is cut
//! off, and a negative number is a value error.

use crate::args::{ready, CallArgs, CallModel};
use crate::model::{EvalContext, ValueModel};
use crate::number::{counted, from_whole, lemma_from_whole, one, Number};
use crate::value::{ErrorKind, Text, Val, Value};
use vstd::prelude::*;

verus! {

/// The first `n` characters, or all where there are fewer.
pub open spec fn prefix(t: Seq<char>, n: int) -> Seq<char> {
    if n < t.len() {
        t.take(n)
    } else {
        t
    }
}

/// The result for a text and a number.
pub open spec fn taken(t: Seq<char>, n: Number) -> Val {
    if n.units() < 0 {
        Val::Error(ErrorKind::Value)
    } else {
        Val::Text(prefix(t, n.units() / one()))
    }
}

/// The result of the call.
pub open spec fn result(m: &ValueModel, call: CallModel) -> Val {
    let n = if call.args.len() < 2 {
        Ok(counted(1))
    } else {
        m.numeric(call.scalar(1))
    };
    match (m.textual(call.scalar(0)), n) {
        (Err(k), _) => Val::Error(k),
        (Ok(_), Err(k)) => Val::Error(k),
        (Ok(t), Ok(n)) => taken(t, n),
    }
}

/// The first characters of a text.
pub fn take(t: &Vec<char>, n: Number) -> (v: Value)
    ensures
        v@ == taken(t@, n),
{
    if n.is_negative() {
        return Value::Error(ErrorKind::Value);
    }
    let mut out: Vec<char> = Vec::new();
    let limit = match n.whole_part() {
        Some(k) => if k < t.len() as u128 {
            k as usize
        } else {
            t.len()
        },
        None => t.len(),
    };
    for i in 0..limit
        invariant
            limit <= t@.len(),
            out@ == t@.take(i as int),
    {
        out.push(t[i]);
        assert(t@.take(i + 1) == t@.take(i as int).push(t@[i as int]));
    }
    assert(limit == t@.len() ==> t@.take(limit as int) == t@);
    Value::Text(Text::from_chars(out))
}

/// Evaluates the call.
pub fn eval<A: CallArgs>(ctx: &EvalContext, args: &A) -> (v: Value)
    requires
        ready(args),
    ensures
        v@ == result(&ctx.model, args.call()),
{
    let t = match ctx.model.to_text(&args.eval_scalar(0)) {
        Ok(t) => t,
        Err(k) => {
            return Value::Error(k);
        },
    };
    let n = if args.count() < 2 {
        Number::one()
    } else {
        match ctx.model.to_number(&args.eval_scalar(1)) {
            Ok(n) => n,
            Err(k) => {
                return Value::Error(k);
            },
        }
    };
    take(t.chars(), n)
}

/// The law of prefixes: what is taken starts the text, is as long as asked for
/// or all of the text, and taking fewer of it is taking fewer of the text.
pub proof fn law_prefix(t: Seq<char>, m: int, n: int)
    requires
        0 <= m <= n,
    ensures
        prefix(t, n).is_prefix_of(t),
        prefix(t, n).len() == if n < t.len() {
            n
        } else {
            t.len() as int
        },
        prefix(prefix(t, n), m) == prefix(t, m),
{
    assert(prefix(prefix(t, n), m) == prefix(t, m));
}

/// The law of the first characters: of a text and a number from `k` up to the next whole
/// number, or no number and a `k` of one, the result is a text of the first `k`
/// characters one by one, or of all where there are fewer.
pub proof fn law_takes_the_first_characters(m: &ValueModel, call: CallModel, t: Seq<char>, k: int)
    requires
        m.textual(call.scalar(0)) == Ok::<Seq<char>, ErrorKind>(t),
        k >= 0,
        if call.args.len() < 2 {
            k == 1
        } else {
            m.numeric(call.scalar(1)) matches Ok(n) && from_whole(n.units(), k)
        },
    ensures
        result(m, call) matches Val::Text(r) && r.len() == (if k <= t.len() {
            k
        } else {
            t.len() as int
        }) && forall|i: int| 0 <= i < r.len() ==> #[trigger] r[i] == t[i],
{
    crate::number::lemma_counted_exactly(1);
    crate::number::lemma_whole_ones(1);
    if call.args.len() >= 2 {
        lemma_from_whole(m.numeric(call.scalar(1))->Ok_0.units(), k);
    }
}

/// The law of the errors: that of the text comes first, then that of the number, and a
/// negative number is a value error.
pub proof fn law_errors_come_in_order(m: &ValueModel, call: CallModel)
    ensures
        m.textual(call.scalar(0)) matches Err(k) ==> result(m, call) == Val::Error(k),
        m.textual(call.scalar(0)) is Ok && call.args.len() >= 2 ==> match m.numeric(call.scalar(1)) {
            Err(k) => result(m, call) == Val::Error(k),
            Ok(n) => n.units() < 0 ==> result(m, call) == Val::Error(ErrorKind::Value),
        },
{
}

} // verus!
