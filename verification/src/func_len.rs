//! `LEN(text)`: the length of a text in UTF-16 code units.

use crate::args::{ready, CallArgs, CallModel};
use crate::model::{EvalContext, ValueModel};
use crate::number::{counted, Number};
use crate::utf16::{encode, utf16};
use crate::value::{Val, Value};
use vstd::prelude::*;

verus! {

/// The result of the call.
pub open spec fn result(m: &ValueModel, call: CallModel) -> Val {
    match m.textual(call.scalar(0)) {
        Err(k) => Val::Error(k),
        Ok(t) => Val::Number(counted(utf16(t).len())),
    }
}

/// Evaluates the call.
pub fn eval<A: CallArgs>(ctx: &EvalContext, args: &A) -> (v: Value)
    requires
        ready(args),
    ensures
        v@ == result(&ctx.model, args.call()),
{
    match ctx.model.to_text(&args.eval_scalar(0)) {
        Err(k) => Value::Error(k),
        Ok(t) => Value::Number(Number::from_count(encode(t.chars()).len() as u128)),
    }
}

/// The law of lengths: a text is as long as its characters need code units, one
/// each, or two for characters past the basic plane.
pub proof fn law_length_by_characters(t: Seq<char>)
    ensures
        utf16(t).len() == t.len() + t.filter(|c: char| c as int >= 0x1_0000).len(),
    decreases t.len(),
{
    reveal(Seq::filter);
    if t.len() > 0 {
        let front = t.drop_last();
        law_length_by_characters(front);
        assert(t == front.push(t.last()));
        crate::utf16::lemma_utf16_push(front, t.last());
        crate::utf16::lemma_units(t.last());
    }
}

/// The law of the result: it is the number of characters of the text, those past the basic
/// plane counted twice; an error is handed on.
pub proof fn law_result_counts_code_units(m: &ValueModel, call: CallModel)
    ensures
        match m.textual(call.scalar(0)) {
            Err(k) => result(m, call) == Val::Error(k),
            Ok(t) => result(m, call) == Val::Number(
                counted(t.len() + t.filter(|c: char| c as int >= 0x1_0000).len()),
            ),
        },
{
    if m.textual(call.scalar(0)) is Ok {
        law_length_by_characters(m.textual(call.scalar(0))->Ok_0);
    }
}

} // verus!
