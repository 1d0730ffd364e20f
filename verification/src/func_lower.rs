//! `LOWER(text)`: a text in lower case.
//!
//! How the case of a character outside of ASCII changes depends on the locale; a text
//! with one that carries case is refused, though it may have no other form. A character
//! without case, such as a symbol or an ideograph, stays as it is.

use crate::args::{ready, CallArgs, CallModel};
use crate::letters::{
    any_cased, ascii_lower, cased, in_lower_case, in_upper_case, is_cased, lemma_case, lowercase, to_lower, uppercase,
};
use crate::model::{EvalContext, ValueModel};
use crate::value::{ErrorKind, Text, Val, Value};
use vstd::prelude::*;

verus! {

/// The text with its ASCII letters in lower case.
pub open spec fn lowered(t: Seq<char>) -> Seq<char> {
    t.map_values(|c: char| ascii_lower(c))
}

/// The result of the call.
pub open spec fn result(m: &ValueModel, call: CallModel) -> Val {
    match m.textual(call.scalar(0)) {
        Err(k) => Val::Error(k),
        Ok(t) => if any_cased(t) {
            Val::Error(ErrorKind::Unsupported)
        } else {
            Val::Text(lowered(t))
        },
    }
}

/// Whether the lower-case form of a character depends on the locale.
pub fn is_unpinned_case(c: char) -> (b: bool)
    ensures
        b == cased(c),
{
    is_cased(c)
}

/// The text with its ASCII letters in lower case.
pub fn lower(t: &Vec<char>) -> (r: Vec<char>)
    ensures
        r@ == lowered(t@),
{
    let mut r: Vec<char> = Vec::new();
    for i in 0..t.len()
        invariant
            r@.len() == i,
            forall|j: int| 0 <= j < i ==> r@[j] == ascii_lower(t@[j]),
    {
        r.push(to_lower(t[i]));
    }
    assert(r@ == lowered(t@));
    r
}

/// Evaluates the call.
pub fn eval<A: CallArgs>(ctx: &EvalContext, args: &A) -> (v: Value)
    requires
        ready(args),
    ensures
        v@ == result(&ctx.model, args.call()),
{
    let t = match ctx.model.to_text(&args.eval_scalar(0)) {
        Ok(t) => t,
        Err(k) => {
            return Value::Error(k);
        },
    };
    let cs = t.chars();
    for i in 0..cs.len()
        invariant
            cs@ == t@,
            ctx.model.textual(args.call().scalar(0)) == Ok::<Seq<char>, ErrorKind>(t@),
            forall|j: int| 0 <= j < i ==> !cased(#[trigger] t@[j]),
    {
        if is_unpinned_case(cs[i]) {
            return Value::Error(ErrorKind::Unsupported);
        }
    }
    Value::Text(Text::from_chars(lower(cs)))
}

/// The law of lower case: lowering twice changes nothing more, it keeps the number of
/// characters and of UTF-16 code units, and it keeps every character that is no ASCII
/// capital.
pub proof fn law_lowering_is_idempotent(t: Seq<char>)
    ensures
        lowered(lowered(t)) == lowered(t),
        lowered(t).len() == t.len(),
        forall|i: int| 0 <= i < t.len() && !('A' <= t[i] <= 'Z') ==> #[trigger] lowered(t)[i] == t[i],
        crate::utf16::utf16(lowered(t)).len() == crate::utf16::utf16(t).len(),
    decreases t.len(),
{
    assert forall|i: int| 0 <= i < t.len() implies lowered(lowered(t))[i] == lowered(t)[i] by {
        lemma_case(t[i]);
    }
    assert(lowered(lowered(t)) == lowered(t));
    if t.len() > 0 {
        let rest = t.drop_first();
        law_lowering_is_idempotent(rest);
        assert(lowered(t).drop_first() == lowered(rest));
        lemma_case(t[0]);
        crate::utf16::lemma_units(t[0]);
        crate::utf16::lemma_units(ascii_lower(t[0]));
    }
}

/// A character outside of ASCII that is in lower or upper case or has another form in
/// either.
pub open spec fn has_case(c: char) -> bool {
    c as int >= 128 && (in_lower_case(c) || in_upper_case(c) || lowercase(c) != seq![c] || uppercase(c) != seq![c])
}

/// The law of the result: a text with a character outside of ASCII that has case is
/// refused; of any other each capital becomes the small letter 32 places on, and each
/// other character stays.
pub proof fn law_only_capitals_change(m: &ValueModel, call: CallModel)
    ensures
        match m.textual(call.scalar(0)) {
            Err(k) => result(m, call) == Val::Error(k),
            Ok(t) => {
                &&& (exists|i: int| 0 <= i < t.len() && has_case(#[trigger] t[i])) ==> result(m, call) == Val::Error(
                    ErrorKind::Unsupported,
                )
                &&& (forall|i: int| 0 <= i < t.len() ==> !has_case(#[trigger] t[i])) ==> (result(m, call) matches Val::Text(r)
                    && r.len() == t.len() && forall|i: int|
                    0 <= i < t.len() ==> (#[trigger] r[i]) as int == t[i] as int + if 'A' <= t[i] <= 'Z' {
                        32int
                    } else {
                        0int
                    })
            },
        },
{
    if m.textual(call.scalar(0)) is Ok {
        let t = m.textual(call.scalar(0))->Ok_0;
        assert forall|i: int| 0 <= i < t.len() implies has_case(#[trigger] t[i]) == cased(t[i]) by {}
        if exists|i: int| 0 <= i < t.len() && has_case(#[trigger] t[i]) {
            let i = choose|i: int| 0 <= i < t.len() && has_case(#[trigger] t[i]);
            assert(cased(t[i]));
        }
    }
}

} // verus!
