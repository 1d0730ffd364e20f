//! `PROPER(text)`: a text with the first letter of each word in upper case and
//! every other letter in lower case.
//!
//! A word starts at a letter that no letter stands before. The case of letters
//! outside of ASCII depends on the locale; a text with one, or with a character
//! that has another lower-case form, is refused.

use crate::args::{ready, CallArgs, CallModel};
use crate::letters::{
    any_unpinned, ascii_letter, ascii_lower, ascii_upper, has_unsettled_case, is_ascii_letter, lemma_case,
    to_lower, to_upper, unpinned,
};
use crate::model::{EvalContext, ValueModel};
use crate::value::{ErrorKind, Text, Val, Value};
use vstd::prelude::*;

verus! {

/// The character at position `i` as the function writes it.
pub open spec fn proper_char(t: Seq<char>, i: int) -> char {
    if !ascii_letter(t[i]) {
        t[i]
    } else if i > 0 && ascii_letter(t[i - 1]) {
        ascii_lower(t[i])
    } else {
        ascii_upper(t[i])
    }
}

/// The text with its words capitalised.
pub open spec fn capitalised(t: Seq<char>) -> Seq<char> {
    Seq::new(t.len(), |i: int| proper_char(t, i))
}

/// The result of the call.
pub open spec fn result(m: &ValueModel, call: CallModel) -> Val {
    match m.textual(call.scalar(0)) {
        Err(k) => Val::Error(k),
        Ok(t) => if any_unpinned(t) {
            Val::Error(ErrorKind::Unsupported)
        } else {
            Val::Text(capitalised(t))
        },
    }
}

/// Whether the case of a character is not settled.
pub fn is_unpinned(c: char) -> (b: bool)
    ensures
        b == unpinned(c),
{
    has_unsettled_case(c)
}

/// The text with its words capitalised.
pub fn capitalise(t: &Vec<char>) -> (r: Vec<char>)
    ensures
        r@ == capitalised(t@),
{
    let mut r: Vec<char> = Vec::new();
    let mut after_letter = false;
    for i in 0..t.len()
        invariant
            r@.len() == i,
            after_letter == (i > 0 && ascii_letter(t@[i - 1])),
            forall|j: int| 0 <= j < i ==> r@[j] == proper_char(t@, j),
    {
        let letter = is_ascii_letter(t[i]);
        if !letter {
            r.push(t[i]);
        } else if after_letter {
            r.push(to_lower(t[i]));
        } else {
            r.push(to_upper(t[i]));
        }
        after_letter = letter;
    }
    assert(r@ == capitalised(t@));
    r
}

/// Evaluates the call.
pub fn eval<A: CallArgs>(ctx: &EvalContext, args: &A) -> (v: Value)
    requires
        ready(args),
    ensures
        v@ == result(&ctx.model, args.call()),
{
    let t = match ctx.model.to_text(&args.eval_scalar(0)) {
        Ok(t) => t,
        Err(k) => {
            return Value::Error(k);
        },
    };
    let cs = t.chars();
    for i in 0..cs.len()
        invariant
            cs@ == t@,
            ctx.model.textual(args.call().scalar(0)) == Ok::<Seq<char>, ErrorKind>(t@),
            forall|j: int| 0 <= j < i ==> !unpinned(#[trigger] t@[j]),
    {
        if is_unpinned(cs[i]) {
            return Value::Error(ErrorKind::Unsupported);
        }
    }
    Value::Text(Text::from_chars(capitalise(cs)))
}

/// The law of capitals: doing it twice changes nothing more, only the case of
/// letters changes, and a text is capitalised alike whatever its case.
pub proof fn law_capitals(t: Seq<char>)
    ensures
        capitalised(capitalised(t)) == capitalised(t),
        crate::func_lower::lowered(capitalised(t)) == crate::func_lower::lowered(t),
        capitalised(crate::func_lower::lowered(t)) == capitalised(t),
{
    let p = capitalised(t);
    let l = crate::func_lower::lowered(t);
    assert forall|i: int| 0 <= i < t.len() implies capitalised(p)[i] == p[i]
        && crate::func_lower::lowered(p)[i] == l[i] && capitalised(l)[i] == p[i] by {
        lemma_case(t[i]);
        lemma_case(ascii_lower(t[i]));
        if i > 0 {
            lemma_case(t[i - 1]);
        }
    }
    assert(capitalised(p) == p);
    assert(crate::func_lower::lowered(p) == l);
    assert(capitalised(l) == p);
}

/// A small or a capital letter of ASCII.
pub open spec fn is_letter(c: char) -> bool {
    'A' <= c <= 'Z' || 'a' <= c <= 'z'
}

/// A character outside of ASCII that is a letter, or whose lower-case form does not start
/// with it.
pub open spec fn is_open(c: char) -> bool {
    c as int >= 128 && (crate::letters::alphabetic(c) || crate::letters::lowercase(c).len() == 0
        || crate::letters::lowercase(c)[0] != c)
}

/// The law of the result: a text with a letter outside of ASCII is refused; of any other a
/// letter becomes the capital where no letter stands before it, else the small letter, 32
/// places on from the capital, and each other character stays.
pub proof fn law_words_start_with_capitals(m: &ValueModel, call: CallModel)
    ensures
        match m.textual(call.scalar(0)) {
            Err(k) => result(m, call) == Val::Error(k),
            Ok(t) => {
                &&& (exists|i: int| 0 <= i < t.len() && is_open(#[trigger] t[i])) ==> result(m, call) == Val::Error(
                    ErrorKind::Unsupported,
                )
                &&& (forall|i: int| 0 <= i < t.len() ==> !is_open(#[trigger] t[i])) ==> (result(m, call) matches Val::Text(r)
                    && r.len() == t.len() && forall|i: int|
                    0 <= i < t.len() ==> if !is_letter(t[i]) {
                        #[trigger] r[i] == t[i]
                    } else if i > 0 && is_letter(t[i - 1]) {
                        'a' <= r[i] <= 'z' && (r[i] == t[i] || r[i] as int == t[i] as int + 32)
                    } else {
                        'A' <= r[i] <= 'Z' && (r[i] == t[i] || r[i] as int == t[i] as int - 32)
                    })
            },
        },
{
    if m.textual(call.scalar(0)) is Ok {
        let t = m.textual(call.scalar(0))->Ok_0;
        if exists|i: int| 0 <= i < t.len() && is_open(#[trigger] t[i]) {
            let i = choose|i: int| 0 <= i < t.len() && is_open(#[trigger] t[i]);
            assert(crate::letters::unpinned(t[i]));
        }
        if forall|i: int| 0 <= i < t.len() ==> !is_open(#[trigger] t[i]) {
            assert forall|i: int| 0 <= i < t.len() implies !crate::letters::unpinned(#[trigger] t[i]) by {
                assert(!is_open(t[i]));
            }
            let r = capitalised(t);
            assert forall|i: int| 0 <= i < t.len() implies if !is_letter(t[i]) {
                #[trigger] r[i] == t[i]
            } else if i > 0 && is_letter(t[i - 1]) {
                'a' <= r[i] <= 'z' && (r[i] == t[i] || r[i] as int == t[i] as int + 32)
            } else {
                'A' <= r[i] <= 'Z' && (r[i] == t[i] || r[i] as int == t[i] as int - 32)
            } by {
                assert(r[i] == proper_char(t, i));
            }
        }
    }
}

} // verus!
