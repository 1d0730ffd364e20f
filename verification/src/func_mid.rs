//! `MID(text, start_num, num_chars)`: characters from the middle of a text.
//!
//! Positions and lengths count UTF-16 code units, positions from one. Fractions
//! are cut off; a start below one and a negative length are value errors. Past
//! the end there is nothing, and what would reach past it is cut short. A part
//! that would hold half of a pair is refused, as no text can hold it.

use crate::args::{ready, CallArgs, CallModel};
use crate::model::{EvalContext, ValueModel};
use crate::number::{counted, from_whole, lemma_from_whole, one, Number};
use crate::utf16::{decoded, encode, slice, utf16};
use crate::value::{ErrorKind, Text, Val, Value};
use vstd::prelude::*;

verus! {

/// The part of a text of `n` code units from position `start` on, counted from zero.
pub open spec fn part(t: Seq<char>, start: int, n: int) -> Val {
    let units = utf16(t);
    if start >= units.len() {
        Val::Text(Seq::empty())
    } else {
        let end = if start + n < units.len() {
            start + n
        } else {
            units.len() as int
        };
        match decoded(units.subrange(start, end)) {
            Some(s) => Val::Text(s),
            None => Val::Error(ErrorKind::Unsupported),
        }
    }
}

/// The result of the call.
pub open spec fn result(m: &ValueModel, call: CallModel) -> Val {
    match (m.textual(call.scalar(0)), m.numeric(call.scalar(1))) {
        (Err(k), _) => Val::Error(k),
        (Ok(_), Err(k)) => Val::Error(k),
        (Ok(t), Ok(start)) => if start.units() < one() {
            Val::Error(ErrorKind::Value)
        } else {
            match m.numeric(call.scalar(2)) {
                Err(k) => Val::Error(k),
                Ok(n) => if n.units() < 0 {
                    Val::Error(ErrorKind::Value)
                } else {
                    part(t, start.units() / one() - 1, n.units() / one())
                },
            }
        },
    }
}

/// The part of a text that a start of at least one and a length ask for.
pub fn cut(t: &Vec<char>, start: Number, n: Number) -> (v: Value)
    requires
        start.units() >= one(),
        n.units() >= 0,
    ensures
        v@ == part(t@, start.units() / one() - 1, n.units() / one()),
{
    let units = encode(t);
    proof {
        crate::number::lemma_one_or_more(start);
        crate::number::lemma_zero_or_more(n);
    }
    let from = match start.position(units.len()) {
        Some(p) => p - 1,
        None => {
            let none = Text::from_chars(Vec::new());
            assert(none@ == Seq::<char>::empty());
            return Value::Text(none);
        },
    };
    let room = units.len() - from;
    let length = match n.whole_part() {
        Some(k) => if k < room as u128 {
            k as usize
        } else {
            room
        },
        None => room,
    };
    match slice(t, from, from + length) {
        Some(s) => Value::Text(Text::from_chars(s)),
        None => Value::Error(ErrorKind::Unsupported),
    }
}

/// Evaluates the call.
pub fn eval<A: CallArgs>(ctx: &EvalContext, args: &A) -> (v: Value)
    requires
        ready(args),
    ensures
        v@ == result(&ctx.model, args.call()),
{
    let t = match ctx.model.to_text(&args.eval_scalar(0)) {
        Ok(t) => t,
        Err(k) => {
            return Value::Error(k);
        },
    };
    let start = match ctx.model.to_number(&args.eval_scalar(1)) {
        Ok(n) => n,
        Err(k) => {
            return Value::Error(k);
        },
    };
    if start.lt(Number::one()) {
        return Value::Error(ErrorKind::Value);
    }
    let n = match ctx.model.to_number(&args.eval_scalar(2)) {
        Ok(n) => n,
        Err(k) => {
            return Value::Error(k);
        },
    };
    if n.is_negative() {
        return Value::Error(ErrorKind::Value);
    }
    cut(t.chars(), start, n)
}

/// The law of the whole: from the start on, as many code units as the text has
/// or more, the part is the text.
pub proof fn law_whole_text(t: Seq<char>, n: int)
    requires
        n >= utf16(t).len(),
    ensures
        part(t, 0, n) == Val::Text(t),
{
    if utf16(t).len() == 0 {
        if t.len() > 0 {
            crate::utf16::lemma_ends(t);
        }
        assert(t == Seq::<char>::empty());
    } else {
        assert(utf16(t).subrange(0, utf16(t).len() as int) == utf16(t));
        crate::utf16::law_decoding_undoes_encoding(t);
    }
}

/// The law of finding and cutting out: where `FIND` gives a position, `MID` of the
/// text from that position on, as many code units as `LEN` gives of what was sought,
/// is what was sought. Characters past the basic plane, which take two code units, are
/// no exception. The text is of a length that doubles count exactly.
pub proof fn law_cuts_out_what_was_found(
    m: &ValueModel,
    find: CallModel,
    mid: CallModel,
    sought: Seq<char>,
    within: Seq<char>,
    p: Number,
)
    requires
        m.textual(find.scalar(0)) == Ok::<Seq<char>, ErrorKind>(sought),
        m.textual(find.scalar(1)) == Ok::<Seq<char>, ErrorKind>(within),
        crate::func_find::result(m, find) == Val::Number(p),
        m.textual(mid.scalar(0)) == Ok::<Seq<char>, ErrorKind>(within),
        m.numeric(mid.scalar(1)) == Ok::<Number, ErrorKind>(p),
        m.numeric(mid.scalar(2)) == Ok::<Number, ErrorKind>(counted(utf16(sought).len())),
        utf16(within).len() < 0x20_0000_0000_0000,
    ensures
        result(m, mid) == Val::Text(sought),
{
    let (w, f) = (utf16(within), utf16(sought));
    let start = if find.args.len() > 2 {
        m.numeric(find.scalar(2))->Ok_0
    } else {
        counted(1)
    };
    crate::number::lemma_counted_exactly(1);
    crate::number::lemma_one_or_more(start);
    let from = start.units() / one() - 1;
    crate::func_find::law_first_occurrence(w, f, from);
    let i = crate::func_find::first_at(w, f, from)->0;
    crate::number::lemma_counted_exactly((i + 1) as nat);
    crate::number::lemma_counted_exactly(f.len());
    vstd::arithmetic::power2::lemma_pow2_pos(1074);
    vstd::arithmetic::div_mod::lemma_div_by_multiple(i + 1, one());
    vstd::arithmetic::div_mod::lemma_div_by_multiple(f.len() as int, one());
    let n = f.len() as int;
    assert((i + 1) * one() >= one() && n * one() >= 0) by (nonlinear_arith)
        requires
            i >= 0,
            n >= 0,
            one() > 0,
    ;
    crate::utf16::law_decoding_undoes_encoding(sought);
    if i >= w.len() {
        if sought.len() > 0 {
            crate::utf16::lemma_ends(sought);
        }
        assert(sought == Seq::<char>::empty());
    }
}

/// The law of the basic plane: in a text all of whose characters take one code unit,
/// the part from the start on is what `LEFT` takes.
pub proof fn law_agrees_with_left_on_the_basic_plane(t: Seq<char>, n: int)
    requires
        n >= 0,
        forall|i: int| 0 <= i < t.len() ==> ((#[trigger] t[i]) as int) < 0x1_0000,
    ensures
        part(t, 0, n) == Val::Text(crate::func_left::prefix(t, n)),
{
    lemma_basic_plane(t);
    if n >= t.len() {
        law_whole_text(t, n);
    } else {
        let (head, tail) = (t.take(n), t.skip(n));
        assert(t == head + tail);
        crate::utf16::lemma_utf16_adds(head, tail);
        lemma_basic_plane(head);
        assert(utf16(t).subrange(0, n) == utf16(head));
        crate::utf16::law_decoding_undoes_encoding(head);
    }
}

proof fn lemma_basic_plane(t: Seq<char>)
    requires
        forall|i: int| 0 <= i < t.len() ==> ((#[trigger] t[i]) as int) < 0x1_0000,
    ensures
        utf16(t).len() == t.len(),
    decreases t.len(),
{
    if t.len() > 0 {
        crate::utf16::lemma_units(t[0]);
        assert forall|i: int| 0 <= i < t.drop_first().len() implies ((#[trigger] t.drop_first()[i]) as int)
            < 0x1_0000 by {
            assert(t.drop_first()[i] == t[i + 1]);
        }
        lemma_basic_plane(t.drop_first());
    }
}

/// The law of the part: from position `p` on, counted from one, the code units of the
/// result are those of the text one by one, `n` of them or as many as there are; there is
/// a result for every part that some text is encoded as, and past the end it is empty.
pub proof fn law_part_is_cut_out(m: &ValueModel, call: CallModel, t: Seq<char>, p: int, n: int, r: Seq<char>)
    requires
        m.textual(call.scalar(0)) == Ok::<Seq<char>, ErrorKind>(t),
        m.numeric(call.scalar(1)) matches Ok(x) && from_whole(x.units(), p),
        m.numeric(call.scalar(2)) matches Ok(x) && from_whole(x.units(), n),
        p >= 1,
        n >= 0,
    ensures
        p > utf16(t).len() ==> (result(m, call) matches Val::Text(s) && s.len() == 0),
        p <= utf16(t).len() && utf16(r).len() == (if p - 1 + n <= utf16(t).len() {
            n
        } else {
            utf16(t).len() - p + 1
        }) && (forall|i: int| 0 <= i < utf16(r).len() ==> #[trigger] utf16(r)[i] == utf16(t)[p - 1 + i]) ==> result(m, call)
            == Val::Text(r),
        result(m, call) is Text || result(m, call) == Val::Error(ErrorKind::Unsupported),
        result(m, call) matches Val::Text(s) ==> utf16(s).len() <= n && forall|i: int|
            0 <= i < utf16(s).len() ==> #[trigger] utf16(s)[i] == utf16(t)[p - 1 + i],
{
    lemma_from_whole(m.numeric(call.scalar(1))->Ok_0.units(), p);
    lemma_from_whole(m.numeric(call.scalar(2))->Ok_0.units(), n);
    let units = utf16(t);
    let start = p - 1;
    if start < units.len() {
        let end = if start + n < units.len() {
            start + n
        } else {
            units.len() as int
        };
        let cut = units.subrange(start, end);
        if utf16(r).len() == end - start && (forall|i: int|
            0 <= i < utf16(r).len() ==> #[trigger] utf16(r)[i] == units[start + i]) {
            assert(utf16(r) =~= cut);
            crate::utf16::law_decoding_undoes_encoding(r);
        }
        if decoded(cut) is Some {
            let s = decoded(cut)->0;
            assert(utf16(s) == cut);
            assert forall|i: int| 0 <= i < utf16(s).len() implies #[trigger] utf16(s)[i] == units[p - 1 + i] by {}
        }
    } else {
        assert(utf16(Seq::<char>::empty()).len() == 0);
    }
}

/// The law of the errors: that of the text comes first, then that of the start, which below
/// one is a value error, then that of the length, which is one where it is negative.
pub proof fn law_errors_come_in_order(m: &ValueModel, call: CallModel)
    ensures
        m.textual(call.scalar(0)) matches Err(k) ==> result(m, call) == Val::Error(k),
        m.textual(call.scalar(0)) is Ok ==> match m.numeric(call.scalar(1)) {
            Err(k) => result(m, call) == Val::Error(k),
            Ok(s) => if s.units() < one() {
                result(m, call) == Val::Error(ErrorKind::Value)
            } else {
                match m.numeric(call.scalar(2)) {
                    Err(k) => result(m, call) == Val::Error(k),
                    Ok(n) => n.units() < 0 ==> result(m, call) == Val::Error(ErrorKind::Value),
                }
            },
        },
{
}

} // verus!
