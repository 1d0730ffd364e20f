//! `HYPERLINK(link_location, [friendly_name])`: what a link shows.
//!
//! The friendly name, where one is given, else the link location, which is
//! written out where it is a number. An error in either is the result; whether a
//! link that shows a blank shows zero is not settled and is refused.

use crate::args::{ready, ArgShape, CallArgs, CallModel};
use crate::model::{EvalContext, ValueModel};
use crate::value::{ErrorKind, Val, Value};
use vstd::prelude::*;

verus! {

/// A friendly name is given.
pub open spec fn named(call: CallModel) -> bool {
    call.args.len() >= 2 && call.arg(1).shape != ArgShape::Omitted
}

/// A value as the link shows it.
pub open spec fn shown(v: Val) -> Val {
    if v is Blank {
        Val::Error(ErrorKind::Unsupported)
    } else {
        v
    }
}

/// The result of the call.
pub open spec fn result(m: &ValueModel, call: CallModel) -> Val {
    let link = call.scalar(0);
    if link is Error {
        link
    } else if named(call) {
        shown(call.scalar(1))
    } else if link is Number {
        match m.textual(link) {
            Ok(t) => Val::Text(t),
            Err(k) => Val::Error(k),
        }
    } else {
        shown(link)
    }
}

/// Evaluates the call.
pub fn eval<A: CallArgs>(ctx: &EvalContext, args: &A) -> (v: Value)
    requires
        ready(args),
    ensures
        v@ == result(&ctx.model, args.call()),
{
    let link = args.eval_scalar(0);
    if let Some(k) = link.error() {
        return Value::Error(k);
    }
    let shows = if args.count() >= 2 && args.shape(1) != ArgShape::Omitted {
        args.eval_scalar(1)
    } else if let Value::Number(_) = &link {
        match ctx.model.to_text(&link) {
            Ok(t) => Value::Text(t),
            Err(k) => Value::Error(k),
        }
    } else {
        link
    };
    if shows.is_blank() {
        return Value::Error(ErrorKind::Unsupported);
    }
    shows
}

/// The law of what is shown: an error for the link is the result; else a friendly name is
/// shown where its slot is not empty, and without one the link, written out where it is a
/// number. A blank is refused.
pub proof fn law_name_is_shown_before_link(m: &ValueModel, call: CallModel)
    ensures
        call.scalar(0) is Error ==> result(m, call) == call.scalar(0),
        !(call.scalar(0) is Error) && call.args.len() >= 2 && call.arg(1).shape != ArgShape::Omitted ==> result(m, call) == (
        if call.scalar(1) is Blank {
            Val::Error(ErrorKind::Unsupported)
        } else {
            call.scalar(1)
        }),
        call.args.len() < 2 || call.arg(1).shape == ArgShape::Omitted ==> match call.scalar(0) {
            Val::Error(_) => true,
            Val::Blank => result(m, call) == Val::Error(ErrorKind::Unsupported),
            Val::Number(_) => match m.textual(call.scalar(0)) {
                Ok(t) => result(m, call) == Val::Text(t),
                Err(k) => result(m, call) == Val::Error(k),
            },
            v => result(m, call) == v,
        },
{
}

} // verus!
