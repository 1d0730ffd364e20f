//! Evaluation of spreadsheet functions, with contracts.
//!
//! Each function has a module of its own. Its `eval` takes what the function knows of
//! the sheet around it, an [`EvalContext`], and the arguments of the call, a
//! [`CallArgs`], and hands back a [`Value`]. Where the result takes floating-point
//! arithmetic, `terms` takes the same and hands back the error that the call results
//! in, or what the host is to compute with.
//!
//! Numbers are the bit patterns of finite doubles, read exactly as integers
//! ([`number`]). Which texts read as numbers, how numbers are written out and how
//! values compare are facts that the host states in a [`ValueModel`].

pub mod aggregate;
pub mod args;
pub mod calendar;
pub mod conditional;
pub mod func_find;
pub mod func_floor;
pub mod func_fv;
pub mod func_hlookup;
pub mod func_hour;
pub mod func_hstack;
pub mod func_hyperlink;
pub mod func_if;
pub mod func_iferror;
pub mod func_ifna;
pub mod func_ifs;
pub mod func_index;
pub mod func_int;
pub mod func_ipmt;
pub mod func_irr;
pub mod func_isblank;
pub mod func_iserr;
pub mod func_iserror;
pub mod func_isna;
pub mod func_isnumber;
pub mod func_istext;
pub mod func_large;
pub mod func_left;
pub mod func_len;
pub mod func_ln;
pub mod func_log;
pub mod func_lookup;
pub mod func_lower;
pub mod func_match;
pub mod func_max;
pub mod func_maxa;
pub mod func_maxifs;
pub mod func_median;
pub mod func_mid;
pub mod func_min;
pub mod func_mina;
pub mod func_minifs;
pub mod func_mod;
pub mod func_month;
pub mod func_na;
pub mod func_networkdays;
pub mod func_normdist;
pub mod func_norminv;
pub mod func_normsinv;
pub mod func_not;
pub mod func_npv;
pub mod func_or;
pub mod func_pi;
pub mod func_pmt;
pub mod func_power;
pub mod func_ppmt;
pub mod func_product;
pub mod func_proper;
pub mod func_pv;
pub mod func_quotient;
pub mod func_randarray;
pub mod func_rank;
pub mod grid;
pub mod letters;
pub mod model;
pub mod number;
pub mod operands;
pub mod order;
pub mod search;
pub mod utf16;
pub mod value;

pub use crate::args::{Arg, ArgShape, Call, CallArgs, EffShape, RefRect};
pub use crate::model::{Criterion, DateSystem, EvalContext, Relation, Ruling, Standing, ValueModel};
pub use crate::number::Number;
pub use crate::value::{Array, ErrorKind, Text, Value};
