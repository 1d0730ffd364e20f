//! The searches behind the lookup functions: a scan for an equal entry and
//! bisections for the nearest entry of a sorted vector.
//!
//! A bisection probes the middle of what is left and so has an answer on
//! unsorted vectors too; [`bisect`] and [`settle`] state which. On sorted
//! vectors the answers are the documented ones, which the proof functions of
//! this module show.

use crate::model::{Standing, ValueModel};
use crate::value::{views, ErrorKind, Val, Value};
use vstd::prelude::*;

verus! {

/// What a scan for an equal entry makes of an entry.
#[derive(Clone, Copy, Debug, PartialEq, Eq, Structural)]
pub enum LookupEq {
    Match,
    NoMatch,
    /// Whether the two count as equal is not settled.
    Defer,
}

/// The values that a blank is like: zero, the empty text and the logical false.
pub open spec fn blank_like(v: Val) -> bool {
    match v {
        Val::Number(n) => n.units() == 0,
        Val::Text(t) => t.len() == 0,
        Val::Bool(b) => !b,
        _ => false,
    }
}

/// A number, a text or a logical value.
pub open spec fn plain(v: Val) -> bool {
    v is Number || v is Text || v is Bool
}

/// Whether `cell` counts as equal to `key` in a scan. A blank key matches a zero
/// and no blank; whether it matches the empty text or the logical false is not
/// settled, nor whether a blank cell matches a key that a blank is like.
pub open spec fn lookup_eq(m: &ValueModel, cell: Val, key: Val) -> Result<LookupEq, ErrorKind> {
    if key is Blank && (cell is Blank || plain(cell)) {
        if !blank_like(cell) {
            Ok(LookupEq::NoMatch)
        } else if cell is Number {
            Ok(LookupEq::Match)
        } else {
            Ok(LookupEq::Defer)
        }
    } else if cell is Blank && plain(key) {
        if blank_like(key) {
            Ok(LookupEq::Defer)
        } else {
            Ok(LookupEq::NoMatch)
        }
    } else {
        match m.equality(cell, key) {
            Ok(true) => Ok(LookupEq::Match),
            Ok(false) => Ok(LookupEq::NoMatch),
            Err(k) => Err(k),
        }
    }
}

/// The position of the first match among the entries from position `from` on.
/// An entry that is not settled, or fails, before it ends the scan.
pub open spec fn first_match(
    entries: Seq<Result<LookupEq, ErrorKind>>,
    from: int,
) -> Result<Option<int>, ErrorKind>
    decreases entries.len() - from,
{
    if from >= entries.len() {
        Ok(None)
    } else {
        match entries[from] {
            Ok(LookupEq::Match) => Ok(Some(from)),
            Ok(LookupEq::NoMatch) => first_match(entries, from + 1),
            Ok(LookupEq::Defer) => Err(ErrorKind::Unsupported),
            Err(k) => Err(k),
        }
    }
}

/// A scan looks at position `i`: every entry before it is known not to match.
pub open spec fn scanned(entries: Seq<Result<LookupEq, ErrorKind>>, i: int) -> bool {
    0 <= i < entries.len() && forall|j: int|
        0 <= j < i ==> #[trigger] entries[j] == Ok::<LookupEq, ErrorKind>(LookupEq::NoMatch)
}

/// A text with a wildcard character.
pub open spec fn has_wildcard(v: Val) -> bool {
    v matches Val::Text(t) && (t.contains('*') || t.contains('?'))
}

/// The outcome of a scan of `cells` for `key`. Wildcards are refused.
pub open spec fn exact_result(m: &ValueModel, cells: Seq<Val>, key: Val) -> Result<
    Option<int>,
    ErrorKind,
> {
    if has_wildcard(key) {
        Err(ErrorKind::Unsupported)
    } else {
        first_match(cells.map_values(|c: Val| lookup_eq(m, c, key)), 0)
    }
}

/// Whether an entry of an ascending vector is at or below the key. Blanks are
/// not ordered.
pub open spec fn at_or_below(m: &ValueModel, cell: Val, key: Val) -> Result<bool, ErrorKind> {
    if cell is Blank || key is Blank {
        Err(ErrorKind::Unsupported)
    } else {
        match m.order(cell, key) {
            Ok(s) => Ok(s != Standing::Above),
            Err(k) => Err(k),
        }
    }
}

/// Whether an entry of a descending vector is at or above the key.
pub open spec fn at_or_above(m: &ValueModel, cell: Val, key: Val) -> Result<bool, ErrorKind> {
    if cell is Blank || key is Blank {
        Err(ErrorKind::Unsupported)
    } else {
        match m.order(cell, key) {
            Ok(s) => Ok(s != Standing::Below),
            Err(k) => Err(k),
        }
    }
}

/// The bisection of positions `lo` to `hi`: an entry that is on the near side of
/// the key is the best so far and sends the search to its right, any other sends
/// it to its left.
pub open spec fn bisect(
    entries: Seq<Result<bool, ErrorKind>>,
    lo: int,
    hi: int,
    best: Option<int>,
) -> Result<Option<int>, ErrorKind>
    decreases hi - lo + 1,
{
    if lo > hi {
        Ok(best)
    } else {
        let mid = lo + (hi - lo) / 2;
        match entries[mid] {
            Err(k) => Err(k),
            Ok(true) => bisect(entries, mid + 1, hi, Some(mid)),
            Ok(false) => bisect(entries, lo, mid - 1, best),
        }
    }
}

/// The bisection of positions `lo` to `hi` looks at position `i`.
pub open spec fn probed(entries: Seq<Result<bool, ErrorKind>>, lo: int, hi: int, i: int) -> bool
    decreases hi - lo + 1,
{
    if lo > hi {
        false
    } else {
        let mid = lo + (hi - lo) / 2;
        i == mid || match entries[mid] {
            Err(_) => false,
            Ok(true) => probed(entries, mid + 1, hi, i),
            Ok(false) => probed(entries, lo, mid - 1, i),
        }
    }
}

/// The outcome of a bisection of an ascending vector for the last entry at or
/// below the key.
pub open spec fn ascending_result(m: &ValueModel, cells: Seq<Val>, key: Val) -> Result<
    Option<int>,
    ErrorKind,
> {
    bisect(cells.map_values(|c: Val| at_or_below(m, c, key)), 0, cells.len() - 1, None)
}

/// The outcome of a bisection of a descending vector for the last entry at or
/// above the key.
pub open spec fn descending_result(m: &ValueModel, cells: Seq<Val>, key: Val) -> Result<
    Option<int>,
    ErrorKind,
> {
    bisect(cells.map_values(|c: Val| at_or_above(m, c, key)), 0, cells.len() - 1, None)
}

/// How an entry directs the bisection of a lookup vector: an error sends it to
/// the right.
pub open spec fn direction(m: &ValueModel, cell: Val, key: Val) -> Result<Standing, ErrorKind> {
    if cell is Error {
        Ok(Standing::Below)
    } else if cell is Blank || key is Blank {
        Err(ErrorKind::Unsupported)
    } else {
        m.order(cell, key)
    }
}

/// The bisection of positions `lo` to `hi` that stops at an entry level with the
/// key, and else settles on the position that `hi` comes to rest at.
pub open spec fn settle(entries: Seq<Result<Standing, ErrorKind>>, lo: int, hi: int) -> Result<
    Option<int>,
    ErrorKind,
>
    decreases hi - lo + 1,
{
    if lo > hi {
        if hi < 0 {
            Ok(None)
        } else {
            Ok(Some(hi))
        }
    } else {
        let mid = lo + (hi - lo) / 2;
        match entries[mid] {
            Err(k) => Err(k),
            Ok(Standing::Level) => Ok(Some(mid)),
            Ok(Standing::Below) => settle(entries, mid + 1, hi),
            Ok(Standing::Above) => settle(entries, lo, mid - 1),
        }
    }
}

/// The outcome of a lookup of `key` in a lookup vector.
pub open spec fn settled_result(m: &ValueModel, cells: Seq<Val>, key: Val) -> Result<
    Option<int>,
    ErrorKind,
> {
    settle(cells.map_values(|c: Val| direction(m, c, key)), 0, cells.len() - 1)
}

/// Whether a stated outcome is the one that a search hands back.
pub open spec fn agrees(r: Result<Option<usize>, ErrorKind>, s: Result<Option<int>, ErrorKind>) -> bool {
    match r {
        Ok(Some(i)) => s == Ok::<Option<int>, ErrorKind>(Some(i as int)),
        Ok(None) => s == Ok::<Option<int>, ErrorKind>(None),
        Err(k) => s == Err::<Option<int>, ErrorKind>(k),
    }
}

fn is_blank_like(v: &Value) -> (b: bool)
    ensures
        b == blank_like(v@),
{
    match v {
        Value::Number(n) => n.is_zero(),
        Value::Text(t) => t.chars().len() == 0,
        Value::Bool(b) => !*b,
        _ => false,
    }
}

fn is_plain(v: &Value) -> (b: bool)
    ensures
        b == plain(v@),
{
    match v {
        Value::Number(_) => true,
        Value::Text(_) => true,
        Value::Bool(_) => true,
        _ => false,
    }
}

/// Whether `cell` counts as equal to `key` in a scan.
pub fn exact_eq(m: &ValueModel, cell: &Value, key: &Value) -> (r: Result<LookupEq, ErrorKind>)
    ensures
        r == lookup_eq(m, cell@, key@),
{
    if key.is_blank() && (cell.is_blank() || is_plain(cell)) {
        if !is_blank_like(cell) {
            return Ok(LookupEq::NoMatch);
        }
        return match cell {
            Value::Number(_) => Ok(LookupEq::Match),
            _ => Ok(LookupEq::Defer),
        };
    }
    if cell.is_blank() && is_plain(key) {
        return if is_blank_like(key) {
            Ok(LookupEq::Defer)
        } else {
            Ok(LookupEq::NoMatch)
        };
    }
    match m.equals(cell, key) {
        Ok(b) => if b {
            Ok(LookupEq::Match)
        } else {
            Ok(LookupEq::NoMatch)
        },
        Err(k) => Err(k),
    }
}

/// Whether a bisection that compares `cell` with `key` would have to order a blank.
pub fn approx_touches_blank(cell: &Value, key: &Value) -> (b: bool)
    ensures
        b == (cell@ is Blank || key@ is Blank),
{
    cell.is_blank() || key.is_blank()
}

/// Whether a value is a text with a wildcard character.
pub fn wildcard(v: &Value) -> (b: bool)
    ensures
        b == has_wildcard(v@),
{
    match v {
        Value::Text(t) => {
            let cs = t.chars();
            for i in 0..cs.len()
                invariant
                    cs@ == t@,
                    v@ == Val::Text(t@),
                    forall|j: int| 0 <= j < i ==> cs@[j] != '*' && cs@[j] != '?',
            {
                if cs[i] == '*' || cs[i] == '?' {
                    assert(t@.contains(t@[i as int]));
                    return true;
                }
            }
            false
        },
        _ => false,
    }
}

/// Scans `cells` for the first entry that is equal to `key`.
pub fn exact_search(m: &ValueModel, cells: &Vec<Value>, key: &Value) -> (r: Result<
    Option<usize>,
    ErrorKind,
>)
    ensures
        agrees(r, exact_result(m, views(cells@), key@)),
{
    if wildcard(key) {
        return Err(ErrorKind::Unsupported);
    }
    let ghost entries = views(cells@).map_values(|c: Val| lookup_eq(m, c, key@));
    for i in 0..cells.len()
        invariant
            entries == views(cells@).map_values(|c: Val| lookup_eq(m, c, key@)),
            first_match(entries, 0) == first_match(entries, i as int),
            !has_wildcard(key@),
    {
        match exact_eq(m, &cells[i], key) {
            Ok(LookupEq::Match) => {
                return Ok(Some(i));
            },
            Ok(LookupEq::NoMatch) => {},
            Ok(LookupEq::Defer) => {
                return Err(ErrorKind::Unsupported);
            },
            Err(k) => {
                return Err(k);
            },
        }
    }
    Ok(None)
}

/// Bisects `cells` for the last entry at or below `key`.
pub fn ascending_search(m: &ValueModel, cells: &Vec<Value>, key: &Value) -> (r: Result<
    Option<usize>,
    ErrorKind,
>)
    ensures
        agrees(r, ascending_result(m, views(cells@), key@)),
{
    let ghost entries = views(cells@).map_values(|c: Val| at_or_below(m, c, key@));
    let mut lo: usize = 0;
    let mut end: usize = cells.len();
    let mut best: Option<usize> = None;
    while lo < end
        invariant
            0 <= lo <= end <= cells@.len(),
            entries == views(cells@).map_values(|c: Val| at_or_below(m, c, key@)),
            ascending_result(m, views(cells@), key@) == bisect(
                entries,
                lo as int,
                end - 1,
                match best {
                    Some(b) => Some(b as int),
                    None => None,
                },
            ),
        decreases end - lo,
    {
        let mid = lo + (end - 1 - lo) / 2;
        if approx_touches_blank(&cells[mid], key) {
            return Err(ErrorKind::Unsupported);
        }
        match m.stand(&cells[mid], key) {
            Err(k) => {
                return Err(k);
            },
            Ok(Standing::Above) => {
                end = mid;
            },
            Ok(_) => {
                best = Some(mid);
                lo = mid + 1;
            },
        }
    }
    Ok(best)
}

/// Bisects `cells` for the last entry at or above `key`.
pub fn descending_search(m: &ValueModel, cells: &Vec<Value>, key: &Value) -> (r: Result<
    Option<usize>,
    ErrorKind,
>)
    ensures
        agrees(r, descending_result(m, views(cells@), key@)),
{
    let ghost entries = views(cells@).map_values(|c: Val| at_or_above(m, c, key@));
    let mut lo: usize = 0;
    let mut end: usize = cells.len();
    let mut best: Option<usize> = None;
    while lo < end
        invariant
            0 <= lo <= end <= cells@.len(),
            entries == views(cells@).map_values(|c: Val| at_or_above(m, c, key@)),
            descending_result(m, views(cells@), key@) == bisect(
                entries,
                lo as int,
                end - 1,
                match best {
                    Some(b) => Some(b as int),
                    None => None,
                },
            ),
        decreases end - lo,
    {
        let mid = lo + (end - 1 - lo) / 2;
        if approx_touches_blank(&cells[mid], key) {
            return Err(ErrorKind::Unsupported);
        }
        match m.stand(&cells[mid], key) {
            Err(k) => {
                return Err(k);
            },
            Ok(Standing::Below) => {
                end = mid;
            },
            Ok(_) => {
                best = Some(mid);
                lo = mid + 1;
            },
        }
    }
    Ok(best)
}

/// Bisects a lookup vector for `key`, stopping at a level entry and passing
/// errors to the right.
pub fn settling_search(m: &ValueModel, cells: &Vec<Value>, key: &Value) -> (r: Result<
    Option<usize>,
    ErrorKind,
>)
    ensures
        agrees(r, settled_result(m, views(cells@), key@)),
{
    let ghost entries = views(cells@).map_values(|c: Val| direction(m, c, key@));
    let mut lo: usize = 0;
    let mut end: usize = cells.len();
    while lo < end
        invariant
            0 <= lo <= end <= cells@.len(),
            entries == views(cells@).map_values(|c: Val| direction(m, c, key@)),
            settled_result(m, views(cells@), key@) == settle(entries, lo as int, end - 1),
        decreases end - lo,
    {
        let mid = lo + (end - 1 - lo) / 2;
        let error = match &cells[mid] {
            Value::Error(_) => true,
            _ => false,
        };
        if error {
            lo = mid + 1;
        } else {
            if approx_touches_blank(&cells[mid], key) {
                return Err(ErrorKind::Unsupported);
            }
            match m.stand(&cells[mid], key) {
                Err(k) => {
                    return Err(k);
                },
                Ok(Standing::Level) => {
                    return Ok(Some(mid));
                },
                Ok(Standing::Below) => {
                    lo = mid + 1;
                },
                Ok(Standing::Above) => {
                    end = mid;
                },
            }
        }
    }
    if end == 0 {
        Ok(None)
    } else {
        Ok(Some(end - 1))
    }
}

/// On entries that are on the near side of the key up to position `cut` and
/// beyond it from there on, a bisection that has narrowed the cut down to the
/// positions from `lo` to just past `hi` ends with the last entry before the cut.
proof fn lemma_bisect_cut(
    entries: Seq<Result<bool, ErrorKind>>,
    lo: int,
    hi: int,
    best: Option<int>,
    cut: int,
)
    requires
        0 <= lo <= cut <= hi + 1 <= entries.len(),
        forall|i: int| 0 <= i < cut ==> entries[i] == Ok::<bool, ErrorKind>(true),
        forall|i: int| cut <= i < entries.len() ==> entries[i] == Ok::<bool, ErrorKind>(false),
        best == if lo == 0 {
            None
        } else {
            Some(lo - 1)
        },
    ensures
        bisect(entries, lo, hi, best) == Ok::<Option<int>, ErrorKind>(
            if cut == 0 {
                None
            } else {
                Some(cut - 1)
            },
        ),
    decreases hi - lo + 1,
{
    if lo <= hi {
        let mid = lo + (hi - lo) / 2;
        if mid < cut {
            lemma_bisect_cut(entries, mid + 1, hi, Some(mid), cut);
        } else {
            lemma_bisect_cut(entries, lo, mid - 1, best, cut);
        }
    }
}

/// A bisection looks only at positions that it was given.
pub proof fn lemma_probed_in_range(entries: Seq<Result<bool, ErrorKind>>, lo: int, hi: int, i: int)
    ensures
        probed(entries, lo, hi, i) ==> lo <= i <= hi,
    decreases hi - lo + 1,
{
    if lo <= hi {
        let mid = lo + (hi - lo) / 2;
        lemma_probed_in_range(entries, mid + 1, hi, i);
        lemma_probed_in_range(entries, lo, mid - 1, i);
    }
}

/// A bisection hands back only a position that it has probed, and only one whose
/// entry is on the near side of the key, on sorted and unsorted vectors alike.
pub proof fn lemma_bisect_answer(
    entries: Seq<Result<bool, ErrorKind>>,
    lo: int,
    hi: int,
    best: Option<int>,
)
    requires
        0 <= lo <= hi + 1 <= entries.len(),
        best matches Some(b) ==> 0 <= b < entries.len() && entries[b] == Ok::<bool, ErrorKind>(true),
    ensures
        bisect(entries, lo, hi, best) matches Ok(Some(i)) ==> 0 <= i < entries.len() && entries[i] == Ok::<
            bool,
            ErrorKind,
        >(true),
    decreases hi - lo + 1,
{
    if lo <= hi {
        let mid = lo + (hi - lo) / 2;
        match entries[mid] {
            Err(_) => {},
            Ok(true) => {
                lemma_bisect_answer(entries, mid + 1, hi, Some(mid));
            },
            Ok(false) => {
                lemma_bisect_answer(entries, lo, mid - 1, best);
            },
        }
    }
}

/// The law of the ascending search: on a vector without blanks that ascends past
/// the key, where the entries at or below the key come first, the search finds
/// the last of them, which holds the largest value at or below the key; where
/// there is none, it finds nothing.
pub proof fn law_ascending_finds_largest(m: &ValueModel, cells: Seq<Val>, key: Val, cut: int)
    requires
        !(key is Blank),
        0 <= cut <= cells.len(),
        forall|i: int| 0 <= i < cells.len() ==> !(#[trigger] cells[i] is Blank) && m.order(cells[i], key) is Ok,
        forall|i: int|
            0 <= i < cells.len() ==> (i < cut <==> m.order(#[trigger] cells[i], key)->Ok_0 != Standing::Above),
    ensures
        ascending_result(m, cells, key) == Ok::<Option<int>, ErrorKind>(
            if cut == 0 {
                None
            } else {
                Some(cut - 1)
            },
        ),
{
    let entries = cells.map_values(|c: Val| at_or_below(m, c, key));
    assert forall|i: int| 0 <= i < cells.len() implies entries[i] == Ok::<bool, ErrorKind>(i < cut) by {
        assert(entries[i] == at_or_below(m, cells[i], key));
    }
    lemma_bisect_cut(entries, 0, cells.len() - 1, None, cut);
}

/// The law of the descending search: on a vector without blanks that descends
/// past the key, where the entries at or above the key come first, the search
/// finds the last of them, which holds the smallest value at or above the key;
/// where there is none, it finds nothing.
pub proof fn law_descending_finds_smallest(m: &ValueModel, cells: Seq<Val>, key: Val, cut: int)
    requires
        !(key is Blank),
        0 <= cut <= cells.len(),
        forall|i: int| 0 <= i < cells.len() ==> !(#[trigger] cells[i] is Blank) && m.order(cells[i], key) is Ok,
        forall|i: int|
            0 <= i < cells.len() ==> (i < cut <==> m.order(#[trigger] cells[i], key)->Ok_0 != Standing::Below),
    ensures
        descending_result(m, cells, key) == Ok::<Option<int>, ErrorKind>(
            if cut == 0 {
                None
            } else {
                Some(cut - 1)
            },
        ),
{
    let entries = cells.map_values(|c: Val| at_or_above(m, c, key));
    assert forall|i: int| 0 <= i < cells.len() implies entries[i] == Ok::<bool, ErrorKind>(i < cut) by {
        assert(entries[i] == at_or_above(m, cells[i], key));
    }
    lemma_bisect_cut(entries, 0, cells.len() - 1, None, cut);
}

/// A blank key is refused by both bisections of a vector that holds anything.
pub proof fn law_blank_key_is_refused(m: &ValueModel, cells: Seq<Val>, key: Val)
    requires
        key is Blank,
        cells.len() > 0,
    ensures
        ascending_result(m, cells, key) == Err::<Option<int>, ErrorKind>(ErrorKind::Unsupported),
        descending_result(m, cells, key) == Err::<Option<int>, ErrorKind>(ErrorKind::Unsupported),
{
    let mid = (cells.len() - 1) / 2;
    assert(0 <= mid < cells.len());
    assert(cells.map_values(|c: Val| at_or_below(m, c, key))[mid] == at_or_below(m, cells[mid], key));
    assert(cells.map_values(|c: Val| at_or_above(m, c, key))[mid] == at_or_above(m, cells[mid], key));
}

proof fn lemma_settle_cut(
    entries: Seq<Result<Standing, ErrorKind>>,
    lo: int,
    hi: int,
    level: int,
    above: int,
)
    requires
        0 <= lo <= hi + 1 <= entries.len(),
        0 <= level <= above <= entries.len(),
        lo <= level,
        above <= hi + 1,
        forall|i: int| 0 <= i < level ==> entries[i] == Ok::<Standing, ErrorKind>(Standing::Below),
        forall|i: int| level <= i < above ==> entries[i] == Ok::<Standing, ErrorKind>(Standing::Level),
        forall|i: int|
            above <= i < entries.len() ==> entries[i] == Ok::<Standing, ErrorKind>(Standing::Above),
    ensures
        level == above ==> settle(entries, lo, hi) == Ok::<Option<int>, ErrorKind>(
            if level == 0 {
                None
            } else {
                Some(level - 1)
            },
        ),
        level < above ==> (settle(entries, lo, hi) matches Ok(Some(i)) && level <= i < above),
    decreases hi - lo + 1,
{
    if lo <= hi {
        let mid = lo + (hi - lo) / 2;
        if mid < level {
            lemma_settle_cut(entries, mid + 1, hi, level, above);
        } else if mid >= above {
            lemma_settle_cut(entries, lo, mid - 1, level, above);
        }
    }
}

/// The law of the lookup search: on an ascending vector without blanks and
/// errors, it finds an entry level with the key where there is one, and else the
/// last entry below the key; where all entries are above the key, it finds nothing.
pub proof fn law_settling_finds_largest(
    m: &ValueModel,
    cells: Seq<Val>,
    key: Val,
    level: int,
    above: int,
)
    requires
        !(key is Blank),
        0 <= level <= above <= cells.len(),
        forall|i: int|
            0 <= i < cells.len() ==> !(#[trigger] cells[i] is Blank) && !(cells[i] is Error),
        forall|i: int|
            0 <= i < cells.len() ==> m.order(#[trigger] cells[i], key) == Ok::<Standing, ErrorKind>(
                if i < level {
                    Standing::Below
                } else if i < above {
                    Standing::Level
                } else {
                    Standing::Above
                },
            ),
    ensures
        level == above ==> settled_result(m, cells, key) == Ok::<Option<int>, ErrorKind>(
            if level == 0 {
                None
            } else {
                Some(level - 1)
            },
        ),
        level < above ==> (settled_result(m, cells, key) matches Ok(Some(i)) && level <= i < above),
{
    let entries = cells.map_values(|c: Val| direction(m, c, key));
    assert forall|i: int| 0 <= i < cells.len() implies entries[i] == m.order(cells[i], key) by {
        assert(entries[i] == direction(m, cells[i], key));
    }
    lemma_settle_cut(entries, 0, cells.len() - 1, level, above);
}

/// The lookup search hands back only positions of the vector.
pub proof fn lemma_settle_answer(
    entries: Seq<Result<Standing, ErrorKind>>,
    lo: int,
    hi: int,
)
    requires
        0 <= lo <= hi + 1 <= entries.len(),
    ensures
        settle(entries, lo, hi) matches Ok(Some(i)) ==> 0 <= i < entries.len(),
    decreases hi - lo + 1,
{
    if lo <= hi {
        let mid = lo + (hi - lo) / 2;
        match entries[mid] {
            Ok(Standing::Below) => {
                lemma_settle_answer(entries, mid + 1, hi);
            },
            Ok(Standing::Above) => {
                lemma_settle_answer(entries, lo, mid - 1);
            },
            _ => {},
        }
    }
}

/// The law of the scan: the answer is the first entry that matches, where every
/// entry before it is known not to; nothing is found only where no entry
/// matches; and an entry that is not settled or fails is refused with what it
/// is refused for, before any later match.
pub proof fn law_scan_finds_first(entries: Seq<Result<LookupEq, ErrorKind>>, from: int)
    requires
        0 <= from <= entries.len(),
    ensures
        match first_match(entries, from) {
            Ok(Some(i)) => {
                &&& from <= i < entries.len()
                &&& entries[i] == Ok::<LookupEq, ErrorKind>(LookupEq::Match)
                &&& forall|j: int|
                    from <= j < i ==> entries[j] == Ok::<LookupEq, ErrorKind>(LookupEq::NoMatch)
            },
            Ok(None) => forall|j: int|
                from <= j < entries.len() ==> entries[j] == Ok::<LookupEq, ErrorKind>(LookupEq::NoMatch),
            Err(k) => exists|i: int|
                from <= i < entries.len() && (entries[i] == Err::<LookupEq, ErrorKind>(k) || (entries[i]
                    == Ok::<LookupEq, ErrorKind>(LookupEq::Defer) && k == ErrorKind::Unsupported)) && (
                forall|j: int|
                    from <= j < i ==> entries[j] == Ok::<LookupEq, ErrorKind>(LookupEq::NoMatch)),
        },
    decreases entries.len() - from,
{
    if from < entries.len() {
        match entries[from] {
            Ok(LookupEq::NoMatch) => {
                law_scan_finds_first(entries, from + 1);
                match first_match(entries, from + 1) {
                    Err(k) => {
                        let i = choose|i: int|
                            from + 1 <= i < entries.len() && (entries[i] == Err::<LookupEq, ErrorKind>(k) || (
                            entries[i] == Ok::<LookupEq, ErrorKind>(LookupEq::Defer) && k
                                == ErrorKind::Unsupported)) && (forall|j: int|
                                from + 1 <= j < i ==> entries[j] == Ok::<LookupEq, ErrorKind>(
                                    LookupEq::NoMatch,
                                ));
                        assert(entries[i] == entries[i]);
                    },
                    _ => {},
                }
            },
            Ok(LookupEq::Defer) => {
                assert(entries[from] == Ok::<LookupEq, ErrorKind>(LookupEq::Defer));
            },
            Err(k) => {
                assert(entries[from] == Err::<LookupEq, ErrorKind>(k));
            },
            Ok(LookupEq::Match) => {},
        }
    }
}

/// The law of equality in a scan: a blank key matches a zero, no other number, no blank, no
/// text with characters and no true; whether it matches the empty text or false is not
/// settled, nor whether a blank cell matches a zero, the empty text or false. Any other
/// two values match where they are equal.
pub proof fn law_blanks_match_only_zero(m: &ValueModel, cell: Val, key: Val)
    ensures
        key is Blank ==> match cell {
            Val::Blank => lookup_eq(m, cell, key) == Ok::<LookupEq, ErrorKind>(LookupEq::NoMatch),
            Val::Number(n) => lookup_eq(m, cell, key) == Ok::<LookupEq, ErrorKind>(
                if n.units() == 0 {
                    LookupEq::Match
                } else {
                    LookupEq::NoMatch
                },
            ),
            Val::Text(t) => lookup_eq(m, cell, key) == Ok::<LookupEq, ErrorKind>(
                if t.len() == 0 {
                    LookupEq::Defer
                } else {
                    LookupEq::NoMatch
                },
            ),
            Val::Bool(b) => lookup_eq(m, cell, key) == Ok::<LookupEq, ErrorKind>(
                if b {
                    LookupEq::NoMatch
                } else {
                    LookupEq::Defer
                },
            ),
            _ => true,
        },
        cell is Blank ==> match key {
            Val::Number(n) => lookup_eq(m, cell, key) == Ok::<LookupEq, ErrorKind>(
                if n.units() == 0 {
                    LookupEq::Defer
                } else {
                    LookupEq::NoMatch
                },
            ),
            Val::Text(t) => lookup_eq(m, cell, key) == Ok::<LookupEq, ErrorKind>(
                if t.len() == 0 {
                    LookupEq::Defer
                } else {
                    LookupEq::NoMatch
                },
            ),
            Val::Bool(b) => lookup_eq(m, cell, key) == Ok::<LookupEq, ErrorKind>(
                if b {
                    LookupEq::NoMatch
                } else {
                    LookupEq::Defer
                },
            ),
            _ => true,
        },
        !(key is Blank) && !(cell is Blank) ==> match m.equality(cell, key) {
            Ok(b) => lookup_eq(m, cell, key) == Ok::<LookupEq, ErrorKind>(
                if b {
                    LookupEq::Match
                } else {
                    LookupEq::NoMatch
                },
            ),
            Err(k) => lookup_eq(m, cell, key) == Err::<LookupEq, ErrorKind>(k),
        },
{
}

/// The law of wildcards: a text with an asterisk or a question mark is not searched for.
pub proof fn law_wildcards_are_refused(m: &ValueModel, cells: Seq<Val>, t: Seq<char>, i: int)
    requires
        0 <= i < t.len(),
        t[i] == '*' || t[i] == '?',
    ensures
        exact_result(m, cells, Val::Text(t)) == Err::<Option<int>, ErrorKind>(ErrorKind::Unsupported),
{
    assert(t.contains(t[i]));
}

/// The cell is one that a scan for the key tells from it by equality alone.
pub open spec fn told_apart(m: &ValueModel, cell: Val, key: Val, equal: bool) -> bool {
    !(cell is Blank) && m.equality(cell, key) == Ok::<bool, ErrorKind>(equal)
}

/// The law of the exact search: for a key that is no blank and holds no wildcard, the
/// answer is the position of the first equal entry, where those before it are neither
/// blank nor equal; where no entry is either, nothing is found.
pub proof fn law_exact_finds_first_equal(m: &ValueModel, cells: Seq<Val>, key: Val, i: int)
    requires
        !(key is Blank),
        key matches Val::Text(t) ==> !t.contains('*') && !t.contains('?'),
        0 <= i <= cells.len(),
        forall|j: int| 0 <= j < i ==> told_apart(m, #[trigger] cells[j], key, false),
        i < cells.len() ==> told_apart(m, cells[i], key, true),
    ensures
        exact_result(m, cells, key) == Ok::<Option<int>, ErrorKind>(
            if i < cells.len() {
                Some(i)
            } else {
                None
            },
        ),
{
    let entries = cells.map_values(|c: Val| lookup_eq(m, c, key));
    assert forall|j: int| 0 <= j < i implies #[trigger] entries[j] == Ok::<LookupEq, ErrorKind>(LookupEq::NoMatch) by {
        assert(told_apart(m, cells[j], key, false));
        assert(entries[j] == lookup_eq(m, cells[j], key));
    }
    if i < cells.len() {
        assert(entries[i] == lookup_eq(m, cells[i], key));
    }
    law_scan_finds_first(entries, 0);
    match first_match(entries, 0) {
        Ok(Some(p)) => {
            if p < i {
                assert(entries[p] == Ok::<LookupEq, ErrorKind>(LookupEq::NoMatch));
            } else if i < p {
                assert(entries[i] == Ok::<LookupEq, ErrorKind>(LookupEq::NoMatch));
            }
        },
        Ok(None) => {
            if i < cells.len() {
                assert(entries[i] == Ok::<LookupEq, ErrorKind>(LookupEq::NoMatch));
            }
        },
        Err(k) => {
            let p = choose|p: int|
                0 <= p < entries.len() && (entries[p] == Err::<LookupEq, ErrorKind>(k) || (entries[p] == Ok::<
                    LookupEq,
                    ErrorKind,
                >(LookupEq::Defer) && k == ErrorKind::Unsupported)) && (forall|j: int|
                    0 <= j < p ==> entries[j] == Ok::<LookupEq, ErrorKind>(LookupEq::NoMatch));
            if p < i {
                assert(entries[p] == Ok::<LookupEq, ErrorKind>(LookupEq::NoMatch));
            } else if i < p {
                assert(entries[i] == Ok::<LookupEq, ErrorKind>(LookupEq::NoMatch));
            }
        },
    }
}

/// An outcome over a part of a vector that starts at position `d`, as one over the whole,
/// where `base` is what is found without anything in the part.
pub open spec fn moved(r: Result<Option<int>, ErrorKind>, d: int, base: Option<int>) -> Result<Option<int>, ErrorKind> {
    match r {
        Ok(None) => Ok(base),
        Ok(Some(j)) => Ok(Some(j + d)),
        Err(k) => Err(k),
    }
}

proof fn lemma_bisect_moved(
    entries: Seq<Result<bool, ErrorKind>>,
    part: Seq<Result<bool, ErrorKind>>,
    d: int,
    lo: int,
    hi: int,
    best: Option<int>,
    base: Option<int>,
)
    requires
        d <= lo,
        forall|i: int| lo <= i <= hi ==> #[trigger] entries[i] == part[i - d],
    ensures
        bisect(
            entries,
            lo,
            hi,
            match best {
                None => base,
                Some(j) => Some(j + d),
            },
        ) == moved(bisect(part, lo - d, hi - d, best), d, base),
    decreases hi - lo + 1,
{
    if lo <= hi {
        let mid = lo + (hi - lo) / 2;
        assert(entries[mid] == part[mid - d]);
        assert(mid - d == (lo - d) + ((hi - d) - (lo - d)) / 2);
        match entries[mid] {
            Err(_) => {},
            Ok(true) => {
                lemma_bisect_moved(entries, part, d, mid + 1, hi, Some(mid - d), base);
            },
            Ok(false) => {
                lemma_bisect_moved(entries, part, d, lo, mid - 1, best, base);
            },
        }
    }
}

/// The law of halves: a bisection of a vector, sorted or not, looks at its middle entry.
/// An entry on the near side of the key leaves the answer to the part after it, and is
/// itself the answer where that part has none; any other leaves it to the part before it.
pub proof fn law_bisection_halves_the_vector(m: &ValueModel, cells: Seq<Val>, key: Val)
    requires
        cells.len() > 0,
        !(key is Blank),
    ensures
        ({
            let mid = (cells.len() - 1) / 2;
            let before = cells.take(mid);
            let after = cells.skip(mid + 1);
            let none = None::<int>;
            &&& cells[mid] is Blank ==> ascending_result(m, cells, key) == Err::<Option<int>, ErrorKind>(
                ErrorKind::Unsupported,
            ) && descending_result(m, cells, key) == Err::<Option<int>, ErrorKind>(ErrorKind::Unsupported)
            &&& !(cells[mid] is Blank) ==> match m.order(cells[mid], key) {
                Err(k) => ascending_result(m, cells, key) == Err::<Option<int>, ErrorKind>(k) && descending_result(
                    m,
                    cells,
                    key,
                ) == Err::<Option<int>, ErrorKind>(k),
                Ok(s) => {
                    &&& ascending_result(m, cells, key) == (if s == Standing::Above {
                        ascending_result(m, before, key)
                    } else {
                        moved(ascending_result(m, after, key), mid + 1, Some(mid))
                    })
                    &&& descending_result(m, cells, key) == (if s == Standing::Below {
                        descending_result(m, before, key)
                    } else {
                        moved(descending_result(m, after, key), mid + 1, Some(mid))
                    })
                },
            }
        }),
{
    let mid = (cells.len() - 1) / 2;
    let n = cells.len() as int;
    let before = cells.take(mid);
    let after = cells.skip(mid + 1);
    let below = |c: Val| at_or_below(m, c, key);
    let above = |c: Val| at_or_above(m, c, key);
    lemma_bisect_moved(cells.map_values(below), after.map_values(below), mid + 1, mid + 1, n - 1, None, Some(mid));
    lemma_bisect_moved(cells.map_values(below), before.map_values(below), 0, 0, mid - 1, None, None);
    lemma_bisect_moved(cells.map_values(above), after.map_values(above), mid + 1, mid + 1, n - 1, None, Some(mid));
    lemma_bisect_moved(cells.map_values(above), before.map_values(above), 0, 0, mid - 1, None, None);
    assert(0 + (n - 1 - 0) / 2 == mid);
    assert(cells.map_values(below)[mid] == at_or_below(m, cells[mid], key));
    assert(cells.map_values(above)[mid] == at_or_above(m, cells[mid], key));
}

proof fn lemma_settle_moved(
    entries: Seq<Result<Standing, ErrorKind>>,
    part: Seq<Result<Standing, ErrorKind>>,
    d: int,
    lo: int,
    hi: int,
)
    requires
        0 <= d <= lo,
        d - 1 <= hi,
        lo <= hi + 1,
        forall|i: int| lo <= i <= hi ==> #[trigger] entries[i] == part[i - d],
    ensures
        settle(entries, lo, hi) == moved(
            settle(part, lo - d, hi - d),
            d,
            if d == 0 {
                None
            } else {
                Some(d - 1)
            },
        ),
    decreases hi - lo + 1,
{
    if lo <= hi {
        let mid = lo + (hi - lo) / 2;
        assert(entries[mid] == part[mid - d]);
        assert(mid - d == (lo - d) + ((hi - d) - (lo - d)) / 2);
        match entries[mid] {
            Ok(Standing::Below) => {
                lemma_settle_moved(entries, part, d, mid + 1, hi);
            },
            Ok(Standing::Above) => {
                lemma_settle_moved(entries, part, d, lo, mid - 1);
            },
            _ => {},
        }
    }
}

/// The law of halves of the lookup search: it looks at the middle entry of a vector,
/// sorted or not, and stops there where the entry is level with the key. One below it, or
/// an error, leaves the answer to the part after it, and is itself the answer where that
/// part has none; one above it leaves the answer to the part before it.
pub proof fn law_settling_halves_the_vector(m: &ValueModel, cells: Seq<Val>, key: Val)
    requires
        cells.len() > 0,
        !(key is Blank),
    ensures
        ({
            let mid = (cells.len() - 1) / 2;
            let after = moved(settled_result(m, cells.skip(mid + 1), key), mid + 1, Some(mid));
            match cells[mid] {
                Val::Error(_) => settled_result(m, cells, key) == after,
                Val::Blank => settled_result(m, cells, key) == Err::<Option<int>, ErrorKind>(ErrorKind::Unsupported),
                c => match m.order(c, key) {
                    Err(k) => settled_result(m, cells, key) == Err::<Option<int>, ErrorKind>(k),
                    Ok(Standing::Level) => settled_result(m, cells, key) == Ok::<Option<int>, ErrorKind>(Some(mid)),
                    Ok(Standing::Below) => settled_result(m, cells, key) == after,
                    Ok(Standing::Above) => settled_result(m, cells, key) == settled_result(m, cells.take(mid), key),
                },
            }
        }),
{
    let mid = (cells.len() - 1) / 2;
    let n = cells.len() as int;
    let f = |c: Val| direction(m, c, key);
    lemma_settle_moved(cells.map_values(f), cells.skip(mid + 1).map_values(f), mid + 1, mid + 1, n - 1);
    lemma_settle_moved(cells.map_values(f), cells.take(mid).map_values(f), 0, 0, mid - 1);
    assert(0 + (n - 1 - 0) / 2 == mid);
    assert(cells.map_values(f)[mid] == direction(m, cells[mid], key));
}

/// A search of a vector without entries finds nothing.
pub proof fn law_nothing_in_empty_vector(m: &ValueModel, key: Val)
    ensures
        ascending_result(m, Seq::empty(), key) == Ok::<Option<int>, ErrorKind>(None),
        descending_result(m, Seq::empty(), key) == Ok::<Option<int>, ErrorKind>(None),
        settled_result(m, Seq::empty(), key) == Ok::<Option<int>, ErrorKind>(None),
        !has_wildcard(key) ==> exact_result(m, Seq::empty(), key) == Ok::<Option<int>, ErrorKind>(None),
{
}

} // verus!
