//! Extremes and sorting of numbers.

use crate::number::{lemma_total_orders, Number};
use vstd::prelude::*;
use vstd::relations::{sorted_by, total_ordering};
use vstd::seq_lib::{group_to_multiset_ensures, lemma_multiset_commutative, lemma_sorted_unique};

verus! {

/// The first of the numbers that no other exceeds.
pub open spec fn greatest(ns: Seq<Number>) -> Option<Number>
    decreases ns.len(),
{
    if ns.len() == 0 {
        None
    } else {
        match greatest(ns.drop_last()) {
            Some(g) if ns.last().units() <= g.units() => Some(g),
            _ => Some(ns.last()),
        }
    }
}

/// The first of the numbers that exceeds no other.
pub open spec fn least(ns: Seq<Number>) -> Option<Number>
    decreases ns.len(),
{
    if ns.len() == 0 {
        None
    } else {
        match least(ns.drop_last()) {
            Some(g) if ns.last().units() >= g.units() => Some(g),
            _ => Some(ns.last()),
        }
    }
}

/// The first of the numbers that no other exceeds.
pub fn find_greatest(ns: &Vec<Number>) -> (r: Option<Number>)
    ensures
        r == greatest(ns@),
{
    let mut best: Option<Number> = None;
    for i in 0..ns.len()
        invariant
            best == greatest(ns@.take(i as int)),
    {
        assert(ns@.take(i + 1).drop_last() == ns@.take(i as int));
        best = match best {
            Some(b) => if b.lt(ns[i]) {
                Some(ns[i])
            } else {
                Some(b)
            },
            None => Some(ns[i]),
        };
    }
    assert(ns@.take(ns@.len() as int) == ns@);
    best
}

/// The first of the numbers that exceeds no other.
pub fn find_least(ns: &Vec<Number>) -> (r: Option<Number>)
    ensures
        r == least(ns@),
{
    let mut best: Option<Number> = None;
    for i in 0..ns.len()
        invariant
            best == least(ns@.take(i as int)),
    {
        assert(ns@.take(i + 1).drop_last() == ns@.take(i as int));
        best = match best {
            Some(b) => if ns[i].lt(b) {
                Some(ns[i])
            } else {
                Some(b)
            },
            None => Some(ns[i]),
        };
    }
    assert(ns@.take(ns@.len() as int) == ns@);
    best
}

/// The law of the maximum: it is one of the numbers, no other exceeds it, and
/// every number before its first place falls short of it.
pub proof fn law_greatest_is_maximum(ns: Seq<Number>)
    requires
        ns.len() > 0,
    ensures
        exists|i: int|
            0 <= i < ns.len() && greatest(ns) == Some(#[trigger] ns[i]) && (forall|j: int|
                0 <= j < i ==> (#[trigger] ns[j]).units() < ns[i].units()) && (forall|j: int|
                0 <= j < ns.len() ==> (#[trigger] ns[j]).units() <= ns[i].units()),
    decreases ns.len(),
{
    let n = ns.len() - 1;
    let front = ns.drop_last();
    if front.len() > 0 {
        law_greatest_is_maximum(front);
        let i = choose|i: int|
            0 <= i < front.len() && greatest(front) == Some(#[trigger] front[i]) && (forall|j: int|
                0 <= j < i ==> (#[trigger] front[j]).units() < front[i].units()) && (forall|j: int|
                0 <= j < front.len() ==> (#[trigger] front[j]).units() <= front[i].units());
        assert forall|j: int| 0 <= j < n implies #[trigger] ns[j] == front[j] by {}
        if ns.last().units() <= front[i].units() {
            assert(ns[i] == front[i]);
        } else {
            assert(greatest(ns) == Some(ns[n]));
        }
    } else {
        assert(greatest(ns) == Some(ns[0]));
    }
}

/// The law of the minimum: it is one of the numbers, it exceeds no other, and
/// every number before its first place exceeds it.
pub proof fn law_least_is_minimum(ns: Seq<Number>)
    requires
        ns.len() > 0,
    ensures
        exists|i: int|
            0 <= i < ns.len() && least(ns) == Some(#[trigger] ns[i]) && (forall|j: int|
                0 <= j < i ==> (#[trigger] ns[j]).units() > ns[i].units()) && (forall|j: int|
                0 <= j < ns.len() ==> (#[trigger] ns[j]).units() >= ns[i].units()),
    decreases ns.len(),
{
    let n = ns.len() - 1;
    let front = ns.drop_last();
    if front.len() > 0 {
        law_least_is_minimum(front);
        let i = choose|i: int|
            0 <= i < front.len() && least(front) == Some(#[trigger] front[i]) && (forall|j: int|
                0 <= j < i ==> (#[trigger] front[j]).units() > front[i].units()) && (forall|j: int|
                0 <= j < front.len() ==> (#[trigger] front[j]).units() >= front[i].units());
        assert forall|j: int| 0 <= j < n implies #[trigger] ns[j] == front[j] by {}
        if ns.last().units() >= front[i].units() {
            assert(ns[i] == front[i]);
        } else {
            assert(least(ns) == Some(ns[n]));
        }
    } else {
        assert(least(ns) == Some(ns[0]));
    }
}

/// The law of order independence: numbers in another order, or with others
/// repeated, have maxima and minima of the same value.
pub proof fn law_extremes_ignore_order(a: Seq<Number>, b: Seq<Number>)
    requires
        a.len() > 0,
        b.len() > 0,
        forall|n: Number| a.contains(n) == b.contains(n),
    ensures
        greatest(a)->0.units() == greatest(b)->0.units(),
        least(a)->0.units() == least(b)->0.units(),
{
    law_greatest_is_maximum(a);
    law_greatest_is_maximum(b);
    law_least_is_minimum(a);
    law_least_is_minimum(b);
    assert(a.contains(greatest(a)->0) && b.contains(greatest(b)->0));
    assert(b.contains(greatest(a)->0) && a.contains(greatest(b)->0));
    assert(a.contains(least(a)->0) && b.contains(least(b)->0));
    assert(b.contains(least(a)->0) && a.contains(least(b)->0));
}

/// The total order of numbers.
pub open spec fn not_above() -> spec_fn(Number, Number) -> bool {
    |a: Number, b: Number| a.total() <= b.total()
}

/// The numbers from the least to the greatest; a zero with a sign comes before
/// one without.
pub open spec fn sorted(ns: Seq<Number>) -> Seq<Number> {
    ns.sort_by(not_above())
}

/// The order of numbers is total: any two are comparable, and two that are not
/// above each other are the same.
pub proof fn lemma_total_order()
    ensures
        total_ordering(not_above()),
{
    assert forall|a: Number, b: Number| a.total() == b.total() implies a == b by {
        lemma_total_orders(a, b);
    }
    assert forall|a: Number, b: Number| #[trigger] not_above()(a, b) && #[trigger] not_above()(b, a) implies a == b by {
        lemma_total_orders(a, b);
    }
}

/// What sorting does: the same numbers, as often each, in ascending order.
pub proof fn lemma_sorted(ns: Seq<Number>)
    ensures
        sorted(ns).to_multiset() == ns.to_multiset(),
        sorted(ns).len() == ns.len(),
        forall|i: int, j: int|
            0 <= i <= j < ns.len() ==> (#[trigger] sorted(ns)[i]).total() <= (#[trigger] sorted(ns)[j]).total(),
        forall|i: int, j: int|
            0 <= i <= j < ns.len() ==> (#[trigger] sorted(ns)[i]).units() <= (#[trigger] sorted(ns)[j]).units(),
{
    broadcast use group_to_multiset_ensures;

    lemma_total_order();
    ns.lemma_sort_by_ensures(not_above());
    let s = sorted(ns);
    assert(s.to_multiset().len() == ns.to_multiset().len());
    assert forall|i: int, j: int| 0 <= i <= j < ns.len() implies (#[trigger] s[i]).total()
        <= (#[trigger] s[j]).total() && s[i].units() <= s[j].units() by {
        if i < j {
            assert(not_above()(s[i], s[j]));
        }
        lemma_total_orders(s[j], s[i]);
    }
}

/// Only one ascending sequence has given numbers.
proof fn lemma_is_sorted(s: Seq<Number>, ns: Seq<Number>)
    requires
        s.to_multiset() == ns.to_multiset(),
        forall|i: int, j: int|
            0 <= i <= j < s.len() ==> (#[trigger] s[i]).total() <= (#[trigger] s[j]).total(),
    ensures
        s == sorted(ns),
{
    lemma_total_order();
    ns.lemma_sort_by_ensures(not_above());
    assert(sorted_by(s, not_above()));
    lemma_sorted_unique(s, sorted(ns), not_above());
}

/// The law of sorting: the same numbers in another order sort to the same sequence.
pub proof fn law_sorting_ignores_order(a: Seq<Number>, b: Seq<Number>)
    requires
        a.to_multiset() == b.to_multiset(),
    ensures
        sorted(a) == sorted(b),
{
    lemma_sorted(a);
    lemma_is_sorted(sorted(a), b);
}

spec fn ascending(s: Seq<Number>) -> bool {
    forall|i: int, j: int|
        0 <= i <= j < s.len() ==> (#[trigger] s[i]).total() <= (#[trigger] s[j]).total()
}

fn merge(a: &Vec<Number>, b: &Vec<Number>) -> (r: Vec<Number>)
    requires
        ascending(a@),
        ascending(b@),
    ensures
        ascending(r@),
        r@.to_multiset() == a@.to_multiset().add(b@.to_multiset()),
{
    let mut r: Vec<Number> = Vec::new();
    let mut i: usize = 0;
    let mut j: usize = 0;
    proof {
        broadcast use group_to_multiset_ensures;

        assert(a@.take(0) == Seq::<Number>::empty());
        assert(b@.take(0) == Seq::<Number>::empty());
        assert(r@ == Seq::<Number>::empty());
        assert(r@.to_multiset() =~= a@.take(0).to_multiset().add(b@.take(0).to_multiset()));
    }
    while i < a.len() || j < b.len()
        invariant
            i <= a@.len(),
            j <= b@.len(),
            ascending(a@),
            ascending(b@),
            ascending(r@),
            r@.to_multiset() == a@.take(i as int).to_multiset().add(b@.take(j as int).to_multiset()),
            forall|x: int, y: int|
                0 <= x < r@.len() && i <= y < a@.len() ==> (#[trigger] r@[x]).total() <= (
                #[trigger] a@[y]).total(),
            forall|x: int, y: int|
                0 <= x < r@.len() && j <= y < b@.len() ==> (#[trigger] r@[x]).total() <= (
                #[trigger] b@[y]).total(),
        decreases a@.len() - i + b@.len() - j,
    {
        let ghost before = r@;
        let from_a = j >= b.len() || (i < a.len() && a[i].total_key() <= b[j].total_key());
        if from_a {
            let n = a[i];
            r.push(n);
            proof {
                broadcast use group_to_multiset_ensures;

                assert(a@.take(i + 1) == a@.take(i as int).push(n));
                assert(r@.to_multiset() =~= a@.take(i + 1).to_multiset().add(
                    b@.take(j as int).to_multiset(),
                ));
            }
            i = i + 1;
        } else {
            let n = b[j];
            r.push(n);
            proof {
                broadcast use group_to_multiset_ensures;

                assert(b@.take(j + 1) == b@.take(j as int).push(n));
                assert(r@.to_multiset() =~= a@.take(i as int).to_multiset().add(
                    b@.take(j + 1).to_multiset(),
                ));
            }
            j = j + 1;
        }
    }
    assert(a@.take(a@.len() as int) == a@);
    assert(b@.take(b@.len() as int) == b@);
    r
}

fn sort_part(ns: &Vec<Number>, from: usize, to: usize) -> (r: Vec<Number>)
    requires
        from <= to <= ns@.len(),
    ensures
        ascending(r@),
        r@.to_multiset() == ns@.subrange(from as int, to as int).to_multiset(),
    decreases to - from,
{
    if to - from <= 1 {
        let mut r: Vec<Number> = Vec::new();
        if from < to {
            r.push(ns[from]);
        }
        assert(r@ == ns@.subrange(from as int, to as int));
        return r;
    }
    let mid = from + (to - from) / 2;
    let a = sort_part(ns, from, mid);
    let b = sort_part(ns, mid, to);
    proof {
        let left = ns@.subrange(from as int, mid as int);
        let right = ns@.subrange(mid as int, to as int);
        lemma_multiset_commutative(left, right);
        assert(left + right == ns@.subrange(from as int, to as int));
    }
    merge(&a, &b)
}

/// The numbers from the least to the greatest.
pub fn sort(ns: &Vec<Number>) -> (r: Vec<Number>)
    ensures
        r@ == sorted(ns@),
        r@.len() == ns@.len(),
{
    let r = sort_part(ns, 0, ns.len());
    proof {
        assert(ns@.subrange(0, ns@.len() as int) == ns@);
        lemma_is_sorted(r@, ns@);
        lemma_sorted(ns@);
    }
    r
}

/// The law of sorting's ends: the last of the sorted numbers has the value of
/// the maximum, and the first that of the minimum.
pub proof fn law_ends_are_extremes(ns: Seq<Number>)
    requires
        ns.len() > 0,
    ensures
        sorted(ns).last().units() == greatest(ns)->0.units(),
        sorted(ns).first().units() == least(ns)->0.units(),
{
    broadcast use group_to_multiset_ensures;

    let s = sorted(ns);
    lemma_sorted(ns);
    assert forall|n: Number| s.contains(n) == ns.contains(n) by {
        assert(s.to_multiset().count(n) == ns.to_multiset().count(n));
    }
    law_extremes_ignore_order(s, ns);
    law_greatest_is_maximum(s);
    law_least_is_minimum(s);
}

/// The sequence `s` holds the numbers of `ns`, each as often, from the least to the
/// greatest.
pub open spec fn ascending_order_of(s: Seq<Number>, ns: Seq<Number>) -> bool {
    &&& s.len() == ns.len()
    &&& s.to_multiset() == ns.to_multiset()
    &&& forall|i: int, j: int| 0 <= i <= j < s.len() ==> (#[trigger] s[i]).units() <= (#[trigger] s[j]).units()
}

} // verus!
