//! Texts as UTF-16 code units, in which positions and lengths are counted.

use vstd::prelude::*;

verus! {

/// The code units of a character: one, or a pair of surrogates.
pub open spec fn units16(c: char) -> Seq<u16> {
    if (c as int) < 0x1_0000 {
        seq![c as u16]
    } else {
        seq![
            (0xd800 + (c as int - 0x1_0000) / 0x400) as u16,
            (0xdc00 + (c as int - 0x1_0000) % 0x400) as u16,
        ]
    }
}

/// The code units of a text.
pub open spec fn utf16(s: Seq<char>) -> Seq<u16>
    decreases s.len(),
{
    if s.len() == 0 {
        Seq::empty()
    } else {
        units16(s[0]) + utf16(s.drop_first())
    }
}

/// The text with the given code units, where there is one.
pub open spec fn decoded(units: Seq<u16>) -> Option<Seq<char>> {
    if exists|t: Seq<char>| #[trigger] utf16(t) == units {
        Some(choose|t: Seq<char>| #[trigger] utf16(t) == units)
    } else {
        None
    }
}

/// A code unit that starts a pair.
pub open spec fn leads(u: u16) -> bool {
    0xd800 <= u < 0xdc00
}

/// A code unit that ends a pair.
pub open spec fn trails(u: u16) -> bool {
    0xdc00 <= u < 0xe000
}

/// The code units of two texts in a row are those of the one and of the other.
pub proof fn lemma_utf16_adds(a: Seq<char>, b: Seq<char>)
    ensures
        utf16(a + b) == utf16(a) + utf16(b),
    decreases a.len(),
{
    if a.len() == 0 {
        assert(a + b == b);
    } else {
        assert((a + b).drop_first() == a.drop_first() + b);
        lemma_utf16_adds(a.drop_first(), b);
    }
}

/// The code units of a text and one more character.
pub proof fn lemma_utf16_push(s: Seq<char>, c: char)
    ensures
        utf16(s.push(c)) == utf16(s) + units16(c),
{
    assert(s.push(c) == s + seq![c]);
    lemma_utf16_adds(s, seq![c]);
    assert(seq![c].drop_first() == Seq::<char>::empty());
    assert(utf16(Seq::<char>::empty()) == Seq::<u16>::empty());
    assert(utf16(seq![c]) == units16(c));
}

/// What the code units of a character are like: two exactly where the first
/// leads, and then the second trails.
pub proof fn lemma_units(c: char)
    ensures
        units16(c).len() == 1 || units16(c).len() == 2,
        (units16(c).len() == 2) == leads(units16(c)[0]),
        !trails(units16(c)[0]),
        units16(c).len() == 2 ==> trails(units16(c)[1]),
        units16(c).len() == 1 ==> !leads(units16(c)[0]),
        (units16(c).len() == 1) == ((c as int) < 0x1_0000),
{
}

/// A character is determined by its code units.
proof fn lemma_units_determine(a: char, b: char)
    requires
        units16(a) == units16(b),
    ensures
        a == b,
{
    lemma_units(a);
    lemma_units(b);
    assert(units16(a)[0] == units16(b)[0]);
    if units16(a).len() == 2 {
        assert(units16(a)[1] == units16(b)[1]);
    }
}

/// A text starts with no unit that trails and ends with none that leads.
pub proof fn lemma_ends(t: Seq<char>)
    requires
        t.len() > 0,
    ensures
        utf16(t).len() > 0,
        !trails(utf16(t)[0]),
        !leads(utf16(t).last()),
    decreases t.len(),
{
    lemma_units(t[0]);
    if t.len() > 1 {
        lemma_ends(t.drop_first());
    } else {
        assert(t.drop_first() == Seq::<char>::empty());
        assert(utf16(t.drop_first()) == Seq::<u16>::empty());
        assert(utf16(t) == units16(t[0]));
    }
}

/// The law of decoding: a text is determined by its code units, so that decoding
/// undoes encoding.
pub proof fn law_decoding_undoes_encoding(t: Seq<char>)
    ensures
        decoded(utf16(t)) == Some(t),
{
    let u = choose|u: Seq<char>| #[trigger] utf16(u) == utf16(t);
    lemma_text_determined(u, t);
}

proof fn lemma_text_determined(a: Seq<char>, b: Seq<char>)
    requires
        utf16(a) == utf16(b),
    ensures
        a == b,
    decreases a.len(),
{
    if a.len() == 0 {
        if b.len() > 0 {
            lemma_ends(b);
        }
        assert(a == b);
    } else if b.len() == 0 {
        lemma_ends(a);
    } else {
        let ua = units16(a[0]);
        let ub = units16(b[0]);
        lemma_units(a[0]);
        lemma_units(b[0]);
        assert(utf16(a)[0] == ua[0] && utf16(b)[0] == ub[0]);
        assert(ua.len() == ub.len());
        if ua.len() == 2 {
            assert(utf16(a)[1] == ua[1] && utf16(b)[1] == ub[1]);
        }
        assert(ua == ub);
        lemma_units_determine(a[0], b[0]);
        assert(utf16(a.drop_first()) == utf16(a).skip(ua.len() as int));
        assert(utf16(b.drop_first()) == utf16(b).skip(ub.len() as int));
        lemma_text_determined(a.drop_first(), b.drop_first());
        assert(a == seq![a[0]] + a.drop_first());
        assert(b == seq![b[0]] + b.drop_first());
    }
}

fn push_units(units: &mut Vec<u16>, c: char)
    ensures
        final(units)@ == old(units)@ + units16(c),
{
    let n = c as u32;
    if n < 0x1_0000 {
        units.push(n as u16);
    } else {
        units.push((0xd800 + (n - 0x1_0000) / 0x400) as u16);
        units.push((0xdc00 + (n - 0x1_0000) % 0x400) as u16);
    }
    assert(units@ == old(units)@ + units16(c));
}

fn units_len(c: char) -> (n: usize)
    ensures
        n == units16(c).len(),
{
    if (c as u32) < 0x1_0000 {
        1
    } else {
        2
    }
}

/// The code units of a text.
pub fn encode(cs: &Vec<char>) -> (units: Vec<u16>)
    ensures
        units@ == utf16(cs@),
{
    let mut units: Vec<u16> = Vec::new();
    assert(cs@.take(0) == Seq::<char>::empty());
    assert(units@ == utf16(cs@.take(0)));
    for i in 0..cs.len()
        invariant
            units@ == utf16(cs@.take(i as int)),
    {
        let c = cs[i];
        proof {
            assert(cs@.take(i + 1) == cs@.take(i as int).push(c));
            lemma_utf16_push(cs@.take(i as int), c);
        }
        push_units(&mut units, c);
    }
    assert(cs@.take(cs@.len() as int) == cs@);
    units
}

/// The text between two positions in code units, where no pair is cut.
pub fn slice(cs: &Vec<char>, from: usize, to: usize) -> (r: Option<Vec<char>>)
    requires
        from <= to <= utf16(cs@).len(),
        utf16(cs@).len() <= usize::MAX,
    ensures
        match r {
            Some(t) => decoded(utf16(cs@).subrange(from as int, to as int)) == Some(t@),
            None => decoded(utf16(cs@).subrange(from as int, to as int)) is None,
        },
{
    let ghost all = utf16(cs@);
    let ghost cut = all.subrange(from as int, to as int);
    let mut out: Vec<char> = Vec::new();
    if from == to {
        proof {
            assert(out@ == Seq::<char>::empty());
            assert(cut == utf16(out@));
            law_decoding_undoes_encoding(out@);
        }
        return Some(out);
    }
    let mut at: usize = 0;
    let mut i: usize = 0;
    assert(cs@.take(0) == Seq::<char>::empty());
    while i < cs.len() && at < from
        invariant
            i <= cs@.len(),
            at == utf16(cs@.take(i as int)).len(),
            at <= from + 1,
            from < to <= all.len(),
            all == utf16(cs@),
            all.len() <= usize::MAX,
            at > from ==> trails(all[from as int]),
        decreases cs@.len() - i,
    {
        proof {
            lemma_step(cs@, i as int);
        }
        at = at + units_len(cs[i]);
        i = i + 1;
    }
    proof {
        assert(i == cs@.len() ==> cs@.take(i as int) == cs@);
    }
    if at != from {
        proof {
            assert(cut[0] == all[from as int]);
            assert forall|t: Seq<char>| #[trigger] utf16(t) != cut by {
                if t.len() > 0 {
                    lemma_ends(t);
                }
            }
        }
        return None;
    }
    let ghost first = i as int;
    while i < cs.len() && at < to
        invariant
            first <= i <= cs@.len(),
            at == utf16(cs@.take(i as int)).len(),
            at <= to + 1,
            from < to <= all.len(),
            all == utf16(cs@),
            all.len() <= usize::MAX,
            from == utf16(cs@.take(first)).len(),
            0 <= first,
            out@ == cs@.subrange(first, i as int),
            at > to ==> leads(all[to - 1]),
        decreases cs@.len() - i,
    {
        proof {
            lemma_step(cs@, i as int);
            assert(cs@.subrange(first, i + 1) == cs@.subrange(first, i as int).push(cs@[i as int]));
        }
        at = at + units_len(cs[i]);
        out.push(cs[i]);
        i = i + 1;
    }
    proof {
        assert(i == cs@.len() ==> cs@.take(i as int) == cs@);
    }
    if at != to {
        proof {
            assert(cut.last() == all[to - 1]);
            assert forall|t: Seq<char>| #[trigger] utf16(t) != cut by {
                if t.len() > 0 {
                    lemma_ends(t);
                }
            }
        }
        return None;
    }
    proof {
        let head = cs@.take(first);
        let mid = out@;
        let tail = cs@.skip(i as int);
        assert(cs@ == head + mid + tail);
        lemma_utf16_adds(head + mid, tail);
        lemma_utf16_adds(head, mid);
        assert(cs@.take(i as int) == head + mid);
        assert(cut == utf16(mid));
        law_decoding_undoes_encoding(mid);
    }
    Some(out)
}

/// How the code units go on past the first `i` characters.
proof fn lemma_step(s: Seq<char>, i: int)
    requires
        0 <= i < s.len(),
    ensures
        ({
            let at = utf16(s.take(i)).len() as int;
            let n = units16(s[i]).len();
            &&& utf16(s.take(i + 1)).len() == at + n
            &&& at + n <= utf16(s).len()
            &&& (n == 1) == ((s[i] as int) < 0x1_0000)
            &&& n == 1 || n == 2
            &&& n == 2 ==> leads(utf16(s)[at]) && trails(utf16(s)[at + 1])
        }),
{
    let head = s.take(i);
    let tail = s.skip(i + 1);
    lemma_units(s[i]);
    assert(s.take(i + 1) == head.push(s[i]));
    lemma_utf16_push(head, s[i]);
    assert(s == head.push(s[i]) + tail);
    lemma_utf16_adds(head.push(s[i]), tail);
    let at = utf16(head).len() as int;
    if units16(s[i]).len() == 2 {
        assert(utf16(s)[at] == units16(s[i])[0]);
        assert(utf16(s)[at + 1] == units16(s[i])[1]);
    }
}

/// The law of code units: a character of the basic plane is its own code unit, and one
/// past it a pair that its number less that of the plane is split into, ten bits each.
pub proof fn law_code_units_spell_the_character(c: char)
    ensures
        (c as int) < 0x1_0000 ==> units16(c).len() == 1 && units16(c)[0] as int == c as int,
        c as int >= 0x1_0000 ==> units16(c).len() == 2 && 0xd800 <= units16(c)[0] < 0xdc00 && 0xdc00 <= units16(c)[1]
            < 0xe000 && c as int == 0x1_0000 + (units16(c)[0] - 0xd800) * 0x400 + (units16(c)[1] - 0xdc00),
{
}

/// The law of texts: the code units of a text are those of its first character and then
/// those of the rest; the empty text has none.
pub proof fn law_code_units_follow_the_characters(c: char, t: Seq<char>)
    ensures
        utf16(seq![c] + t) == units16(c) + utf16(t),
        utf16(Seq::empty()).len() == 0,
{
    assert((seq![c] + t).drop_first() =~= t);
}

} // verus!
