//! Character classes and case changes.
//!
//! The case of the ASCII letters is settled here. What Unicode says of any other
//! character is asked of the standard library.

use vstd::prelude::*;

verus! {

/// An ASCII letter.
pub open spec fn ascii_letter(c: char) -> bool {
    'A' <= c <= 'Z' || 'a' <= c <= 'z'
}

/// The lower-case form of an ASCII letter; any other character as it is.
pub open spec fn ascii_lower(c: char) -> char {
    if 'A' <= c <= 'Z' {
        ((c as int) + 32) as char
    } else {
        c
    }
}

/// The upper-case form of an ASCII letter; any other character as it is.
pub open spec fn ascii_upper(c: char) -> char {
    if 'a' <= c <= 'z' {
        ((c as int) - 32) as char
    } else {
        c
    }
}

/// Whether the character is an ASCII letter.
pub fn is_ascii_letter(c: char) -> (b: bool)
    ensures
        b == ascii_letter(c),
{
    ('A' <= c && c <= 'Z') || ('a' <= c && c <= 'z')
}

/// The lower-case form of an ASCII letter; any other character as it is.
pub fn to_lower(c: char) -> (r: char)
    ensures
        r == ascii_lower(c),
{
    if 'A' <= c && c <= 'Z' {
        ((c as u8) + 32) as char
    } else {
        c
    }
}

/// The upper-case form of an ASCII letter; any other character as it is.
pub fn to_upper(c: char) -> (r: char)
    ensures
        r == ascii_upper(c),
{
    if 'a' <= c && c <= 'z' {
        ((c as u8) - 32) as char
    } else {
        c
    }
}

/// A character with the Unicode property of white space.
pub open spec fn white_space(c: char) -> bool {
    let n = c as int;
    ||| 0x9 <= n <= 0xd
    ||| n == 0x20
    ||| n == 0x85
    ||| n == 0xa0
    ||| n == 0x1680
    ||| 0x2000 <= n <= 0x200a
    ||| n == 0x2028
    ||| n == 0x2029
    ||| n == 0x202f
    ||| n == 0x205f
    ||| n == 0x3000
}

/// Whether the character has the Unicode property of white space.
pub fn is_white_space(c: char) -> (b: bool)
    ensures
        b == white_space(c),
{
    let n = c as u32;
    (0x9 <= n && n <= 0xd) || n == 0x20 || n == 0x85 || n == 0xa0 || n == 0x1680 || (0x2000 <= n && n
        <= 0x200a) || n == 0x2028 || n == 0x2029 || n == 0x202f || n == 0x205f || n == 0x3000
}

/// The text without the white space at its start.
pub open spec fn trimmed_start(s: Seq<char>) -> Seq<char>
    decreases s.len(),
{
    if s.len() > 0 && white_space(s[0]) {
        trimmed_start(s.drop_first())
    } else {
        s
    }
}

/// The text without the white space at its end.
pub open spec fn trimmed_end(s: Seq<char>) -> Seq<char>
    decreases s.len(),
{
    if s.len() > 0 && white_space(s.last()) {
        trimmed_end(s.drop_last())
    } else {
        s
    }
}

/// The text without the white space around it.
pub open spec fn trimmed(s: Seq<char>) -> Seq<char> {
    trimmed_end(trimmed_start(s))
}

fn copy_range(v: &Vec<char>, from: usize, to: usize) -> (r: Vec<char>)
    requires
        from <= to <= v@.len(),
    ensures
        r@ == v@.subrange(from as int, to as int),
{
    let mut r: Vec<char> = Vec::new();
    for i in from..to
        invariant
            from <= to <= v@.len(),
            r@ == v@.subrange(from as int, i as int),
    {
        r.push(v[i]);
        assert(v@.subrange(from as int, i + 1) == v@.subrange(from as int, i as int).push(v@[i as int]));
    }
    r
}

/// The first `n` characters of a text, without the white space at their end.
pub fn trim_end(v: &Vec<char>, n: usize) -> (r: Vec<char>)
    requires
        n <= v@.len(),
    ensures
        r@ == trimmed_end(v@.take(n as int)),
{
    let mut end: usize = n;
    while end > 0 && is_white_space(v[end - 1])
        invariant
            end <= n <= v@.len(),
            trimmed_end(v@.take(n as int)) == trimmed_end(v@.take(end as int)),
        decreases end,
    {
        assert(v@.take(end as int).drop_last() == v@.take(end - 1));
        end = end - 1;
    }
    assert(v@.subrange(0, end as int) == v@.take(end as int));
    copy_range(v, 0, end)
}

/// The text without the white space around it.
pub fn trim(v: &Vec<char>) -> (r: Vec<char>)
    ensures
        r@ == trimmed(v@),
{
    let mut start: usize = 0;
    assert(v@.skip(0) == v@);
    while start < v.len() && is_white_space(v[start])
        invariant
            start <= v@.len(),
            trimmed_start(v@) == trimmed_start(v@.skip(start as int)),
        decreases v@.len() - start,
    {
        assert(v@.skip(start as int).drop_first() == v@.skip(start + 1));
        start = start + 1;
    }
    let rest = copy_range(v, start, v.len());
    assert(rest@ == v@.skip(start as int));
    assert(rest@.take(rest@.len() as int) == rest@);
    trim_end(&rest, rest.len())
}

/// Whether a character is alphabetic.
pub uninterp spec fn alphabetic(c: char) -> bool;

/// Whether a character is in lower case.
pub uninterp spec fn in_lower_case(c: char) -> bool;

/// Whether a character is in upper case.
pub uninterp spec fn in_upper_case(c: char) -> bool;

/// The lower-case form of a character.
pub uninterp spec fn lowercase(c: char) -> Seq<char>;

/// The upper-case form of a character.
pub uninterp spec fn uppercase(c: char) -> Seq<char>;

/// `char::is_alphabetic`: the result is a function of the character, named
/// [`alphabetic`]. Nothing is claimed of which characters are.
#[verifier::external_body]
fn char_is_alphabetic(c: char) -> (b: bool)
    ensures
        b == alphabetic(c),
{
    c.is_alphabetic()
}

/// `char::is_lowercase`: the result is a function of the character, named
/// [`in_lower_case`]. Nothing is claimed of which characters are.
#[verifier::external_body]
fn char_is_lowercase(c: char) -> (b: bool)
    ensures
        b == in_lower_case(c),
{
    c.is_lowercase()
}

/// `char::is_uppercase`: the result is a function of the character, named
/// [`in_upper_case`]. Nothing is claimed of which characters are.
#[verifier::external_body]
fn char_is_uppercase(c: char) -> (b: bool)
    ensures
        b == in_upper_case(c),
{
    c.is_uppercase()
}

/// `char::to_lowercase`, its characters collected: they are a function of the
/// character, named [`lowercase`]. Nothing is claimed of the mapping.
#[verifier::external_body]
fn char_to_lowercase(c: char) -> (r: Vec<char>)
    ensures
        r@ == lowercase(c),
{
    c.to_lowercase().collect()
}

/// `char::to_uppercase`, its characters collected: they are a function of the
/// character, named [`uppercase`]. Nothing is claimed of the mapping.
#[verifier::external_body]
fn char_to_uppercase(c: char) -> (r: Vec<char>)
    ensures
        r@ == uppercase(c),
{
    c.to_uppercase().collect()
}

/// A character outside of ASCII that carries case, given whether it is in lower or in
/// upper case and what its lower-case and upper-case forms are: it is in one of the two,
/// or one of the forms is another.
pub open spec fn cased_as(c: char, in_lower: bool, in_upper: bool, lower: Seq<char>, upper: Seq<char>) -> bool {
    c as int >= 128 && (in_lower || in_upper || lower != seq![c] || upper != seq![c])
}

/// A character outside of ASCII that carries case.
pub open spec fn cased(c: char) -> bool {
    cased_as(c, in_lower_case(c), in_upper_case(c), lowercase(c), uppercase(c))
}

fn is_alone(form: &Vec<char>, c: char) -> (b: bool)
    ensures
        b == (form@ == seq![c]),
{
    if form.len() == 1 && form[0] == c {
        assert(form@ == seq![c]);
        true
    } else {
        assert(form@ == seq![c] ==> form@.len() == 1 && form@[0] == c);
        false
    }
}

/// Whether a character outside of ASCII carries case, given whether it is in lower or in
/// upper case and what its lower-case and upper-case forms are.
pub fn is_cased_as(c: char, in_lower: bool, in_upper: bool, lower: &Vec<char>, upper: &Vec<char>) -> (b: bool)
    ensures
        b == cased_as(c, in_lower, in_upper, lower@, upper@),
{
    (c as u32) >= 128 && (in_lower || in_upper || !is_alone(lower, c) || !is_alone(upper, c))
}

/// Whether a character outside of ASCII carries case.
pub fn is_cased(c: char) -> (b: bool)
    ensures
        b == cased(c),
{
    if (c as u32) < 128 {
        return false;
    }
    is_cased_as(c, char_is_lowercase(c), char_is_uppercase(c), &char_to_lowercase(c), &char_to_uppercase(c))
}

/// A text with a character outside of ASCII that carries case.
pub open spec fn any_cased(t: Seq<char>) -> bool {
    exists|i: int| 0 <= i < t.len() && cased(#[trigger] t[i])
}

/// A character outside of ASCII that is a letter or has another lower-case form,
/// given whether it is alphabetic and what its lower-case form is. Only the start of
/// the lower-case form tells it from the character.
pub open spec fn unsettled(c: char, is_alphabetic: bool, lower: Seq<char>) -> bool {
    c as int >= 128 && (is_alphabetic || lower.len() == 0 || lower[0] != c)
}

/// A character whose case is not settled.
pub open spec fn unpinned(c: char) -> bool {
    unsettled(c, alphabetic(c), lowercase(c))
}

/// Whether a character outside of ASCII is a letter or has another lower-case
/// form, given whether it is alphabetic and what its lower-case form is.
pub fn is_unsettled(c: char, is_alphabetic: bool, lower: &Vec<char>) -> (b: bool)
    ensures
        b == unsettled(c, is_alphabetic, lower@),
{
    (c as u32) >= 128 && (is_alphabetic || lower.len() == 0 || lower[0] != c)
}

/// Whether the case of a character is not settled.
pub fn has_unsettled_case(c: char) -> (b: bool)
    ensures
        b == unpinned(c),
{
    if (c as u32) < 128 {
        return false;
    }
    is_unsettled(c, char_is_alphabetic(c), &char_to_lowercase(c))
}

/// A text with a character whose case is not settled.
pub open spec fn any_unpinned(t: Seq<char>) -> bool {
    exists|i: int| 0 <= i < t.len() && unpinned(#[trigger] t[i])
}

/// Changing the case of ASCII letters keeps letters letters, and undoes an
/// earlier change.
pub proof fn lemma_case(c: char)
    ensures
        ascii_letter(ascii_lower(c)) == ascii_letter(c),
        ascii_letter(ascii_upper(c)) == ascii_letter(c),
        ascii_lower(ascii_lower(c)) == ascii_lower(c),
        ascii_upper(ascii_upper(c)) == ascii_upper(c),
        ascii_lower(ascii_upper(c)) == ascii_lower(c),
        ascii_upper(ascii_lower(c)) == ascii_upper(c),
        (c as int) < 128 ==> (ascii_lower(c) as int) < 128 && (ascii_upper(c) as int) < 128,
        c as int >= 128 ==> ascii_lower(c) == c && ascii_upper(c) == c,
{
}

/// The law of trimming: what is left neither begins nor ends with white space, and what
/// is dropped before and after it is nothing but white space.
pub proof fn law_trimming_drops_only_white_space(s: Seq<char>)
    ensures
        trimmed(s).len() > 0 ==> !white_space(trimmed(s)[0]) && !white_space(trimmed(s).last()),
        exists|a: int, b: int|
            0 <= a <= b <= s.len() && trimmed(s) == #[trigger] s.subrange(a, b) && (forall|i: int|
                0 <= i < a || b <= i < s.len() ==> white_space(#[trigger] s[i])),
{
    let a = lemma_start(s);
    let rest = s.subrange(a, s.len() as int);
    let b = lemma_end(rest);
    assert(rest.take(b) =~= s.subrange(a, a + b));
    assert forall|i: int| 0 <= i < a || a + b <= i < s.len() implies white_space(#[trigger] s[i]) by {
        if i >= a + b {
            assert(rest[i - a] == s[i]);
        }
    }
    assert(trimmed(s) == s.subrange(a, a + b));
    if trimmed(s).len() > 0 {
        assert(trimmed(s)[0] == rest[0]);
    }
}

/// Where the text without the white space at its start begins.
proof fn lemma_start(s: Seq<char>) -> (a: int)
    ensures
        0 <= a <= s.len(),
        trimmed_start(s) == s.subrange(a, s.len() as int),
        forall|i: int| 0 <= i < a ==> white_space(#[trigger] s[i]),
        a < s.len() ==> !white_space(s[a]),
    decreases s.len(),
{
    if s.len() > 0 && white_space(s[0]) {
        let rest = s.drop_first();
        let a = lemma_start(rest);
        assert(rest.subrange(a, rest.len() as int) =~= s.subrange(a + 1, s.len() as int));
        assert forall|i: int| 0 <= i < a + 1 implies white_space(#[trigger] s[i]) by {
            if i > 0 {
                assert(rest[i - 1] == s[i]);
            }
        }
        a + 1
    } else {
        assert(s.subrange(0, s.len() as int) =~= s);
        0
    }
}

/// Where the text without the white space at its end ends.
proof fn lemma_end(s: Seq<char>) -> (b: int)
    ensures
        0 <= b <= s.len(),
        trimmed_end(s) == s.take(b),
        forall|i: int| b <= i < s.len() ==> white_space(#[trigger] s[i]),
        b > 0 ==> !white_space(s[b - 1]),
    decreases s.len(),
{
    if s.len() > 0 && white_space(s.last()) {
        let rest = s.drop_last();
        let b = lemma_end(rest);
        assert(rest.take(b) =~= s.take(b));
        assert forall|i: int| b <= i < s.len() implies white_space(#[trigger] s[i]) by {
            if i < s.len() - 1 {
                assert(rest[i] == s[i]);
            }
        }
        b
    } else {
        assert(s.take(s.len() as int) =~= s);
        s.len() as int
    }
}

/// The law of case: the lower-case form of a capital is the letter 32 places on and the
/// upper-case form of a small letter the one 32 places back; any other character has
/// itself for both forms.
pub proof fn law_case_moves_ascii_letters(c: char)
    ensures
        'A' <= c <= 'Z' ==> ascii_lower(c) as int == c as int + 32 && ascii_upper(c) == c && ascii_letter(c),
        'a' <= c <= 'z' ==> ascii_upper(c) as int == c as int - 32 && ascii_lower(c) == c && ascii_letter(c),
        !('A' <= c <= 'Z') && !('a' <= c <= 'z') ==> ascii_lower(c) == c && ascii_upper(c) == c && !ascii_letter(c),
{
}

/// The law of white space: the control characters from tab to carriage return, the space,
/// the next line and the spaces of Unicode are white space, the one that does not break a
/// line among them; no other character of ASCII is, so that no letter, digit or colon is.
pub proof fn law_white_space_is_more_than_blanks(c: char)
    ensures
        (c as int) < 128 ==> (white_space(c) <==> c == ' ' || 9 <= c as int <= 13),
        c as int == 0x85 || c as int == 0xa0 || c as int == 0x1680 || 0x2000 <= c as int <= 0x200a || c as int == 0x2028
            || c as int == 0x2029 || c as int == 0x202f || c as int == 0x205f || c as int == 0x3000 ==> white_space(c),
        white_space(c) ==> c as int <= 0x3000,
{
}

} // verus!
