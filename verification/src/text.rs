//! Texts as sequences of characters.

use crate::octets::{equal, equal_ignoring_case, lemma_octets_injective, octets, same_but_for_case};
use vstd::prelude::*;
use vstd::string::*;

verus! {

/// The white space of Unicode, the characters with the property `White_Space`.
pub open spec fn is_white_space(c: char) -> bool {
    ||| '\u{9}' <= c <= '\u{d}'
    ||| c == '\u{20}'
    ||| c == '\u{85}'
    ||| c == '\u{a0}'
    ||| c == '\u{1680}'
    ||| '\u{2000}' <= c <= '\u{200a}'
    ||| c == '\u{2028}'
    ||| c == '\u{2029}'
    ||| c == '\u{202f}'
    ||| c == '\u{205f}'
    ||| c == '\u{3000}'
}

/// Where a text starts once the white space that opens it is left out.
pub open spec fn trim_start(s: Seq<char>, from: int) -> int
    decreases s.len() - from,
{
    if 0 <= from < s.len() && is_white_space(s[from]) {
        trim_start(s, from + 1)
    } else {
        from
    }
}

/// Where a text ends once the white space that closes it is left out, at `from` at the earliest.
pub open spec fn trim_end(s: Seq<char>, from: int, end: int) -> int
    decreases end - from,
{
    if 0 <= from < end <= s.len() && is_white_space(s[end - 1]) {
        trim_end(s, from, end - 1)
    } else {
        end
    }
}

/// A text without the white space that opens and closes it.
pub open spec fn trimmed_text(s: Seq<char>) -> Seq<char> {
    let start = trim_start(s, 0);
    s.subrange(start, trim_end(s, start, s.len() as int))
}

/// The first position from `from` on that holds `c`, or the length where none does.
pub open spec fn char_position(s: Seq<char>, c: char, from: int) -> int
    decreases s.len() - from,
{
    if from >= s.len() || from < 0 {
        s.len() as int
    } else if s[from] == c {
        from
    } else {
        char_position(s, c, from + 1)
    }
}

/// The lower-case form of an ASCII letter, and any other character as it is.
pub open spec fn lower_char(c: char) -> char {
    if 'A' <= c <= 'Z' {
        (c as u32 + 32) as char
    } else {
        c
    }
}

/// A text with every ASCII letter in lower case.
pub open spec fn lowered_text(s: Seq<char>) -> Seq<char> {
    Seq::new(s.len(), |i: int| lower_char(s[i]))
}

pub proof fn lemma_trim_bounds(s: Seq<char>, from: int)
    requires
        0 <= from <= s.len(),
    ensures
        from <= trim_start(s, from) <= s.len(),
    decreases s.len() - from,
{
    if from < s.len() && is_white_space(s[from]) {
        lemma_trim_bounds(s, from + 1);
    }
}

pub proof fn lemma_trim_end_bounds(s: Seq<char>, from: int, end: int)
    requires
        0 <= from <= end <= s.len(),
    ensures
        from <= trim_end(s, from, end) <= end,
    decreases end - from,
{
    if from < end && is_white_space(s[end - 1]) {
        lemma_trim_end_bounds(s, from, end - 1);
    }
}

pub proof fn lemma_char_position(s: Seq<char>, c: char, from: int)
    requires
        0 <= from <= s.len(),
    ensures
        from <= char_position(s, c, from) <= s.len(),
        char_position(s, c, from) < s.len() ==> s[char_position(s, c, from)] == c,
        forall|i: int| from <= i < char_position(s, c, from) ==> #[trigger] s[i] != c,
    decreases s.len() - from,
{
    if from < s.len() && s[from] != c {
        lemma_char_position(s, c, from + 1);
    }
}

/// The characters of a text.
pub fn chars_of(s: &str) -> (r: Vec<char>)
    ensures
        r@ == s@,
{
    let mut out: Vec<char> = Vec::new();
    for c in it: s.chars()
        invariant
            out@ == it.seq().take(it.index()),
            it.seq() == s@,
    {
        out.push(c);
    }
    assert(out@ =~= s@);
    out
}

/// Whether a character is white space.
pub fn white_space(c: char) -> (r: bool)
    ensures
        r == is_white_space(c),
{
    ('\u{9}' <= c && c <= '\u{d}') || c == '\u{20}' || c == '\u{85}' || c == '\u{a0}' || c
        == '\u{1680}' || ('\u{2000}' <= c && c <= '\u{200a}') || c == '\u{2028}' || c == '\u{2029}'
        || c == '\u{202f}' || c == '\u{205f}' || c == '\u{3000}'
}

/// The bounds of what is left of `from..to` without the white space that opens and closes it.
pub fn trim_bounds(s: &Vec<char>, from: usize, to: usize) -> (r: (usize, usize))
    requires
        from <= to <= s.len(),
    ensures
        from <= r.0 <= r.1 <= to,
        s@.subrange(r.0 as int, r.1 as int) == trimmed_text(s@.subrange(from as int, to as int)),
{
    let ghost part = s@.subrange(from as int, to as int);
    let mut start: usize = from;
    while start < to && white_space(s[start])
        invariant
            from <= start <= to <= s.len(),
            part == s@.subrange(from as int, to as int),
            trim_start(part, 0) == trim_start(part, start - from),
        decreases to - start,
    {
        assert(part[start - from] == s@[start as int]);
        start = start + 1;
    }
    assert(start < to ==> part[start - from] == s@[start as int]);
    assert(trim_start(part, 0) == start - from);
    let mut end: usize = to;
    while end > start && white_space(s[end - 1])
        invariant
            from <= start <= end <= to <= s.len(),
            part == s@.subrange(from as int, to as int),
            trim_end(part, start - from, part.len() as int) == trim_end(
                part,
                start - from,
                end - from,
            ),
        decreases end - start,
    {
        assert(part[end - from - 1] == s@[end - 1]);
        end = end - 1;
    }
    assert(end > start ==> part[end - from - 1] == s@[end - 1]);
    assert(s@.subrange(start as int, end as int) =~= part.subrange(start - from, end - from));
    (start, end)
}

/// The first position that holds the character, `to` at the latest.
pub fn find_char(s: &Vec<char>, c: char, from: usize, to: usize) -> (r: usize)
    requires
        from <= to <= s.len(),
    ensures
        from <= r <= to,
        r - from == char_position(s@.subrange(from as int, to as int), c, 0),
        r < to ==> s@[r as int] == c,
{
    let ghost part = s@.subrange(from as int, to as int);
    let mut i: usize = from;
    while i < to
        invariant
            from <= i <= to <= s.len(),
            part == s@.subrange(from as int, to as int),
            char_position(part, c, 0) == char_position(part, c, i - from),
        decreases to - i,
    {
        assert(part[i - from] == s@[i as int]);
        if s[i] == c {
            return i;
        }
        i = i + 1;
    }
    i
}

/// The lower-case form of a character that is an ASCII letter.
pub fn to_lower_char(c: char) -> (r: char)
    ensures
        r == lower_char(c),
{
    if 'A' <= c && c <= 'Z' {
        let code: u8 = c as u8;
        (code + 32) as char
    } else {
        c
    }
}

/// Whether `from..to` spells the text, whatever the case of its ASCII letters.
pub fn spells(s: &Vec<char>, from: usize, to: usize, text: &str) -> (r: bool)
    requires
        from <= to <= s.len(),
    ensures
        r == (lowered_text(s@.subrange(from as int, to as int)) == lowered_text(text@)),
{
    let wanted = chars_of(text);
    let ghost part = s@.subrange(from as int, to as int);
    if wanted.len() != to - from {
        assert(lowered_text(part).len() != lowered_text(text@).len());
        return false;
    }
    let mut i: usize = 0;
    while i < wanted.len()
        invariant
            i <= wanted.len(),
            from <= to <= s.len(),
            wanted.len() == to - from,
            wanted@ == text@,
            part == s@.subrange(from as int, to as int),
            forall|j: int| 0 <= j < i ==> lower_char(part[j]) == lower_char(wanted@[j]),
        decreases wanted.len() - i,
    {
        assert(part[i as int] == s@[from + i]);
        if to_lower_char(s[from + i]) != to_lower_char(wanted[i]) {
            assert(lowered_text(part)[i as int] != lowered_text(text@)[i as int]);
            return false;
        }
        i = i + 1;
    }
    assert(lowered_text(part) =~= lowered_text(text@));
    true
}

/// Whether every character is a decimal digit and there is at least one.
pub open spec fn is_decimal_text(s: Seq<char>) -> bool {
    s.len() > 0 && forall|i: int| 0 <= i < s.len() ==> '0' <= #[trigger] s[i] <= '9'
}

/// The number that decimal digits spell.
pub open spec fn decimal_text_value(s: Seq<char>) -> nat
    decreases s.len(),
{
    if s.len() == 0 {
        0
    } else {
        decimal_text_value(s.drop_last()) * 10 + (s.last() as u32 - '0' as u32) as nat
    }
}

proof fn lemma_decimal_text_grows(s: Seq<char>, n: int)
    requires
        0 <= n <= s.len(),
    ensures
        decimal_text_value(s.take(n)) <= decimal_text_value(s),
    decreases s.len(),
{
    if n == s.len() {
        assert(s.take(n) =~= s);
    } else {
        let shorter = s.drop_last();
        lemma_decimal_text_grows(shorter, n);
        assert(shorter.take(n) =~= s.take(n));
    }
}

/// The number that the decimal digits in `from..to` spell, where they are digits alone and the
/// number fits.
pub fn wide_decimal_text(s: &Vec<char>, from: usize, to: usize) -> (r: Option<u128>)
    requires
        from <= to <= s.len(),
    ensures
        ({
            let part = s@.subrange(from as int, to as int);
            match r {
                Some(n) => is_decimal_text(part) && decimal_text_value(part) == n,
                None => !is_decimal_text(part) || decimal_text_value(part) > u128::MAX,
            }
        }),
{
    let ghost part = s@.subrange(from as int, to as int);
    if from == to {
        return None;
    }
    let mut value: u128 = 0;
    let mut i: usize = from;
    while i < to
        invariant
            from <= i <= to <= s.len(),
            from < to,
            part == s@.subrange(from as int, to as int),
            value == decimal_text_value(part.take(i - from)),
            forall|j: int| 0 <= j < i - from ==> '0' <= #[trigger] part[j] <= '9',
        decreases to - i,
    {
        let c = s[i];
        assert(part[i - from] == c);
        if !('0' <= c && c <= '9') {
            return None;
        }
        let digit: u128 = (c as u8 - 0x30) as u128;
        let ghost next = part.take(i - from + 1);
        assert(next.drop_last() =~= part.take(i - from));
        assert(decimal_text_value(next) == value * 10 + digit);
        if value > (u128::MAX - digit) / 10 {
            proof {
                assert(value * 10 + digit > u128::MAX);
                lemma_decimal_text_grows(part, i - from + 1);
            }
            return None;
        }
        value = value * 10 + digit;
        i = i + 1;
    }
    assert(part.take(to - from) =~= part);
    Some(value)
}

/// The number that the decimal digits in `from..to` spell, where they are digits alone and the
/// number fits in 64 bits.
pub fn parse_decimal_text(s: &Vec<char>, from: usize, to: usize) -> (r: Option<u64>)
    requires
        from <= to <= s.len(),
    ensures
        ({
            let part = s@.subrange(from as int, to as int);
            match r {
                Some(n) => is_decimal_text(part) && decimal_text_value(part) == n,
                None => !is_decimal_text(part) || decimal_text_value(part) > u64::MAX,
            }
        }),
{
    match wide_decimal_text(s, from, to) {
        Some(n) => if n <= u64::MAX as u128 {
            Some(n as u64)
        } else {
            None
        },
        None => None,
    }
}

/// The text that characters spell.
///
/// Calls the `FromIterator` of `String` over characters, which keeps them in order.
#[verifier::external_body]
pub(crate) fn string_of(s: &Vec<char>) -> (r: String)
    ensures
        r@ == s@,
{
    String::from_iter(s.iter())
}

/// Whether two texts are the same.
pub fn same_text(a: &str, b: &str) -> (r: bool)
    ensures
        r == (a@ == b@),
{
    let r = equal(a.as_bytes(), b.as_bytes());
    proof {
        if r {
            lemma_octets_injective(a@, b@);
        }
    }
    r
}

/// Whether two texts differ at most in the case of ASCII letters.
pub fn same_ignoring_case(a: &str, b: &str) -> (r: bool)
    ensures
        r == same_but_for_case(octets(a@), octets(b@)),
{
    equal_ignoring_case(a.as_bytes(), b.as_bytes())
}

} // verus!
