//! Octet sequences, ASCII text, and the conversions between octets and strings.

use vstd::prelude::*;
use vstd::slice::slice_subrange;
use vstd::slice::slice_to_vec;
use vstd::utf8::*;

verus! {

/// The lower-case form of an ASCII letter, and any other octet as it is.
pub open spec fn lower(b: u8) -> u8 {
    if 0x41 <= b <= 0x5a {
        (b + 0x20) as u8
    } else {
        b
    }
}

/// A sequence with every ASCII letter in lower case.
pub open spec fn lowered(s: Seq<u8>) -> Seq<u8> {
    Seq::new(s.len(), |i: int| lower(s[i]))
}

/// Whether two sequences differ at most in the case of ASCII letters.
pub open spec fn same_but_for_case(a: Seq<u8>, b: Seq<u8>) -> bool {
    lowered(a) == lowered(b)
}

/// Whether octets spell a word that is given in lower case, with its letters in either case.
pub open spec fn spells_word(s: Seq<u8>, word: Seq<u8>) -> bool {
    &&& s.len() == word.len()
    &&& forall|i: int|
        0 <= i < s.len() ==> #[trigger] s[i] == word[i] || (0x61 <= word[i] <= 0x7a && s[i]
            == word[i] - 0x20)
}

/// The octets of a text.
pub open spec fn octets(text: Seq<char>) -> Seq<u8> {
    encode_utf8(text)
}

/// Whether every octet is ASCII.
pub open spec fn is_ascii(s: Seq<u8>) -> bool {
    forall|i: int| 0 <= i < s.len() ==> #[trigger] s[i] < 0x80
}

/// The text that a sequence of ASCII octets spells.
pub open spec fn ascii_text(s: Seq<u8>) -> Seq<char> {
    Seq::new(s.len(), |i: int| s[i] as char)
}

/// The first position from `from` on that holds `b`, or the length where none does.
pub open spec fn position(s: Seq<u8>, b: u8, from: int) -> int
    decreases s.len() - from,
{
    if from >= s.len() || from < 0 {
        s.len() as int
    } else if s[from] == b {
        from
    } else {
        position(s, b, from + 1)
    }
}

/// The first position from `from` on at which CR LF stands, or the length where it does nowhere.
pub open spec fn crlf_position(s: Seq<u8>, from: int) -> int
    decreases s.len() - from,
{
    if from < 0 || from + 2 > s.len() {
        s.len() as int
    } else if s[from] == 0x0d && s[from + 1] == 0x0a {
        from
    } else {
        crlf_position(s, from + 1)
    }
}

/// ASCII white space: space, tab, line feed, form feed, and carriage return.
pub open spec fn is_white(b: u8) -> bool {
    b == 0x20 || b == 0x09 || b == 0x0a || b == 0x0c || b == 0x0d
}

/// How many octets of white space open the sequence.
pub open spec fn leading_white(s: Seq<u8>) -> nat
    decreases s.len(),
{
    if s.len() > 0 && is_white(s[0]) {
        1 + leading_white(s.skip(1))
    } else {
        0
    }
}

/// How many octets of white space close the sequence.
pub open spec fn trailing_white(s: Seq<u8>) -> nat
    decreases s.len(),
{
    if s.len() > 0 && is_white(s.last()) {
        1 + trailing_white(s.drop_last())
    } else {
        0
    }
}

/// A sequence without the white space that opens and closes it.
pub open spec fn trimmed(s: Seq<u8>) -> Seq<u8> {
    let rest = s.skip(leading_white(s) as int);
    rest.take(rest.len() - trailing_white(rest))
}

/// Whether octets are visible ASCII alone.
pub open spec fn is_visible(s: Seq<u8>) -> bool {
    forall|i: int| 0 <= i < s.len() ==> 0x20 < #[trigger] s[i] < 0x7f
}

/// Whether white space neither opens nor closes octets.
pub open spec fn is_trim(s: Seq<u8>) -> bool {
    s.len() > 0 ==> !is_white(s[0]) && !is_white(s.last())
}

/// Whether an octet is a decimal digit.
pub open spec fn is_digit(b: u8) -> bool {
    0x30 <= b <= 0x39
}

/// The number that decimal digits spell.
pub open spec fn decimal_value(s: Seq<u8>) -> nat
    decreases s.len(),
{
    if s.len() == 0 {
        0
    } else {
        decimal_value(s.drop_last()) * 10 + (s.last() - 0x30) as nat
    }
}

/// The shortest decimal spelling of a number.
pub open spec fn decimal(n: nat) -> Seq<u8>
    decreases n,
{
    if n < 10 {
        seq![(0x30 + n) as u8]
    } else {
        decimal(n / 10).push((0x30 + n % 10) as u8)
    }
}

/// Whether every octet is a decimal digit and there is at least one.
pub open spec fn is_decimal(s: Seq<u8>) -> bool {
    s.len() > 0 && forall|i: int| 0 <= i < s.len() ==> is_digit(#[trigger] s[i])
}

pub proof fn lemma_position(s: Seq<u8>, b: u8, from: int)
    requires
        0 <= from <= s.len(),
    ensures
        from <= position(s, b, from) <= s.len(),
        position(s, b, from) < s.len() ==> s[position(s, b, from)] == b,
        forall|i: int| from <= i < position(s, b, from) ==> #[trigger] s[i] != b,
    decreases s.len() - from,
{
    if from < s.len() && s[from] != b {
        lemma_position(s, b, from + 1);
    }
}

/// A position with the octet, and none before it with the octet, is the first.
pub proof fn lemma_position_is(s: Seq<u8>, b: u8, from: int, at: int)
    requires
        0 <= from <= at <= s.len(),
        at < s.len() ==> s[at] == b,
        forall|i: int| from <= i < at ==> #[trigger] s[i] != b,
    ensures
        position(s, b, from) == at,
    decreases s.len() - from,
{
    if from < at {
        assert(s[from] != b);
        lemma_position_is(s, b, from + 1, at);
    }
}

pub proof fn lemma_crlf_position(s: Seq<u8>, from: int)
    requires
        0 <= from <= s.len(),
    ensures
        from <= crlf_position(s, from) <= s.len(),
        crlf_position(s, from) < s.len() ==> crlf_position(s, from) + 2 <= s.len()
            && s[crlf_position(s, from)] == 0x0d && s[crlf_position(s, from) + 1] == 0x0a,
        forall|i: int|
            from <= i < crlf_position(s, from) && i + 1 < s.len() ==> !(#[trigger] s[i] == 0x0d
                && s[i + 1] == 0x0a),
    decreases s.len() - from,
{
    if from + 2 <= s.len() && !(s[from] == 0x0d && s[from + 1] == 0x0a) {
        lemma_crlf_position(s, from + 1);
    }
}

/// A position with CR LF, and none before it with CR LF, is the first.
pub proof fn lemma_crlf_position_is(s: Seq<u8>, from: int, at: int)
    requires
        0 <= from <= at,
        at + 2 <= s.len(),
        s[at] == 0x0d,
        s[at + 1] == 0x0a,
        forall|i: int| from <= i < at ==> !(#[trigger] s[i] == 0x0d && s[i + 1] == 0x0a),
    ensures
        crlf_position(s, from) == at,
    decreases s.len() - from,
{
    if from < at {
        assert(!(s[from] == 0x0d && s[from + 1] == 0x0a));
        lemma_crlf_position_is(s, from + 1, at);
    }
}

pub proof fn lemma_leading_white(s: Seq<u8>)
    ensures
        leading_white(s) <= s.len(),
        forall|i: int| 0 <= i < leading_white(s) ==> is_white(#[trigger] s[i]),
        leading_white(s) < s.len() ==> !is_white(s[leading_white(s) as int]),
    decreases s.len(),
{
    if s.len() > 0 && is_white(s[0]) {
        lemma_leading_white(s.skip(1));
        assert forall|i: int| 0 <= i < leading_white(s) implies is_white(#[trigger] s[i]) by {
            if i > 0 {
                assert(s.skip(1)[i - 1] == s[i]);
            }
        }
    }
}

pub proof fn lemma_trailing_white(s: Seq<u8>)
    ensures
        trailing_white(s) <= s.len(),
        forall|i: int| s.len() - trailing_white(s) <= i < s.len() ==> is_white(#[trigger] s[i]),
        trailing_white(s) < s.len() ==> !is_white(s[s.len() - trailing_white(s) - 1]),
    decreases s.len(),
{
    if s.len() > 0 && is_white(s.last()) {
        let shorter = s.drop_last();
        lemma_trailing_white(shorter);
        assert forall|i: int| s.len() - trailing_white(s) <= i < s.len() implies is_white(
            #[trigger] s[i],
        ) by {
            if i < s.len() - 1 {
                assert(s[i] == shorter[i]);
            }
        }
    }
}

/// White space up to a position that holds none is all that opens the sequence.
pub proof fn lemma_leading_white_is(s: Seq<u8>, n: int)
    requires
        0 <= n <= s.len(),
        forall|i: int| 0 <= i < n ==> is_white(#[trigger] s[i]),
        n < s.len() ==> !is_white(s[n]),
    ensures
        leading_white(s) == n,
    decreases s.len(),
{
    if n > 0 {
        assert(is_white(s[0]));
        assert forall|i: int| 0 <= i < n - 1 implies is_white(#[trigger] s.skip(1)[i]) by {
            assert(s.skip(1)[i] == s[i + 1]);
        }
        lemma_leading_white_is(s.skip(1), n - 1);
    }
}

/// White space down to a position that holds none is all that closes the sequence.
pub proof fn lemma_trailing_white_is(s: Seq<u8>, n: int)
    requires
        0 <= n <= s.len(),
        forall|i: int| s.len() - n <= i < s.len() ==> is_white(#[trigger] s[i]),
        n < s.len() ==> !is_white(s[s.len() - n - 1]),
    ensures
        trailing_white(s) == n,
    decreases s.len(),
{
    if n > 0 {
        assert(is_white(s[s.len() - 1]));
        lemma_trailing_white_is(s.drop_last(), n - 1);
    }
}

/// A sequence that neither opens nor closes with white space is its own trimmed form.
pub proof fn lemma_trimmed_same(s: Seq<u8>)
    requires
        s.len() > 0 ==> !is_white(s[0]) && !is_white(s.last()),
    ensures
        trimmed(s) == s,
{
    lemma_leading_white_is(s, 0);
    assert(s.skip(0) =~= s);
    lemma_trailing_white_is(s, 0);
    assert(s.take(s.len() as int) =~= s);
}

/// White space neither opens nor closes a trimmed form.
pub proof fn lemma_trimmed_is_trim(s: Seq<u8>)
    ensures
        is_trim(trimmed(s)),
{
    lemma_leading_white(s);
    let rest = s.skip(leading_white(s) as int);
    lemma_trailing_white(rest);
    let short = trimmed(s);
    if short.len() > 0 {
        assert(short[0] == s[leading_white(s) as int]);
        assert(short.last() == rest[rest.len() - trailing_white(rest) - 1]);
    }
}

/// The trimmed form of a sequence with white space around it is that of the sequence.
pub proof fn lemma_trimmed_between(before: Seq<u8>, s: Seq<u8>, after: Seq<u8>)
    requires
        forall|i: int| 0 <= i < before.len() ==> is_white(#[trigger] before[i]),
        forall|i: int| 0 <= i < after.len() ==> is_white(#[trigger] after[i]),
        s.len() > 0,
        !is_white(s[0]),
        !is_white(s.last()),
    ensures
        trimmed(before + s + after) == s,
{
    let whole = before + s + after;
    assert(whole[before.len() as int] == s[0]);
    lemma_leading_white_is(whole, before.len() as int);
    let rest = whole.skip(before.len() as int);
    assert(rest =~= s + after);
    assert(rest[rest.len() - after.len() - 1] == s.last());
    lemma_trailing_white_is(rest, after.len() as int);
    assert(rest.take(rest.len() - after.len()) =~= s);
}

pub proof fn lemma_decimal(n: nat)
    ensures
        is_decimal(decimal(n)),
        decimal_value(decimal(n)) == n,
    decreases n,
{
    if n >= 10 {
        lemma_decimal(n / 10);
        let s = decimal(n);
        assert(s.drop_last() =~= decimal(n / 10));
        assert forall|i: int| 0 <= i < s.len() implies is_digit(#[trigger] s[i]) by {
            if i < s.len() - 1 {
                assert(s[i] == decimal(n / 10)[i]);
            }
        }
    } else {
        let s = decimal(n);
        assert(s.drop_last() =~= Seq::<u8>::empty());
        assert(decimal_value(s.drop_last()) == 0);
    }
}

pub proof fn lemma_ascii_text(s: Seq<u8>)
    requires
        is_ascii(s),
    ensures
        octets(ascii_text(s)) == s,
        valid_utf8(s),
        decode_utf8(s) == ascii_text(s),
{
    let text = ascii_text(s);
    assert(is_ascii_chars(text));
    is_ascii_chars_encode_utf8(text);
    assert(octets(text) =~= s) by {
        assert forall|i: int| 0 <= i < s.len() implies octets(text)[i] == s[i] by {
            assert(text[i] as u8 == octets(text)[i]);
        }
    }
    encode_utf8_valid_utf8(text);
    encode_utf8_decode_utf8(text);
}

/// The octets of a text determine it.
pub proof fn lemma_octets_injective(a: Seq<char>, b: Seq<char>)
    requires
        octets(a) == octets(b),
    ensures
        a == b,
{
    encode_utf8_decode_utf8(a);
    encode_utf8_decode_utf8(b);
}

/// The lower-case form of an octet.
pub fn to_lower(b: u8) -> (r: u8)
    ensures
        r == lower(b),
{
    if 0x41 <= b && b <= 0x5a {
        b + 0x20
    } else {
        b
    }
}

/// Whether two slices hold the same octets.
pub fn equal(a: &[u8], b: &[u8]) -> (r: bool)
    ensures
        r == (a@ == b@),
{
    if a.len() != b.len() {
        return false;
    }
    let mut i: usize = 0;
    while i < a.len()
        invariant
            i <= a.len(),
            a.len() == b.len(),
            forall|j: int| 0 <= j < i ==> a@[j] == b@[j],
        decreases a.len() - i,
    {
        if a[i] != b[i] {
            return false;
        }
        i = i + 1;
    }
    assert(a@ =~= b@);
    true
}

/// Whether two slices differ at most in the case of ASCII letters.
pub fn equal_ignoring_case(a: &[u8], b: &[u8]) -> (r: bool)
    ensures
        r == same_but_for_case(a@, b@),
{
    if a.len() != b.len() {
        assert(lowered(a@).len() != lowered(b@).len());
        return false;
    }
    let mut i: usize = 0;
    while i < a.len()
        invariant
            i <= a.len(),
            a.len() == b.len(),
            forall|j: int| 0 <= j < i ==> lower(a@[j]) == lower(b@[j]),
        decreases a.len() - i,
    {
        if to_lower(a[i]) != to_lower(b[i]) {
            assert(lowered(a@)[i as int] != lowered(b@)[i as int]);
            return false;
        }
        i = i + 1;
    }
    assert(lowered(a@) =~= lowered(b@));
    true
}

/// Copies a slice with every ASCII letter in lower case.
pub fn to_lowered(s: &[u8]) -> (r: Vec<u8>)
    ensures
        r@ == lowered(s@),
{
    let mut out: Vec<u8> = Vec::new();
    let mut i: usize = 0;
    while i < s.len()
        invariant
            i <= s.len(),
            out@ == lowered(s@.take(i as int)),
        decreases s.len() - i,
    {
        out.push(to_lower(s[i]));
        i = i + 1;
        assert(out@ =~= lowered(s@.take(i as int)));
    }
    assert(s@.take(s.len() as int) =~= s@);
    out
}

/// Appends a slice.
pub fn append(out: &mut Vec<u8>, s: &[u8])
    ensures
        final(out)@ == old(out)@ + s@,
{
    out.extend_from_slice(s);
    assert(out@ =~= old(out)@ + s@);
}

/// Copies a slice.
pub fn copied(s: &[u8]) -> (r: Vec<u8>)
    ensures
        r@ == s@,
{
    slice_to_vec(s)
}

/// The first position that holds the octet.
pub fn find(s: &[u8], b: u8, from: usize) -> (r: usize)
    requires
        from <= s.len(),
    ensures
        r == position(s@, b, from as int),
        from <= r <= s.len(),
{
    let mut i: usize = from;
    while i < s.len()
        invariant
            from <= i <= s.len(),
            position(s@, b, from as int) == position(s@, b, i as int),
        decreases s.len() - i,
    {
        if s[i] == b {
            return i;
        }
        i = i + 1;
    }
    i
}

/// The first position at which CR LF stands.
pub fn find_crlf(s: &[u8], from: usize) -> (r: Option<usize>)
    requires
        from <= s.len(),
    ensures
        match r {
            Some(i) => i == crlf_position(s@, from as int) && from <= i && i + 2 <= s.len(),
            None => crlf_position(s@, from as int) == s.len(),
        },
{
    let mut i: usize = from;
    while s.len() - i >= 2
        invariant
            from <= i <= s.len(),
            crlf_position(s@, from as int) == crlf_position(s@, i as int),
        decreases s.len() - i,
    {
        if s[i] == 0x0d && s[i + 1] == 0x0a {
            return Some(i);
        }
        i = i + 1;
    }
    None
}

/// Whether an octet is ASCII white space.
pub fn white(b: u8) -> (r: bool)
    ensures
        r == is_white(b),
{
    b == 0x20 || b == 0x09 || b == 0x0a || b == 0x0c || b == 0x0d
}

/// A slice without the white space that opens and closes it.
pub fn trim(s: &[u8]) -> (r: &[u8])
    ensures
        r@ == trimmed(s@),
{
    let mut start: usize = 0;
    while start < s.len() && white(s[start])
        invariant
            start <= s.len(),
            forall|i: int| 0 <= i < start ==> is_white(#[trigger] s@[i]),
        decreases s.len() - start,
    {
        start = start + 1;
    }
    proof {
        lemma_leading_white_is(s@, start as int);
    }
    let ghost rest = s@.skip(start as int);
    let mut end: usize = s.len();
    while end > start && white(s[end - 1])
        invariant
            start <= end <= s.len(),
            rest == s@.skip(start as int),
            forall|i: int| end - start <= i < rest.len() ==> is_white(#[trigger] rest[i]),
        decreases end,
    {
        end = end - 1;
        assert(rest[end - start] == s@[end as int]);
    }
    proof {
        if end > start {
            assert(rest[end - start - 1] == s@[end - 1]);
        }
        lemma_trailing_white_is(rest, s.len() - end);
        assert(s@.subrange(start as int, end as int) =~= rest.take(end - start));
    }
    slice_subrange(s, start, end)
}

/// Copies the text that ASCII octets spell.
pub fn ascii_string(s: &[u8]) -> (r: String)
    requires
        is_ascii(s@),
    ensures
        r@ == ascii_text(s@),
        octets(r@) == s@,
{
    proof {
        lemma_ascii_text(s@);
    }
    match utf8_string(slice_to_vec(s)) {
        Some(text) => {
            proof {
                lemma_octets_injective(text@, ascii_text(s@));
            }
            text
        },
        None => String::new(),
    }
}

/// The text that octets spell in UTF-8, where they do.
///
/// Calls `String::from_utf8`, which succeeds on valid UTF-8 alone and keeps the octets.
#[verifier::external_body]
pub(crate) fn utf8_string(s: Vec<u8>) -> (r: Option<String>)
    ensures
        match r {
            Some(text) => valid_utf8(s@) && octets(text@) == s@,
            None => !valid_utf8(s@),
        },
{
    String::from_utf8(s).ok()
}

/// The text that octets spell in UTF-8, where they do.
///
/// Calls `std::str::from_utf8`, which succeeds on valid UTF-8 alone and keeps the octets.
#[verifier::external_body]
pub(crate) fn utf8_str(s: &[u8]) -> (r: Option<&str>)
    ensures
        match r {
            Some(text) => valid_utf8(s@) && octets(text@) == s@,
            None => !valid_utf8(s@),
        },
{
    std::str::from_utf8(s).ok()
}

/// The text that octets that are not UTF-8 are shown as, with what is malformed replaced.
pub uninterp spec fn replaced_text(s: Seq<u8>) -> Seq<char>;

/// The text that octets are shown as: the one that they spell in UTF-8, or one with what is
/// malformed replaced.
pub open spec fn lossy_text(s: Seq<u8>) -> Seq<char> {
    if valid_utf8(s) {
        decode_utf8(s)
    } else {
        replaced_text(s)
    }
}

/// The text that octets are shown as, with what is not UTF-8 replaced.
///
/// Calls `String::from_utf8_lossy`, which leaves valid UTF-8 as it is. How many replacement
/// characters stand for a malformed run is left unsaid.
#[verifier::external_body]
pub(crate) fn lossy(s: &[u8]) -> (r: String)
    ensures
        r@ == (if valid_utf8(s@) {
            decode_utf8(s@)
        } else {
            replaced_text(s@)
        }),
{
    String::from_utf8_lossy(s).into_owned()
}

/// The lower-case form of a text that is not ASCII, by the rules of Unicode.
pub uninterp spec fn unicode_lowercase(text: Seq<char>) -> Seq<char>;

/// The lower-case form of a text: of ASCII text the one with the case of its letters changed, and
/// of other text the one by the rules of Unicode.
pub open spec fn lowercase(text: Seq<char>) -> Seq<char> {
    if is_ascii(octets(text)) {
        ascii_text(lowered(octets(text)))
    } else {
        unicode_lowercase(text)
    }
}

/// The lower-case form of a text by the rules of Unicode.
///
/// Calls `str::to_lowercase`, which on ASCII text changes the case of letters alone.
#[verifier::external_body]
pub(crate) fn to_lowercase(text: &str) -> (r: String)
    ensures
        r@ == (if is_ascii(octets(text@)) {
            ascii_text(lowered(octets(text@)))
        } else {
            unicode_lowercase(text@)
        }),
{
    text.to_lowercase()
}

/// Lower-case forms stay as they are.
pub proof fn lemma_lowercase_stays(text: Seq<char>)
    requires
        is_ascii(octets(text)),
    ensures
        is_ascii(octets(lowercase(text))),
        octets(lowercase(text)) == lowered(octets(text)),
        lowercase(lowercase(text)) == lowercase(text),
{
    let low = lowered(octets(text));
    assert forall|i: int| 0 <= i < low.len() implies #[trigger] low[i] < 0x80 by {
        assert(octets(text)[i] < 0x80);
    }
    lemma_ascii_text(low);
    assert(lowered(low) =~= low);
}

/// The decimal spelling of a number.
pub fn decimal_octets(n: u64) -> (r: Vec<u8>)
    ensures
        r@ == decimal(n as nat),
{
    wide_decimal_octets(n as u128)
}

/// The decimal spelling of a wide number.
pub fn wide_decimal_octets(n: u128) -> (r: Vec<u8>)
    ensures
        r@ == decimal(n as nat),
    decreases n,
{
    if n < 10 {
        let mut out: Vec<u8> = Vec::new();
        out.push(0x30 + n as u8);
        assert(out@ =~= decimal(n as nat));
        out
    } else {
        let mut out = wide_decimal_octets(n / 10);
        out.push(0x30 + (n % 10) as u8);
        out
    }
}

/// The number that decimal digits spell, where they are digits alone and the number fits.
pub fn parse_decimal(s: &[u8]) -> (r: Option<u64>)
    ensures
        match r {
            Some(n) => is_decimal(s@) && decimal_value(s@) == n,
            None => !is_decimal(s@) || decimal_value(s@) > u64::MAX,
        },
{
    if s.len() == 0 {
        return None;
    }
    let mut value: u64 = 0;
    let mut i: usize = 0;
    while i < s.len()
        invariant
            i <= s.len(),
            s.len() > 0,
            value == decimal_value(s@.take(i as int)),
            forall|j: int| 0 <= j < i ==> is_digit(#[trigger] s@[j]),
        decreases s.len() - i,
    {
        let b = s[i];
        if !(0x30 <= b && b <= 0x39) {
            assert(!is_digit(s@[i as int]));
            return None;
        }
        let digit: u64 = (b - 0x30) as u64;
        let ghost next = s@.take(i + 1);
        assert(next.drop_last() =~= s@.take(i as int));
        assert(decimal_value(next) == value * 10 + digit);
        if value > (u64::MAX - digit) / 10 {
            proof {
                assert(value * 10 + digit > u64::MAX);
                lemma_decimal_value_grows(s@, i + 1);
            }
            return None;
        }
        value = value * 10 + digit;
        i = i + 1;
    }
    assert(s@.take(s.len() as int) =~= s@);
    Some(value)
}

proof fn lemma_decimal_value_grows(s: Seq<u8>, n: int)
    requires
        0 <= n <= s.len(),
    ensures
        is_decimal(s) ==> decimal_value(s.take(n)) <= decimal_value(s),
    decreases s.len(),
{
    if n == s.len() {
        assert(s.take(n) =~= s);
    } else if is_decimal(s) {
        let shorter = s.drop_last();
        if shorter.len() > 0 {
            assert forall|i: int| 0 <= i < shorter.len() implies is_digit(#[trigger] shorter[i]) by {
                assert(s[i] == shorter[i]);
            }
            lemma_decimal_value_grows(shorter, n);
        } else {
            assert(s.take(n) =~= shorter);
        }
        assert(shorter.take(n) =~= s.take(n));
        assert(is_digit(s[s.len() - 1]));
    }
}

/// Whether an octet is a hexadecimal digit.
pub open spec fn is_hex_digit(b: u8) -> bool {
    0x30 <= b <= 0x39 || 0x41 <= b <= 0x46 || 0x61 <= b <= 0x66
}

/// The number that a hexadecimal digit stands for.
pub open spec fn hex_digit_value(b: u8) -> nat {
    if b <= 0x39 {
        (b - 0x30) as nat
    } else if b <= 0x46 {
        (b - 0x41 + 10) as nat
    } else {
        (b - 0x61 + 10) as nat
    }
}

/// Whether every octet is a hexadecimal digit and there is at least one.
pub open spec fn is_hex(s: Seq<u8>) -> bool {
    s.len() > 0 && forall|i: int| 0 <= i < s.len() ==> is_hex_digit(#[trigger] s[i])
}

/// The number that hexadecimal digits spell.
pub open spec fn hex_value(s: Seq<u8>) -> nat
    decreases s.len(),
{
    if s.len() == 0 {
        0
    } else {
        hex_value(s.drop_last()) * 16 + hex_digit_value(s.last())
    }
}

proof fn lemma_hex_value_grows(s: Seq<u8>, n: int)
    requires
        0 <= n <= s.len(),
    ensures
        hex_value(s.take(n)) <= hex_value(s),
    decreases s.len(),
{
    if n == s.len() {
        assert(s.take(n) =~= s);
    } else {
        let shorter = s.drop_last();
        lemma_hex_value_grows(shorter, n);
        assert(shorter.take(n) =~= s.take(n));
    }
}

/// The number that hexadecimal digits spell, where they are digits alone and the number is not
/// above the bound.
pub fn parse_hex(s: &[u8], bound: u64) -> (r: Option<u64>)
    ensures
        match r {
            Some(n) => is_hex(s@) && hex_value(s@) == n && n <= bound,
            None => !is_hex(s@) || hex_value(s@) > bound,
        },
{
    if s.len() == 0 {
        return None;
    }
    let mut value: u64 = 0;
    let mut i: usize = 0;
    while i < s.len()
        invariant
            i <= s.len(),
            s.len() > 0,
            value <= bound,
            value == hex_value(s@.take(i as int)),
            forall|j: int| 0 <= j < i ==> is_hex_digit(#[trigger] s@[j]),
        decreases s.len() - i,
    {
        let b = s[i];
        let digit: u64 = if 0x30 <= b && b <= 0x39 {
            (b - 0x30) as u64
        } else if 0x41 <= b && b <= 0x46 {
            (b - 0x41 + 10) as u64
        } else if 0x61 <= b && b <= 0x66 {
            (b - 0x61 + 10) as u64
        } else {
            assert(!is_hex_digit(s@[i as int]));
            return None;
        };
        let ghost next = s@.take(i + 1);
        assert(next.drop_last() =~= s@.take(i as int));
        assert(hex_value(next) == value * 16 + digit);
        if digit > bound || value > (bound - digit) / 16 {
            proof {
                assert(value * 16 + digit > bound);
                lemma_hex_value_grows(s@, i + 1);
            }
            return None;
        }
        value = value * 16 + digit;
        i = i + 1;
    }
    assert(s@.take(s.len() as int) =~= s@);
    Some(value)
}

/// Whether a slice opens with another.
pub fn starts_with(s: &[u8], prefix: &[u8]) -> (r: bool)
    ensures
        r == prefix@.is_prefix_of(s@),
{
    if s.len() < prefix.len() {
        return false;
    }
    let r = equal(slice_subrange(s, 0, prefix.len()), prefix);
    assert(r == (s@.subrange(0, prefix.len() as int) == prefix@));
    r
}

/// Octets spell a word in lower case where they differ from it in the case of letters alone.
pub proof fn lemma_spells_word(s: Seq<u8>, word: Seq<u8>)
    requires
        forall|i: int| 0 <= i < word.len() ==> !(0x41 <= #[trigger] word[i] <= 0x5a),
    ensures
        spells_word(s, word) <==> same_but_for_case(s, word),
{
    if spells_word(s, word) {
        assert forall|i: int| 0 <= i < s.len() implies lower(#[trigger] s[i]) == lower(
            word[i],
        ) by {}
        assert(lowered(s) =~= lowered(word));
    }
    if same_but_for_case(s, word) {
        assert(lowered(s).len() == s.len() && lowered(word).len() == word.len());
        assert forall|i: int| 0 <= i < s.len() implies #[trigger] s[i] == word[i] || (0x61
            <= word[i] <= 0x7a && s[i] == word[i] - 0x20) by {
            assert(lowered(s)[i] == lower(s[i]));
            assert(lowered(word)[i] == lower(word[i]));
        }
    }
}

/// The octets of a text that two make are the octets of the two.
pub proof fn lemma_octets_concat(a: Seq<char>, b: Seq<char>)
    ensures
        octets(a + b) == octets(a) + octets(b),
    decreases a.len(),
{
    if a.len() == 0 {
        assert(a + b =~= b);
        assert(octets(a) + octets(b) =~= octets(b));
    } else {
        let whole = a + b;
        assert(whole.drop_first() =~= a.drop_first() + b);
        lemma_octets_concat(a.drop_first(), b);
        assert(octets(whole) =~= octets(a) + octets(b));
    }
}

/// A text of ASCII octets has those octets as its characters.
pub proof fn lemma_ascii_octets(text: Seq<char>)
    requires
        is_ascii(octets(text)),
    ensures
        text == ascii_text(octets(text)),
{
    lemma_ascii_text(octets(text));
    lemma_octets_injective(text, ascii_text(octets(text)));
}

/// The octets of a text of ASCII characters are those characters.
pub proof fn lemma_ascii_octets_of(text: Seq<char>)
    requires
        is_ascii_chars(text),
    ensures
        octets(text).len() == text.len(),
        forall|i: int| 0 <= i < text.len() ==> #[trigger] octets(text)[i] == text[i] as u8,
        is_ascii(octets(text)),
{
    is_ascii_chars_encode_utf8(text);
}

} // verus!
