//! Header sections of responses as they are written, and the framing that they declare.

use crate::octets::{
    ascii_text, decimal, is_digit, lemma_ascii_octets_of, lemma_decimal, lemma_octets_concat,
    octets,
};
use crate::record::http::is_one_line;
use crate::recorder::framing::{
    agreed_length, declared_lengths, elements, final_coding, framing_of, joined, last_element,
    lemma_agreed_length_concat, length_of, line_end, lines, unfolded, value_of, BodyFraming,
    ResponseFault,
};
use crate::text::{
    char_position, decimal_text_value, is_white_space, lemma_char_position, lower_char,
    lowered_text, trim_end, trim_start, trimmed_text,
};
use vstd::prelude::*;
use vstd::utf8::*;

verus! {

/// Whether a text spells a word that is given in lower case, with its letters in either case.
pub open spec fn spells_name(s: Seq<char>, word: Seq<char>) -> bool {
    &&& s.len() == word.len()
    &&& forall|i: int|
        0 <= i < s.len() ==> #[trigger] s[i] == word[i] || ('a' <= word[i] <= 'z' && s[i] as u32
            == word[i] as u32 - 32)
}

/// Whether a text is spaces and tabs alone.
pub open spec fn is_blank_text(s: Seq<char>) -> bool {
    forall|i: int| 0 <= i < s.len() ==> #[trigger] s[i] == ' ' || s[i] == '\t'
}

/// A number as a list writes it.
pub ghost struct Number {
    /// What stands before it.
    pub before: Seq<char>,
    /// Whether a plus sign opens it.
    pub signed: bool,
    /// How many zeros open its digits.
    pub zeros: nat,
    /// The number.
    pub value: nat,
    /// What stands behind it.
    pub after: Seq<char>,
}

/// So many digits zero.
pub open spec fn zeros_text(n: nat) -> Seq<char> {
    Seq::new(n, |i: int| '0')
}

/// The digits of a number, with the sign and the zeros that open them.
pub open spec fn digits_text(number: Number) -> Seq<char> {
    (if number.signed {
        seq!['+']
    } else {
        Seq::empty()
    }) + zeros_text(number.zeros) + ascii_text(decimal(number.value))
}

/// A number as a list writes it.
pub open spec fn number_text(number: Number) -> Seq<char> {
    number.before + digits_text(number) + number.after
}

/// Whether a number is a length, with blanks around it.
pub open spec fn is_number(number: Number) -> bool {
    is_blank_text(number.before) && is_blank_text(number.after) && number.value <= u64::MAX
}

/// A transfer-coding as a list writes it.
pub ghost struct Coding {
    /// What stands before it.
    pub before: Seq<char>,
    /// The coding.
    pub word: Seq<char>,
    /// What stands behind it.
    pub after: Seq<char>,
}

/// A transfer-coding as a list writes it.
pub open spec fn coding_text(coding: Coding) -> Seq<char> {
    coding.before + coding.word + coding.after
}

/// Whether a coding is a word without white space, with blanks around it.
pub open spec fn is_coding(coding: Coding) -> bool {
    &&& is_blank_text(coding.before)
    &&& is_blank_text(coding.after)
    &&& coding.word.len() > 0
    &&& forall|i: int|
        0 <= i < coding.word.len() ==> '!' <= #[trigger] coding.word[i] <= '~' && coding.word[i]
            != ','
}

/// A field of a header section.
pub ghost enum HeaderField {
    /// A `Content-Length`, under a spelling of that name, with the numbers it lists.
    Length(Seq<char>, Seq<Number>),
    /// A `Transfer-Encoding`, under a spelling of that name, with the codings it lists.
    Coding(Seq<char>, Seq<Coding>),
    /// A field of another name, with its value.
    Other(Seq<char>, Seq<char>),
}

/// The items of a list, with commas between them.
pub open spec fn list_text(items: Seq<Seq<char>>) -> Seq<char>
    decreases items.len(),
{
    if items.len() == 0 {
        Seq::empty()
    } else if items.len() == 1 {
        items[0]
    } else {
        items[0] + seq![','] + list_text(items.skip(1))
    }
}

/// The texts of numbers.
pub open spec fn number_texts(numbers: Seq<Number>) -> Seq<Seq<char>> {
    Seq::new(numbers.len(), |i: int| number_text(numbers[i]))
}

/// The texts of codings.
pub open spec fn coding_texts(codings: Seq<Coding>) -> Seq<Seq<char>> {
    Seq::new(codings.len(), |i: int| coding_text(codings[i]))
}

/// The name of a field.
pub open spec fn name_of(field: HeaderField) -> Seq<char> {
    match field {
        HeaderField::Length(name, _) => name,
        HeaderField::Coding(name, _) => name,
        HeaderField::Other(name, _) => name,
    }
}

/// The value of a field.
pub open spec fn value_text(field: HeaderField) -> Seq<char> {
    match field {
        HeaderField::Length(_, numbers) => list_text(number_texts(numbers)),
        HeaderField::Coding(_, codings) => list_text(coding_texts(codings)),
        HeaderField::Other(_, value) => value,
    }
}

/// The text of a field, without what ends its line.
pub open spec fn field_text(field: HeaderField) -> Seq<char> {
    name_of(field) + seq![':'] + value_text(field)
}

/// Whether a field is well-formed: it is written on one line that opens with its name.
pub open spec fn is_header_field(field: HeaderField) -> bool {
    &&& is_one_line(octets(field_text(field)))
    &&& name_of(field).len() > 0
    &&& name_of(field)[0] != ' ' && name_of(field)[0] != '\t'
    &&& forall|i: int| 0 <= i < name_of(field).len() ==> #[trigger] name_of(field)[i] != ':'
    &&& match field {
        HeaderField::Length(name, numbers) => {
            &&& spells_name(name, "content-length"@)
            &&& numbers.len() > 0
            &&& forall|i: int| 0 <= i < numbers.len() ==> is_number(#[trigger] numbers[i])
        },
        HeaderField::Coding(name, codings) => {
            &&& spells_name(name, "transfer-encoding"@)
            &&& codings.len() > 0
            &&& forall|i: int| 0 <= i < codings.len() ==> is_coding(#[trigger] codings[i])
        },
        HeaderField::Other(name, _) => !spells_name(name, "content-length"@) && !spells_name(
            name,
            "transfer-encoding"@,
        ),
    }
}

/// Whether fields are well-formed.
pub open spec fn are_header_fields(fields: Seq<HeaderField>) -> bool {
    forall|i: int| 0 <= i < fields.len() ==> is_header_field(#[trigger] fields[i])
}

/// The text of lines.
pub open spec fn lines_text(all: Seq<Seq<char>>) -> Seq<char>
    decreases all.len(),
{
    if all.len() == 0 {
        Seq::empty()
    } else {
        all[0] + seq!['\r', '\n'] + lines_text(all.skip(1))
    }
}

/// The texts of fields.
pub open spec fn field_texts(fields: Seq<HeaderField>) -> Seq<Seq<char>> {
    Seq::new(fields.len(), |i: int| field_text(fields[i]))
}

/// The text of a header section: a first line, fields, and an empty line.
pub open spec fn section_text(first: Seq<char>, fields: Seq<HeaderField>) -> Seq<char> {
    lines_text(seq![first] + field_texts(fields)) + seq!['\r', '\n']
}

/// All numbers that fields list as lengths.
pub open spec fn all_numbers(fields: Seq<HeaderField>) -> Seq<Number>
    decreases fields.len(),
{
    if fields.len() == 0 {
        Seq::empty()
    } else {
        match fields[0] {
            HeaderField::Length(_, numbers) => numbers + all_numbers(fields.skip(1)),
            _ => all_numbers(fields.skip(1)),
        }
    }
}

/// Whether numbers are all the same.
pub open spec fn all_agree(numbers: Seq<Number>) -> bool {
    forall|i: int, j: int|
        0 <= i < numbers.len() && 0 <= j < numbers.len() ==> #[trigger] numbers[i].value
            == #[trigger] numbers[j].value
}

/// A text of one line holds no line break.
proof fn lemma_one_line_text(text: Seq<char>)
    requires
        is_one_line(octets(text)),
    ensures
        forall|i: int| 0 <= i < text.len() ==> #[trigger] text[i] != '\r' && text[i] != '\n',
{
    assert forall|i: int| 0 <= i < text.len() implies #[trigger] text[i] != '\r' && text[i]
        != '\n' by {
        if text[i] == '\r' || text[i] == '\n' {
            let c = seq![text[i]];
            let a = text.take(i);
            let b = text.skip(i + 1);
            assert(text =~= a + c + b);
            lemma_octets_concat(a + c, b);
            lemma_octets_concat(a, c);
            assert(is_ascii_chars(c));
            lemma_ascii_octets_of(c);
            let at = octets(a).len() as int;
            assert(octets(text)[at] == octets(c)[0]);
        }
    }
}

/// A text in which no line break is followed by `c` has nothing to join.
proof fn lemma_nothing_joined(s: Seq<char>, c: char)
    requires
        forall|i: int|
            0 <= i && i + 2 < s.len() && #[trigger] s[i] == '\r' && s[i + 1] == '\n' ==> s[i + 2]
                != c,
    ensures
        joined(s, c) == s,
    decreases s.len(),
{
    if s.len() > 0 {
        let rest = s.skip(1);
        assert forall|i: int|
            0 <= i && i + 2 < rest.len() && #[trigger] rest[i] == '\r' && rest[i + 1]
                == '\n' implies rest[i + 2] != c by {
            assert(s[i + 1] == rest[i]);
            assert(s[i + 2] == rest[i + 1]);
            assert(s[i + 3] == rest[i + 2]);
        }
        lemma_nothing_joined(rest, c);
        assert(seq![s[0]] + rest =~= s);
    }
}

/// Whether lines are ones that nothing is folded in: they hold no line break, and none opens with
/// white space.
spec fn are_plain_lines(all: Seq<Seq<char>>) -> bool {
    forall|i: int|
        0 <= i < all.len() ==> (#[trigger] all[i]).len() > 0 && all[i][0] != ' ' && all[i][0]
            != '\t' && has_no_break(all[i])
}

spec fn has_no_break(s: Seq<char>) -> bool {
    forall|i: int| 0 <= i < s.len() ==> #[trigger] s[i] != '\r' && s[i] != '\n'
}

/// A section of plain lines holds no fold.
proof fn lemma_no_fold(all: Seq<Seq<char>>, c: char)
    requires
        are_plain_lines(all),
        c == ' ' || c == '\t',
    ensures
        ({
            let s = lines_text(all) + seq!['\r', '\n'];
            &&& s[0] != c
            &&& forall|i: int|
                0 <= i && i + 2 < s.len() && #[trigger] s[i] == '\r' && s[i + 1] == '\n' ==> s[i
                    + 2] != c
        }),
    decreases all.len(),
{
    let s = lines_text(all) + seq!['\r', '\n'];
    if all.len() == 0 {
        assert(s =~= seq!['\r', '\n']);
    } else {
        let line = all[0];
        let rest = all.skip(1);
        assert forall|i: int| 0 <= i < rest.len() implies (#[trigger] rest[i]).len() > 0
            && rest[i][0] != ' ' && rest[i][0] != '\t' && has_no_break(rest[i]) by {
            assert(rest[i] == all[i + 1]);
        }
        lemma_no_fold(rest, c);
        let more = lines_text(rest) + seq!['\r', '\n'];
        assert(s =~= line + seq!['\r', '\n'] + more);
        assert(s[0] == line[0]);
        let n = line.len() as int;
        assert forall|i: int|
            0 <= i && i + 2 < s.len() && #[trigger] s[i] == '\r' && s[i + 1] == '\n' implies s[i
            + 2] != c by {
            if i < n {
                assert(s[i] == line[i]);
            } else if i == n {
                assert(s[i + 2] == more[0]);
            } else if i == n + 1 {
            } else {
                let j = i - n - 2;
                assert(more[j] == s[i] && more[j + 1] == s[i + 1] && more[j + 2] == s[i + 2]);
            }
        }
    }
}

proof fn lemma_line_end_is(s: Seq<char>, from: int, at: int)
    requires
        0 <= from <= at,
        at + 2 <= s.len(),
        s[at] == '\r',
        s[at + 1] == '\n',
        forall|i: int| from <= i < at ==> #[trigger] s[i] != '\r',
    ensures
        line_end(s, from) == at,
    decreases at - from,
{
    if from < at {
        assert(s[from] != '\r');
        lemma_line_end_is(s, from + 1, at);
    }
}

/// The lines of a section are those that it was written with, and two empty ones.
proof fn lemma_lines(before: Seq<char>, all: Seq<Seq<char>>)
    requires
        are_plain_lines(all),
    ensures
        lines(before + lines_text(all) + seq!['\r', '\n'], before.len() as int) == all + seq![
            Seq::<char>::empty(),
            Seq::<char>::empty(),
        ],
    decreases all.len(),
{
    let s = before + lines_text(all) + seq!['\r', '\n'];
    let at = before.len() as int;
    let none = Seq::<char>::empty();
    if all.len() == 0 {
        lemma_line_end_is(s, at, at);
        assert(s.subrange(at, at) =~= none);
        assert(line_end(s, at + 2) == s.len());
        assert(s.skip(at + 2) =~= none);
        assert(lines(s, at + 2) =~= seq![none]);
        assert(lines(s, at) =~= seq![none, none]);
        assert(all + seq![none, none] =~= seq![none, none]);
    } else {
        let line = all[0];
        let rest = all.skip(1);
        assert forall|i: int| 0 <= i < rest.len() implies (#[trigger] rest[i]).len() > 0
            && rest[i][0] != ' ' && rest[i][0] != '\t' && has_no_break(rest[i]) by {
            assert(rest[i] == all[i + 1]);
        }
        let end = at + line.len();
        assert forall|i: int| at <= i < end implies #[trigger] s[i] != '\r' by {
            assert(s[i] == line[i - at]);
        }
        assert(s[end] == '\r' && s[end + 1] == '\n');
        lemma_line_end_is(s, at, end);
        assert(s.subrange(at, end) =~= line);
        let walked = before + line + seq!['\r', '\n'];
        assert(s =~= walked + lines_text(rest) + seq!['\r', '\n']);
        lemma_lines(walked, rest);
        assert(seq![line] + (rest + seq![none, none]) =~= all + seq![none, none]);
    }
}

/// Names are compared without regard to the case of letters.
proof fn lemma_spells_name(s: Seq<char>, word: Seq<char>)
    requires
        forall|i: int| 0 <= i < word.len() ==> !('A' <= #[trigger] word[i] <= 'Z'),
    ensures
        spells_name(s, word) <==> lowered_text(s) == lowered_text(word),
{
    if spells_name(s, word) {
        assert forall|i: int| 0 <= i < s.len() implies lower_char(#[trigger] s[i]) == lower_char(
            word[i],
        ) by {
            lemma_lower_char(s[i], word[i]);
        }
        assert(lowered_text(s) =~= lowered_text(word));
    }
    if lowered_text(s) == lowered_text(word) {
        assert(lowered_text(s).len() == s.len() && lowered_text(word).len() == word.len());
        assert forall|i: int| 0 <= i < s.len() implies #[trigger] s[i] == word[i] || ('a' <= word[i]
            <= 'z' && s[i] as u32 == word[i] as u32 - 32) by {
            assert(lowered_text(s)[i] == lower_char(s[i]));
            assert(lowered_text(word)[i] == lower_char(word[i]));
            lemma_lower_char(s[i], word[i]);
        }
    }
}

proof fn lemma_lower_char(a: char, word: char)
    requires
        !('A' <= word <= 'Z'),
    ensures
        lower_char(a) == lower_char(word) <==> a == word || ('a' <= word <= 'z' && a as u32
            == word as u32 - 32),
{
}

proof fn lemma_names()
    ensures
        "content-length"@.len() == 14,
        "transfer-encoding"@.len() == 17,
        "chunked"@.len() == 7,
        forall|i: int| 0 <= i < 14 ==> !('A' <= #[trigger] "content-length"@[i] <= 'Z'),
        forall|i: int| 0 <= i < 17 ==> !('A' <= #[trigger] "transfer-encoding"@[i] <= 'Z'),
        forall|i: int| 0 <= i < 7 ==> !('A' <= #[trigger] "chunked"@[i] <= 'Z'),
{
    reveal_strlit("content-length");
    reveal_strlit("transfer-encoding");
    reveal_strlit("chunked");
}

/// A field is told apart at its first colon.
proof fn lemma_field_value(field: HeaderField)
    requires
        is_header_field(field),
    ensures
        value_of(field_text(field), "content-length"@) == if field is Length {
            Some(value_text(field))
        } else {
            None
        },
        value_of(field_text(field), "transfer-encoding"@) == if field is Coding {
            Some(value_text(field))
        } else {
            None
        },
{
    let line = field_text(field);
    let name = name_of(field);
    let n = name.len() as int;
    lemma_char_position(line, ':', 0);
    assert(line[n] == ':');
    let colon = char_position(line, ':', 0);
    if colon < n {
        assert(line[colon] == name[colon]);
    }
    assert(colon == n);
    assert(line.take(n) =~= name);
    assert(line.skip(n + 1) =~= value_text(field));
    lemma_names();
    lemma_spells_name(name, "content-length"@);
    lemma_spells_name(name, "transfer-encoding"@);
}

/// The items of a list are told apart at its commas.
proof fn lemma_elements(before: Seq<char>, items: Seq<Seq<char>>)
    requires
        items.len() > 0,
        forall|i: int| 0 <= i < items.len() ==> has_no_comma(#[trigger] items[i]),
    ensures
        elements(before + list_text(items), before.len() as int) == items,
        last_element(before + list_text(items), before.len() as int) == items.last(),
    decreases items.len(),
{
    let s = before + list_text(items);
    let at = before.len() as int;
    lemma_char_position(s, ',', at);
    let comma = char_position(s, ',', at);
    let item = items[0];
    assert(has_no_comma(item));
    if items.len() == 1 {
        if comma < s.len() {
            assert(s[comma] == item[comma - at]);
        }
        assert(s.skip(at) =~= item);
        assert(elements(s, at) =~= items);
    } else {
        let rest = items.skip(1);
        assert forall|i: int| 0 <= i < rest.len() implies has_no_comma(#[trigger] rest[i]) by {
            assert(rest[i] == items[i + 1]);
        }
        let end = at + item.len();
        assert(s[end] == ',');
        if comma < end {
            assert(s[comma] == item[comma - at]);
        }
        assert(comma == end);
        assert(s.subrange(at, end) =~= item);
        let walked = before + item + seq![','];
        assert(s =~= walked + list_text(rest));
        lemma_elements(walked, rest);
        assert(elements(s, at) =~= items);
        assert(rest.last() == items.last());
    }
}

pub(crate) open spec fn has_no_comma(s: Seq<char>) -> bool {
    forall|i: int| 0 <= i < s.len() ==> #[trigger] s[i] != ','
}

proof fn lemma_trim_start_is(s: Seq<char>, from: int, at: int)
    requires
        0 <= from <= at < s.len(),
        forall|i: int| from <= i < at ==> is_white_space(#[trigger] s[i]),
        !is_white_space(s[at]),
    ensures
        trim_start(s, from) == at,
    decreases at - from,
{
    if from < at {
        assert(is_white_space(s[from]));
        lemma_trim_start_is(s, from + 1, at);
    }
}

proof fn lemma_trim_end_is(s: Seq<char>, from: int, end: int, at: int)
    requires
        0 <= from < at <= end <= s.len(),
        forall|i: int| at <= i < end ==> is_white_space(#[trigger] s[i]),
        !is_white_space(s[at - 1]),
    ensures
        trim_end(s, from, end) == at,
    decreases end - at,
{
    if at < end {
        assert(is_white_space(s[end - 1]));
        lemma_trim_end_is(s, from, end - 1, at);
    }
}

/// Blanks around a text are trimmed.
proof fn lemma_trimmed(before: Seq<char>, s: Seq<char>, after: Seq<char>)
    requires
        is_blank_text(before),
        is_blank_text(after),
        s.len() > 0,
        !is_white_space(s[0]),
        !is_white_space(s.last()),
    ensures
        trimmed_text(before + s + after) == s,
{
    let all = before + s + after;
    let start = before.len() as int;
    let end = (before + s).len() as int;
    assert forall|i: int| 0 <= i < start implies is_white_space(#[trigger] all[i]) by {
        assert(all[i] == before[i]);
    }
    assert(all[start] == s[0]);
    lemma_trim_start_is(all, 0, start);
    assert forall|i: int| end <= i < all.len() implies is_white_space(#[trigger] all[i]) by {
        assert(all[i] == after[i - end]);
    }
    assert(all[end - 1] == s.last());
    lemma_trim_end_is(all, start, all.len() as int, end);
    assert(all.subrange(start, end) =~= s);
}

/// Digits as text spell the number that they spell as octets, and zeros before them do not matter.
pub(crate) proof fn lemma_digits(zeros: nat, s: Seq<u8>)
    requires
        forall|i: int| 0 <= i < s.len() ==> is_digit(#[trigger] s[i]),
    ensures
        decimal_text_value(zeros_text(zeros) + ascii_text(s))
            == crate::octets::decimal_value(s),
        forall|i: int|
            0 <= i < zeros + s.len() ==> '0' <= #[trigger] (zeros_text(zeros)
                + ascii_text(s))[i] <= '9',
    decreases zeros, s.len(),
{
    let all = zeros_text(zeros) + ascii_text(s);
    if s.len() > 0 {
        let shorter = s.drop_last();
        assert forall|i: int| 0 <= i < shorter.len() implies is_digit(#[trigger] shorter[i]) by {
            assert(shorter[i] == s[i]);
        }
        lemma_digits(zeros, shorter);
        assert(all.drop_last() =~= zeros_text(zeros) + ascii_text(shorter));
        assert(is_digit(s[s.len() - 1]));
        assert(all.last() == s.last() as char);
        assert forall|i: int| 0 <= i < zeros + s.len() implies '0' <= #[trigger] all[i] <= '9' by {
            if i < all.len() - 1 {
                assert(all[i] == all.drop_last()[i]);
            }
        }
    } else if zeros > 0 {
        lemma_digits((zeros - 1) as nat, s);
        assert(all.drop_last() =~= zeros_text((zeros - 1) as nat) + ascii_text(s));
        assert(all.last() == '0');
    } else {
        assert(all =~= Seq::empty());
    }
}

/// A number is read as it is written.
pub(crate) proof fn lemma_number(number: Number)
    requires
        is_number(number),
    ensures
        length_of(trimmed_text(number_text(number))) == Some(number.value as u64),
        has_no_comma(number_text(number)),
{
    let spelled = decimal(number.value);
    lemma_decimal(number.value);
    lemma_digits(number.zeros, spelled);
    let digits = zeros_text(number.zeros) + ascii_text(spelled);
    let text = digits_text(number);
    if number.signed {
        assert(text =~= seq!['+'] + digits);
        assert(text.skip(1) =~= digits);
    } else {
        assert(text =~= digits);
        assert('0' <= text[0] <= '9');
    }
    assert('0' <= digits[digits.len() - 1] <= '9');
    assert(text.last() == digits.last());
    lemma_trimmed(number.before, text, number.after);
    let all = number_text(number);
    assert forall|i: int| 0 <= i < all.len() implies #[trigger] all[i] != ',' by {
        if i < number.before.len() {
            assert(all[i] == number.before[i]);
        } else if i < number.before.len() + text.len() {
            let j = i - number.before.len();
            assert(all[i] == text[j]);
            if number.signed && j > 0 {
                assert(text[j] == digits[j - 1]);
            }
        } else {
            assert(all[i] == number.after[i - number.before.len() - text.len()]);
        }
    }
}

/// A coding is read as it is written.
pub(crate) proof fn lemma_coding(coding: Coding)
    requires
        is_coding(coding),
    ensures
        trimmed_text(coding_text(coding)) == coding.word,
        has_no_comma(coding_text(coding)),
{
    let n = coding.word.len();
    assert('!' <= coding.word[0] <= '~' && '!' <= coding.word[n - 1] <= '~');
    lemma_trimmed(coding.before, coding.word, coding.after);
    let all = coding_text(coding);
    assert forall|i: int| 0 <= i < all.len() implies #[trigger] all[i] != ',' by {
        if i < coding.before.len() {
            assert(all[i] == coding.before[i]);
        } else if i < coding.before.len() + n {
            assert(all[i] == coding.word[i - coding.before.len()]);
        } else {
            assert(all[i] == coding.after[i - coding.before.len() - n]);
        }
    }
}

/// The lengths that fields declare are the numbers that they list.
proof fn lemma_declared_lengths(fields: Seq<HeaderField>, tail: Seq<Seq<char>>)
    requires
        are_header_fields(fields),
        declared_lengths(tail) == Seq::<Seq<char>>::empty(),
    ensures
        declared_lengths(field_texts(fields) + tail) == number_texts(all_numbers(fields)),
        forall|i: int| 0 <= i < all_numbers(fields).len() ==> is_number(
            #[trigger] all_numbers(fields)[i],
        ),
    decreases fields.len(),
{
    let all = field_texts(fields) + tail;
    if fields.len() == 0 {
        assert(all =~= tail);
        assert(number_texts(all_numbers(fields)) =~= Seq::empty());
    } else {
        let field = fields[0];
        let rest = fields.skip(1);
        assert(is_header_field(field));
        assert forall|i: int| 0 <= i < rest.len() implies is_header_field(#[trigger] rest[i]) by {
            assert(rest[i] == fields[i + 1]);
        }
        lemma_declared_lengths(rest, tail);
        lemma_field_value(field);
        assert(all[0] == field_text(field));
        assert(all.skip(1) =~= field_texts(rest) + tail);
        match field {
            HeaderField::Length(_, numbers) => {
                let items = number_texts(numbers);
                assert forall|i: int| 0 <= i < items.len() implies has_no_comma(
                    #[trigger] items[i],
                ) by {
                    assert(is_number(numbers[i]));
                    lemma_number(numbers[i]);
                }
                let none = Seq::<char>::empty();
                lemma_elements(none, items);
                assert(none + list_text(items) =~= list_text(items));
                let more = all_numbers(rest);
                assert(number_texts(numbers + more) =~= items + number_texts(more));
                assert forall|i: int| 0 <= i < (numbers + more).len() implies is_number(
                    #[trigger] (numbers + more)[i],
                ) by {
                    if i < numbers.len() {
                        assert(is_number(numbers[i]));
                    } else {
                        assert(is_number(more[i - numbers.len()]));
                    }
                }
            },
            _ => {},
        }
    }
}

/// Numbers that agree with each other, and with one seen before, are read as the one number, and
/// others as a conflict.
proof fn lemma_agreed(numbers: Seq<Number>, seen: Option<u64>)
    requires
        forall|i: int| 0 <= i < numbers.len() ==> is_number(#[trigger] numbers[i]),
    ensures
        ({
            let agreed = agreed_length(number_texts(numbers), seen);
            let n = match seen {
                Some(length) => length as nat,
                None => numbers[0].value,
            };
            if numbers.len() == 0 {
                agreed == Ok::<Option<u64>, ResponseFault>(seen)
            } else if forall|i: int| 0 <= i < numbers.len() ==> #[trigger] numbers[i].value == n {
                agreed == Ok::<Option<u64>, ResponseFault>(Some(n as u64))
            } else {
                agreed == Err::<Option<u64>, ResponseFault>(ResponseFault::ConflictingContentLength)
            }
        }),
    decreases numbers.len(),
{
    let texts = number_texts(numbers);
    if numbers.len() > 0 {
        let first = numbers[0];
        let rest = numbers.skip(1);
        assert(is_number(first));
        assert forall|i: int| 0 <= i < rest.len() implies is_number(#[trigger] rest[i]) by {
            assert(rest[i] == numbers[i + 1]);
        }
        lemma_number(first);
        assert(texts[0] == number_text(first));
        assert(texts.skip(1) =~= number_texts(rest));
        lemma_agreed(rest, Some(first.value as u64));
        let n = match seen {
            Some(length) => length as nat,
            None => first.value,
        };
        if forall|i: int| 0 <= i < numbers.len() ==> #[trigger] numbers[i].value == n {
            assert(numbers[0].value == n);
            assert forall|i: int| 0 <= i < rest.len() implies #[trigger] rest[i].value == n by {
                assert(rest[i] == numbers[i + 1]);
            }
        } else if first.value == n {
            if forall|i: int| 0 <= i < rest.len() ==> #[trigger] rest[i].value == n {
                assert forall|i: int| 0 <= i < numbers.len() implies #[trigger] numbers[i].value
                    == n by {
                    if i > 0 {
                        assert(rest[i - 1] == numbers[i]);
                    }
                }
            }
        }
    }
}

/// The final coding is the last that the last `Transfer-Encoding` field lists.
proof fn lemma_final_coding(
    fields: Seq<HeaderField>,
    tail: Seq<Seq<char>>,
    seen: Option<Seq<char>>,
    at: int,
)
    requires
        are_header_fields(fields),
        forall|coding: Option<Seq<char>>| #[trigger] final_coding(tail, coding) == coding,
        -1 <= at < fields.len(),
        at >= 0 ==> fields[at] is Coding,
        forall|i: int| at < i < fields.len() ==> !(#[trigger] fields[i] is Coding),
    ensures
        final_coding(field_texts(fields) + tail, seen) == if at < 0 {
            seen
        } else {
            Some(fields[at]->Coding_1.last().word)
        },
    decreases fields.len(),
{
    let all = field_texts(fields) + tail;
    if fields.len() == 0 {
        assert(all =~= tail);
    } else {
        let field = fields[0];
        let rest = fields.skip(1);
        assert(is_header_field(field));
        assert forall|i: int| 0 <= i < rest.len() implies is_header_field(#[trigger] rest[i]) by {
            assert(rest[i] == fields[i + 1]);
        }
        assert forall|i: int| at - 1 < i < rest.len() && i >= 0 implies !(
        #[trigger] rest[i] is Coding) by {
            assert(rest[i] == fields[i + 1]);
        }
        lemma_field_value(field);
        assert(all[0] == field_text(field));
        assert(all.skip(1) =~= field_texts(rest) + tail);
        let next = match field {
            HeaderField::Coding(_, codings) => Some(codings.last().word),
            _ => seen,
        };
        match field {
            HeaderField::Coding(_, codings) => {
                let items = coding_texts(codings);
                assert forall|i: int| 0 <= i < items.len() implies has_no_comma(
                    #[trigger] items[i],
                ) by {
                    assert(is_coding(codings[i]));
                    lemma_coding(codings[i]);
                }
                let none = Seq::<char>::empty();
                lemma_elements(none, items);
                assert(none + list_text(items) =~= list_text(items));
                assert(items.last() == coding_text(codings.last()));
                assert(is_coding(codings[codings.len() - 1]));
                lemma_coding(codings.last());
            },
            _ => {},
        }
        if at >= 1 {
            assert(rest[at - 1] == fields[at]);
            lemma_final_coding(rest, tail, next, at - 1);
        } else {
            lemma_final_coding(rest, tail, next, -1);
        }
    }
}

/// What a header section declares is what its fields list.
#[verifier::spinoff_prover]
proof fn lemma_section(first: Seq<char>, fields: Seq<HeaderField>)
    requires
        first.len() > 0,
        first[0] != ' ' && first[0] != '\t',
        is_one_line(octets(first)),
        are_header_fields(fields),
    ensures
        lines(unfolded(section_text(first, fields)), 0).skip(1) == field_texts(fields) + seq![
            Seq::<char>::empty(),
            Seq::<char>::empty(),
        ],
{
    let all = seq![first] + field_texts(fields);
    let none = Seq::<char>::empty();
    let text = section_text(first, fields);
    assert forall|i: int| 0 <= i < all.len() implies (#[trigger] all[i]).len() > 0 && all[i][0]
        != ' ' && all[i][0] != '\t' && has_no_break(all[i]) by {
        if i == 0 {
            lemma_one_line_text(first);
        } else {
            let field = fields[i - 1];
            assert(is_header_field(field));
            assert(all[i] == field_text(field));
            assert(field_text(field)[0] == name_of(field)[0]);
            lemma_one_line_text(field_text(field));
        }
    }
    lemma_no_fold(all, ' ');
    lemma_no_fold(all, '\t');
    lemma_nothing_joined(text, ' ');
    lemma_nothing_joined(text, '\t');
    lemma_lines(none, all);
    assert(none + lines_text(all) + seq!['\r', '\n'] =~= text);
    assert((all + seq![none, none]).skip(1) =~= field_texts(fields) + seq![none, none]);
}

/// An empty line declares nothing.
proof fn lemma_empty_lines()
    ensures
        ({
            let tail = seq![Seq::<char>::empty(), Seq::<char>::empty()];
            &&& declared_lengths(tail) == Seq::<Seq<char>>::empty()
            &&& forall|coding: Option<Seq<char>>| #[trigger] final_coding(tail, coding) == coding
        }),
{
    let none = Seq::<char>::empty();
    let tail = seq![none, none];
    assert(value_of(none, "content-length"@) is None);
    assert(value_of(none, "transfer-encoding"@) is None);
    assert(tail.skip(1) =~= seq![none]);
    assert(seq![none].skip(1) =~= Seq::<Seq<char>>::empty());
    assert(declared_lengths(Seq::<Seq<char>>::empty()) =~= Seq::<Seq<char>>::empty());
    assert(declared_lengths(seq![none]) =~= Seq::<Seq<char>>::empty());
    assert forall|coding: Option<Seq<char>>| #[trigger] final_coding(tail, coding) == coding by {
        assert(final_coding(Seq::<Seq<char>>::empty(), coding) == coding);
        assert(final_coding(seq![none], coding) == coding);
    }
}

/// The framing that a header section declares.
///
/// Lengths that disagree are a conflict, wherever they are listed. Otherwise the last coding of the
/// last `Transfer-Encoding` field decides where there is one: the body is chunked where that is
/// `chunked`, and ends with the connection where it is another. Without one, the body is as long as
/// the lengths say, and ends with the connection where none is declared. `at` is where the last
/// `Transfer-Encoding` field stands, or -1 where there is none.
pub proof fn lemma_declared_framing(first: Seq<char>, fields: Seq<HeaderField>, at: int)
    requires
        first.len() > 0,
        first[0] != ' ' && first[0] != '\t',
        is_one_line(octets(first)),
        are_header_fields(fields),
        -1 <= at < fields.len(),
        at >= 0 ==> fields[at] is Coding,
        forall|i: int| at < i < fields.len() ==> !(#[trigger] fields[i] is Coding),
    ensures
        ({
            let numbers = all_numbers(fields);
            framing_of(section_text(first, fields)) == if !all_agree(numbers) {
                Err(ResponseFault::ConflictingContentLength)
            } else if at >= 0 {
                Ok(
                    if spells_name(fields[at]->Coding_1.last().word, "chunked"@) {
                        BodyFraming::Chunked
                    } else {
                        BodyFraming::Close
                    },
                )
            } else if numbers.len() > 0 {
                Ok(BodyFraming::Length(numbers[0].value as u64))
            } else {
                Ok(BodyFraming::Close)
            }
        }),
{
    let numbers = all_numbers(fields);
    let tail = seq![Seq::<char>::empty(), Seq::<char>::empty()];
    lemma_section(first, fields);
    lemma_empty_lines();
    lemma_declared_lengths(fields, tail);
    lemma_agreed(numbers, None);
    lemma_final_coding(fields, tail, None, at);
    lemma_names();
    if at >= 0 {
        lemma_spells_name(fields[at]->Coding_1.last().word, "chunked"@);
    }
    if numbers.len() > 0 {
        if forall|i: int| 0 <= i < numbers.len() ==> #[trigger] numbers[i].value
            == numbers[0].value {
            assert(all_agree(numbers));
        } else {
            assert(!all_agree(numbers));
        }
    }
}

/// Whether a word is no length: it is a sign alone, holds something other than digits behind a plus
/// sign at most, or spells a number above the greatest of 64 bits.
pub open spec fn spells_no_length(word: Seq<char>) -> bool {
    ||| word == seq!['+']
    ||| exists|i: int|
        0 <= i < word.len() && !('0' <= #[trigger] word[i] <= '9') && !(i == 0 && word[0] == '+')
    ||| exists|number: Number|
        number.value > u64::MAX && word == #[trigger] digits_text(number)
}

pub(crate) proof fn lemma_no_length(word: Seq<char>)
    requires
        spells_no_length(word),
    ensures
        length_of(word) is None,
{
    let digits = if word.len() > 0 && word[0] == '+' {
        word.skip(1)
    } else {
        word
    };
    if exists|i: int|
        0 <= i < word.len() && !('0' <= #[trigger] word[i] <= '9') && !(i == 0 && word[0] == '+') {
        let i = choose|i: int|
            0 <= i < word.len() && !('0' <= #[trigger] word[i] <= '9') && !(i == 0 && word[0]
                == '+');
        if word[0] == '+' {
            assert(digits[i - 1] == word[i]);
        } else {
            assert(digits[i] == word[i]);
        }
    } else if word == seq!['+'] {
        assert(digits.len() == 0);
    } else {
        let number = choose|number: Number|
            number.value > u64::MAX && word == #[trigger] digits_text(number);
        let spelled = decimal(number.value);
        lemma_decimal(number.value);
        lemma_digits(number.zeros, spelled);
        let all = zeros_text(number.zeros) + ascii_text(spelled);
        if number.signed {
            assert(word =~= seq!['+'] + all);
            assert(digits =~= all);
        } else {
            assert(word =~= all);
            assert('0' <= all[0] <= '9');
            assert(digits =~= all);
        }
    }
}

proof fn lemma_declared_lengths_concat(a: Seq<Seq<char>>, b: Seq<Seq<char>>)
    ensures
        declared_lengths(a + b) == declared_lengths(a) + declared_lengths(b),
    decreases a.len(),
{
    let all = a + b;
    if a.len() == 0 {
        assert(all =~= b);
        assert(declared_lengths(a) + declared_lengths(b) =~= declared_lengths(b));
    } else {
        lemma_declared_lengths_concat(a.skip(1), b);
        assert(all[0] == a[0]);
        assert(all.skip(1) =~= a.skip(1) + b);
        assert(declared_lengths(all) =~= declared_lengths(a) + declared_lengths(b));
    }
}

/// The text of a `Content-Length` field that lists one word.
pub open spec fn length_text(name: Seq<char>, word: Coding) -> Seq<char> {
    name + seq![':'] + coding_text(word)
}

/// A word that is no length, under a `Content-Length`, makes a header section malformed, whatever
/// stands behind it and whatever transfer-coding is declared, unless lengths before it disagree.
pub proof fn lemma_malformed_length(
    first: Seq<char>,
    fields: Seq<HeaderField>,
    name: Seq<char>,
    word: Coding,
    later: Seq<HeaderField>,
)
    requires
        first.len() > 0,
        first[0] != ' ' && first[0] != '\t',
        is_one_line(octets(first)),
        are_header_fields(fields),
        are_header_fields(later),
        all_agree(all_numbers(fields)),
        spells_name(name, "content-length"@),
        is_coding(word),
        spells_no_length(word.word),
    ensures
        framing_of(
            lines_text(
                seq![first] + field_texts(fields) + (seq![length_text(name, word)] + field_texts(
                    later,
                )),
            ) + seq!['\r', '\n'],
        ) == Err::<BodyFraming, ResponseFault>(ResponseFault::MalformedContentLength(word.word)),
{
    let wrong = length_text(name, word);
    let none = Seq::<char>::empty();
    let more = seq![wrong] + field_texts(later);
    let all = seq![first] + field_texts(fields) + more;
    let text = lines_text(all) + seq!['\r', '\n'];
    lemma_names();
    lemma_spells_name(name, "content-length"@);
    lemma_coding(word);
    lemma_wrong_line(name, word);
    assert forall|i: int| 0 <= i < all.len() implies (#[trigger] all[i]).len() > 0 && all[i][0]
        != ' ' && all[i][0] != '\t' && has_no_break(all[i]) by {
        let n = fields.len() as int;
        if i == 0 {
            lemma_one_line_text(first);
        } else if i == n + 1 {
            assert(all[i] == wrong);
        } else {
            let field = if i <= n {
                fields[i - 1]
            } else {
                later[i - n - 2]
            };
            assert(is_header_field(field));
            assert(all[i] == field_text(field));
            assert(field_text(field)[0] == name_of(field)[0]);
            lemma_one_line_text(field_text(field));
        }
    }
    lemma_no_fold(all, ' ');
    lemma_no_fold(all, '\t');
    lemma_nothing_joined(text, ' ');
    lemma_nothing_joined(text, '\t');
    lemma_lines(none, all);
    assert(none + lines_text(all) + seq!['\r', '\n'] =~= text);
    let behind = more + seq![none, none];
    assert((all + seq![none, none]).skip(1) =~= field_texts(fields) + behind);
    lemma_declared_lengths_concat(field_texts(fields), behind);
    lemma_declared_lengths(fields, Seq::empty());
    assert(field_texts(fields) + Seq::<Seq<char>>::empty() =~= field_texts(fields));
    let numbers = all_numbers(fields);
    lemma_agreed(numbers, None);
    let lengths = declared_lengths(behind);
    lemma_agreed_length_concat(number_texts(numbers), lengths, None);
    assert(behind[0] == wrong);
    let items = seq![coding_text(word)];
    lemma_elements(none, items);
    assert(none + list_text(items) =~= coding_text(word));
    assert(lengths[0] == coding_text(word));
    lemma_no_length(word.word);
    if numbers.len() > 0 {
        assert(forall|i: int| 0 <= i < numbers.len() ==> #[trigger] numbers[i].value
            == numbers[0].value);
    }
}

proof fn lemma_capital(a: char, letter: char)
    requires
        'a' <= letter <= 'z',
        a as u32 == letter as u32 - 32,
    ensures
        'A' <= a <= 'Z',
{
}

proof fn lemma_wrong_line(name: Seq<char>, word: Coding)
    requires
        spells_name(name, "content-length"@),
        is_coding(word),
    ensures
        value_of(length_text(name, word), "content-length"@) == Some(coding_text(word)),
        has_no_break(length_text(name, word)),
        length_text(name, word).len() > 0,
        length_text(name, word)[0] != ' ',
        length_text(name, word)[0] != '\t',
{
    let line = length_text(name, word);
    let n = name.len() as int;
    reveal_strlit("content-length");
    lemma_names();
    lemma_spells_name(name, "content-length"@);
    assert(forall|i: int|
        0 <= i < 14 ==> #[trigger] "content-length"@[i] == '-' || 'a' <= "content-length"@[i]
            <= 'z');
    assert forall|i: int| 0 <= i < n implies '-' <= #[trigger] name[i] <= 'z' && name[i] != ':' by {
        let c = "content-length"@[i];
        assert(c == '-' || 'a' <= c <= 'z');
        let letter = name[i];
        if letter != c {
            assert('a' <= c <= 'z' && letter as u32 == c as u32 - 32);
            lemma_capital(letter, c);
        }
    }
    assert(line[0] == name[0]);
    assert(line[n] == ':');
    lemma_char_position(line, ':', 0);
    let colon = char_position(line, ':', 0);
    if colon < n {
        assert(line[colon] == name[colon]);
    }
    assert(line.take(n) =~= name);
    assert(line.skip(n + 1) =~= coding_text(word));
    let value = coding_text(word);
    assert forall|i: int| 0 <= i < line.len() implies #[trigger] line[i] != '\r' && line[i]
        != '\n' by {
        if i < n {
            assert(line[i] == name[i]);
        } else if i > n {
            let j = i - n - 1;
            assert(line[i] == value[j]);
            if j < word.before.len() {
                assert(value[j] == word.before[j]);
            } else if j < word.before.len() + word.word.len() {
                assert(value[j] == word.word[j - word.before.len()]);
            } else {
                assert(value[j] == word.after[j - word.before.len() - word.word.len()]);
            }
        }
    }
}

/// What is joined before a text that no line break runs into is joined on its own.
proof fn lemma_joined_concat(a: Seq<char>, b: Seq<char>, c: char)
    requires
        a.len() > 0 ==> a.last() != '\r' && a.last() != '\n',
        c == ' ' || c == '\t',
    ensures
        joined(a + b, c) == joined(a, c) + joined(b, c),
        a.len() > 0 ==> joined(a, c).len() > 0 && joined(a, c).last() != '\r' && joined(
            a,
            c,
        ).last() != '\n',
    decreases a.len(),
{
    let s = a + b;
    if a.len() == 0 {
        assert(s =~= b);
        assert(joined(a, c) + joined(b, c) =~= joined(b, c));
    } else if s.len() >= 3 && s[0] == '\r' && s[1] == '\n' && s[2] == c {
        if a.len() < 3 {
            assert(a.last() == s[a.len() - 1]);
        }
        let rest = a.skip(3);
        if rest.len() > 0 {
            assert(rest.last() == a.last());
        }
        lemma_joined_concat(rest, b, c);
        assert(s.skip(3) =~= rest + b);
        assert(a[0] == s[0] && a[1] == s[1] && a[2] == s[2]);
        assert(joined(s, c) =~= joined(a, c) + joined(b, c));
        if rest.len() == 0 {
            assert(joined(a, c).last() == ' ');
        } else {
            assert(joined(a, c).last() == joined(rest, c).last());
        }
    } else {
        let rest = a.skip(1);
        if rest.len() > 0 {
            assert(rest.last() == a.last());
        }
        lemma_joined_concat(rest, b, c);
        assert(s.skip(1) =~= rest + b);
        assert(a[0] == s[0]);
        assert(!(a.len() >= 3 && a[0] == '\r' && a[1] == '\n' && a[2] == c)) by {
            if a.len() >= 3 {
                assert(a[1] == s[1] && a[2] == s[2]);
            }
        }
        assert(joined(s, c) =~= joined(a, c) + joined(b, c));
        if rest.len() == 0 {
            assert(joined(a, c).last() == a[0]);
        } else {
            assert(joined(a, c).last() == joined(rest, c).last());
        }
    }
}

proof fn lemma_joined_char(first: char, b: Seq<char>, c: char)
    requires
        first != '\r',
    ensures
        joined(seq![first] + b, c) == seq![first] + joined(b, c),
{
    let s = seq![first] + b;
    assert(s[0] == first);
    assert(s.skip(1) =~= b);
}

proof fn lemma_joined_fold(fold: char, b: Seq<char>, c: char)
    requires
        fold == ' ' || fold == '\t',
    ensures
        joined(seq!['\r', '\n', fold] + b, c) == if fold == c {
            seq![' '] + joined(b, c)
        } else {
            seq!['\r', '\n', fold] + joined(b, c)
        },
{
    let s = seq!['\r', '\n', fold] + b;
    assert(s[0] == '\r' && s[1] == '\n' && s[2] == fold);
    if fold == c {
        assert(s.skip(3) =~= b);
    } else {
        let t = seq!['\n', fold] + b;
        assert(s.skip(1) =~= t);
        lemma_joined_char(fold, b, c);
        assert(t =~= seq!['\n'] + (seq![fold] + b));
        lemma_joined_char('\n', seq![fold] + b, c);
        assert(joined(s, c) =~= seq!['\r', '\n', fold] + joined(b, c));
    }
}

/// A field may go on behind a line break, where the next line opens with a space or a tab: that
/// stands for one space.
pub proof fn lemma_fold_is_a_space(before: Seq<char>, fold: char, after: Seq<char>)
    requires
        before.len() > 0,
        before.last() != '\r',
        before.last() != '\n',
        fold == ' ' || fold == '\t',
    ensures
        framing_of(before + (seq!['\r', '\n', fold] + after)) == framing_of(
            before + (seq![' '] + after),
        ),
{
    let folded = seq!['\r', '\n', fold] + after;
    let plain = seq![' '] + after;
    lemma_joined_concat(before, folded, ' ');
    lemma_joined_concat(before, plain, ' ');
    lemma_joined_fold(fold, after, ' ');
    lemma_joined_char(' ', after, ' ');
    let a = joined(before, ' ');
    let b = joined(after, ' ');
    if fold == ' ' {
        assert(joined(before + folded, ' ') == joined(before + plain, ' '));
    } else {
        lemma_joined_concat(a, seq!['\r', '\n', fold] + b, '\t');
        lemma_joined_concat(a, seq![' '] + b, '\t');
        lemma_joined_fold(fold, b, '\t');
        lemma_joined_char(' ', b, '\t');
    }
    assert(unfolded(before + folded) == unfolded(before + plain));
}

} // verus!
