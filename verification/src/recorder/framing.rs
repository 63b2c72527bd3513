//! The status and the framing that a response's header section declares.

use crate::octets::{
    crlf_position, decimal_value, find, find_crlf, is_decimal, lemma_crlf_position, lossy,
    lossy_text, octets, parse_decimal, position, starts_with,
};
use crate::text::{
    char_position, chars_of, decimal_text_value, find_char, is_decimal_text, lemma_char_position,
    lowered_text, parse_decimal_text, spells, string_of, trim_bounds, trimmed_text,
};
use vstd::prelude::*;
use vstd::slice::slice_subrange;
use vstd::string::*;

verus! {

/// Malformed responses whose message boundary cannot be determined.
#[derive(Clone, Debug, Eq, PartialEq)]
pub enum ResponseError {
    /// The response does not begin with an HTTP status line.
    MalformedStatusLine,
    /// The connection ended before a complete header section arrived.
    IncompleteHeaderSection,
    /// The header section exceeds the recorder's limit.
    OversizedHeaderSection,
    /// The response declares `Content-Length` values that disagree.
    ConflictingContentLength,
    /// A declared `Content-Length` is not a valid decimal length.
    MalformedContentLength(String),
    /// A declared chunk size is not a valid hexadecimal length.
    MalformedChunkSize(String),
    /// A chunk's data is not followed by the CR LF that ends it.
    UnterminatedChunk,
}

/// What a [`ResponseError`] says.
pub enum ResponseFault {
    MalformedStatusLine,
    IncompleteHeaderSection,
    OversizedHeaderSection,
    ConflictingContentLength,
    MalformedContentLength(Seq<char>),
    MalformedChunkSize(Seq<char>),
    UnterminatedChunk,
}

impl View for ResponseError {
    type V = ResponseFault;

    open spec fn view(&self) -> ResponseFault {
        match *self {
            ResponseError::MalformedStatusLine => ResponseFault::MalformedStatusLine,
            ResponseError::IncompleteHeaderSection => ResponseFault::IncompleteHeaderSection,
            ResponseError::OversizedHeaderSection => ResponseFault::OversizedHeaderSection,
            ResponseError::ConflictingContentLength => ResponseFault::ConflictingContentLength,
            ResponseError::MalformedContentLength(text) => ResponseFault::MalformedContentLength(
                text@,
            ),
            ResponseError::MalformedChunkSize(text) => ResponseFault::MalformedChunkSize(text@),
            ResponseError::UnterminatedChunk => ResponseFault::UnterminatedChunk,
        }
    }
}

/// How the end of a response's body is found.
#[derive(Clone, Copy)]
pub enum BodyFraming {
    /// The message ends with its header section.
    Empty,
    /// The body is this many octets.
    Length(u64),
    /// The body is chunked, and ends after its trailer section.
    Chunked,
    /// The body extends to the close of the connection.
    Close,
}

/// The code that a status line declares, where the octets begin with a status line.
pub open spec fn status_of(buffer: Seq<u8>) -> Option<u16> {
    let end = crlf_position(buffer, 0);
    let line = buffer.take(end);
    let space = position(line, 0x20, 0);
    let code = line.subrange(space + 1, position(line, 0x20, space + 1));
    if end == buffer.len() || space == line.len() || !octets("HTTP/"@).is_prefix_of(
        line.take(space),
    )
        || code.len() != 3 || !is_decimal(code) {
        None
    } else {
        Some(decimal_value(code) as u16)
    }
}

pub(crate) proof fn lemma_three_digits(code: Seq<u8>)
    requires
        is_decimal(code),
        code.len() == 3,
    ensures
        decimal_value(code) <= 999,
{
    reveal_with_fuel(decimal_value, 4);
    let two = code.drop_last();
    let one = two.drop_last();
    assert(one[0] == code[0] && two[1] == code[1]);
    assert(is_decimal(code) ==> code[0] <= 0x39 && code[1] <= 0x39 && code[2] <= 0x39);
    assert(one.drop_last().len() == 0);
}

/// Reads the code of the status line that the octets begin with.
///
/// # Errors
///
/// Returns an error if they do not begin with an HTTP status line.
pub fn parse_status(buffer: &[u8]) -> (r: Result<u16, ResponseError>)
    ensures
        match r {
            Ok(status) => status_of(buffer@) == Some(status) && status <= 999,
            Err(e) => status_of(buffer@) is None && e@ == ResponseFault::MalformedStatusLine,
        },
{
    proof {
        lemma_crlf_position(buffer@, 0);
    }
    let line_end = match find_crlf(buffer, 0) {
        Some(line_end) => line_end,
        None => {
            return Err(ResponseError::MalformedStatusLine);
        },
    };
    let line = slice_subrange(buffer, 0, line_end);
    assert(line@ =~= buffer@.take(line_end as int));
    let space = find(line, 0x20, 0);
    if space == line.len() {
        return Err(ResponseError::MalformedStatusLine);
    }
    let version = slice_subrange(line, 0, space);
    assert(version@ =~= line@.take(space as int));
    let code_end = find(line, 0x20, space + 1);
    let code = slice_subrange(line, space + 1, code_end);
    if !starts_with(version, "HTTP/".as_bytes()) || code.len() != 3 {
        return Err(ResponseError::MalformedStatusLine);
    }
    match parse_decimal(code) {
        Some(status) => {
            proof {
                lemma_three_digits(code@);
            }
            Ok(status as u16)
        },
        None => {
            proof {
                if is_decimal(code@) {
                    lemma_three_digits(code@);
                }
            }
            Err(ResponseError::MalformedStatusLine)
        },
    }
}

/// A text in which every line break followed by `c` is one space.
pub open spec fn joined(s: Seq<char>, c: char) -> Seq<char>
    decreases s.len(),
{
    if s.len() == 0 {
        s
    } else if s.len() >= 3 && s[0] == '\r' && s[1] == '\n' && s[2] == c {
        seq![' '] + joined(s.skip(3), c)
    } else {
        seq![s[0]] + joined(s.skip(1), c)
    }
}

/// A header section in which obsolete line folds are one space.
pub open spec fn unfolded(s: Seq<char>) -> Seq<char> {
    joined(joined(s, ' '), '\t')
}

/// Where the line that starts at `from` ends.
pub open spec fn line_end(s: Seq<char>, from: int) -> int
    decreases s.len() - from,
{
    if from < 0 || from + 2 > s.len() {
        s.len() as int
    } else if s[from] == '\r' && s[from + 1] == '\n' {
        from
    } else {
        line_end(s, from + 1)
    }
}

/// The lines from `from` on.
pub open spec fn lines(s: Seq<char>, from: int) -> Seq<Seq<char>>
    decreases s.len() - from,
{
    let end = line_end(s, from);
    if from < 0 || from > end || end + 2 > s.len() {
        seq![s.skip(from)]
    } else {
        seq![s.subrange(from, end)] + lines(s, end + 2)
    }
}

/// What stands behind the colon of a line that names the field.
pub open spec fn value_of(line: Seq<char>, name: Seq<char>) -> Option<Seq<char>> {
    let colon = char_position(line, ':', 0);
    if colon < line.len() && lowered_text(line.take(colon)) == lowered_text(name) {
        Some(line.skip(colon + 1))
    } else {
        None
    }
}

/// The elements that commas part, from `from` on.
pub open spec fn elements(s: Seq<char>, from: int) -> Seq<Seq<char>>
    decreases s.len() - from,
{
    let comma = char_position(s, ',', from);
    if from < 0 || from > comma || comma >= s.len() {
        seq![s.skip(from)]
    } else {
        seq![s.subrange(from, comma)] + elements(s, comma + 1)
    }
}

/// What stands behind the last comma from `from` on.
pub open spec fn last_element(s: Seq<char>, from: int) -> Seq<char>
    decreases s.len() - from,
{
    let comma = char_position(s, ',', from);
    if from < 0 || from > comma || comma >= s.len() {
        s.skip(from)
    } else {
        last_element(s, comma + 1)
    }
}

/// The last transfer coding that the lines declare, or `seen` where they declare none.
pub open spec fn final_coding(all: Seq<Seq<char>>, seen: Option<Seq<char>>) -> Option<Seq<char>>
    decreases all.len(),
{
    if all.len() == 0 {
        seen
    } else {
        match value_of(all[0], "transfer-encoding"@) {
            Some(value) => final_coding(all.skip(1), Some(trimmed_text(last_element(value, 0)))),
            None => final_coding(all.skip(1), seen),
        }
    }
}

/// The lengths that the lines declare, as they are written.
pub open spec fn declared_lengths(all: Seq<Seq<char>>) -> Seq<Seq<char>>
    decreases all.len(),
{
    if all.len() == 0 {
        Seq::empty()
    } else {
        match value_of(all[0], "content-length"@) {
            Some(value) => elements(value, 0) + declared_lengths(all.skip(1)),
            None => declared_lengths(all.skip(1)),
        }
    }
}

/// The length that a text spells: decimal digits, which one plus sign may stand before.
pub open spec fn length_of(text: Seq<char>) -> Option<u64> {
    let digits = if text.len() > 0 && text[0] == '+' {
        text.skip(1)
    } else {
        text
    };
    if is_decimal_text(digits) && decimal_text_value(digits) <= u64::MAX {
        Some(decimal_text_value(digits) as u64)
    } else {
        None
    }
}

/// The one length that the declared lengths, and the length seen before them, agree on.
pub open spec fn agreed_length(declared: Seq<Seq<char>>, seen: Option<u64>) -> Result<
    Option<u64>,
    ResponseFault,
>
    decreases declared.len(),
{
    if declared.len() == 0 {
        Ok(seen)
    } else {
        let text = trimmed_text(declared[0]);
        match length_of(text) {
            None => Err(ResponseFault::MalformedContentLength(text)),
            Some(length) => if seen is Some && seen != Some(length) {
                Err(ResponseFault::ConflictingContentLength)
            } else {
                agreed_length(declared.skip(1), Some(length))
            },
        }
    }
}

/// The framing that the text of a header section declares.
///
/// `Transfer-Encoding` overrides `Content-Length`. A final coding other than `chunked`, or no
/// framing field, makes the response end where the connection closes.
pub open spec fn framing_of(text: Seq<char>) -> Result<BodyFraming, ResponseFault> {
    let fields = lines(unfolded(text), 0).skip(1);
    match agreed_length(declared_lengths(fields), None) {
        Err(fault) => Err(fault),
        Ok(length) => match final_coding(fields, None) {
            Some(coding) => if lowered_text(coding) == lowered_text("chunked"@) {
                Ok(BodyFraming::Chunked)
            } else {
                Ok(BodyFraming::Close)
            },
            None => match length {
                Some(length) => Ok(BodyFraming::Length(length)),
                None => Ok(BodyFraming::Close),
            },
        },
    }
}

pub(crate) proof fn lemma_agreed_length_concat(
    first: Seq<Seq<char>>,
    second: Seq<Seq<char>>,
    seen: Option<u64>,
)
    ensures
        agreed_length(first + second, seen) == match agreed_length(first, seen) {
            Err(fault) => Err(fault),
            Ok(length) => agreed_length(second, length),
        },
    decreases first.len(),
{
    let whole = first + second;
    if first.len() == 0 {
        assert(whole =~= second);
    } else {
        assert(whole[0] == first[0]);
        assert(whole.skip(1) =~= first.skip(1) + second);
        match length_of(trimmed_text(first[0])) {
            Some(length) => {
                lemma_agreed_length_concat(first.skip(1), second, Some(length));
            },
            None => {},
        }
    }
}

proof fn lemma_line_end(s: Seq<char>, from: int)
    requires
        0 <= from <= s.len(),
    ensures
        from <= line_end(s, from) <= s.len(),
        line_end(s, from) < s.len() ==> line_end(s, from) + 2 <= s.len(),
    decreases s.len() - from,
{
    if from + 2 <= s.len() && !(s[from] == '\r' && s[from + 1] == '\n') {
        lemma_line_end(s, from + 1);
    }
}

/// Replaces every line break followed by `c` with one space.
fn join(s: &Vec<char>, c: char) -> (r: Vec<char>)
    ensures
        r@ == joined(s@, c),
{
    let mut out: Vec<char> = Vec::new();
    let mut i: usize = 0;
    assert(s@.skip(0) =~= s@);
    assert(out@ + joined(s@, c) =~= joined(s@, c));
    while i < s.len()
        invariant
            i <= s.len(),
            out@ + joined(s@.skip(i as int), c) == joined(s@, c),
        decreases s.len() - i,
    {
        let ghost rest = s@.skip(i as int);
        if s.len() - i >= 3 && s[i] == '\r' && s[i + 1] == '\n' && s[i + 2] == c {
            assert(rest.skip(3) =~= s@.skip(i + 3));
            let ghost before = out@;
            out.push(' ');
            i = i + 3;
            assert(out@ + joined(s@.skip(i as int), c) =~= before + joined(rest, c));
        } else {
            assert(rest.skip(1) =~= s@.skip(i + 1));
            let ghost before = out@;
            out.push(s[i]);
            i = i + 1;
            assert(out@ + joined(s@.skip(i as int), c) =~= before + joined(rest, c));
        }
    }
    assert(out@ =~= joined(s@, c));
    out
}

/// Where the line that starts at `from` ends.
fn find_line_end(s: &Vec<char>, from: usize) -> (r: usize)
    requires
        from <= s.len(),
    ensures
        r == line_end(s@, from as int),
        from <= r <= s.len(),
        r < s.len() ==> r + 2 <= s.len(),
{
    let mut i: usize = from;
    while s.len() - i >= 2
        invariant
            from <= i <= s.len(),
            line_end(s@, from as int) == line_end(s@, i as int),
        decreases s.len() - i,
    {
        if s[i] == '\r' && s[i + 1] == '\n' {
            return i;
        }
        i = i + 1;
    }
    s.len()
}

/// The length that `from..to` spells.
pub(crate) fn parse_length(s: &Vec<char>, from: usize, to: usize) -> (r: Option<u64>)
    requires
        from <= to <= s.len(),
    ensures
        r == length_of(s@.subrange(from as int, to as int)),
{
    let ghost part = s@.subrange(from as int, to as int);
    if from < to && s[from] == '+' {
        assert(part[0] == '+');
        assert(s@.subrange(from + 1, to as int) =~= part.skip(1));
        parse_decimal_text(s, from + 1, to)
    } else {
        assert(part.len() > 0 ==> part[0] == s@[from as int]);
        parse_decimal_text(s, from, to)
    }
}

/// The length that the elements in `from..to`, and the length seen before them, agree on.
fn agree(s: &Vec<char>, text: &str, from: usize, to: usize, seen: Option<u64>) -> (r: Result<
    Option<u64>,
    ResponseError,
>)
    requires
        from <= to <= s.len(),
        s@ == text@,
    ensures
        ({
            let expected = agreed_length(
                elements(s@.subrange(from as int, to as int), 0),
                seen,
            );
            match r {
                Ok(length) => expected == Ok::<Option<u64>, ResponseFault>(length),
                Err(e) => expected == Err::<Option<u64>, ResponseFault>(e@),
            }
        }),
{
    let ghost part = s@.subrange(from as int, to as int);
    let ghost expected = agreed_length(elements(part, 0), seen);
    let mut length: Option<u64> = seen;
    let mut start: usize = from;
    loop
        invariant
            from <= start <= to <= s.len(),
            part == s@.subrange(from as int, to as int),
            s@ == text@,
            expected == agreed_length(elements(part, 0), seen),
            expected == agreed_length(elements(part, start - from), length),
        decreases to - start,
    {
        let comma = find_char(s, ',', start, to);
        let ghost rest = elements(part, start - from);
        proof {
            let tail = s@.subrange(start as int, to as int);
            assert(tail =~= part.skip(start - from));
            lemma_char_position(tail, ',', 0);
            lemma_position_in_tail(part, ',', start - from);
            assert(char_position(part, ',', start - from) == comma - from);
            if comma < to {
                assert(rest[0] =~= s@.subrange(start as int, comma as int));
                assert(rest.skip(1) =~= elements(part, comma + 1 - from));
            } else {
                assert(rest[0] =~= s@.subrange(start as int, comma as int));
                assert(rest.skip(1) =~= Seq::empty());
            }
        }
        let (token_start, token_end) = trim_bounds(s, start, comma);
        let found = match parse_length(s, token_start, token_end) {
            Some(found) => found,
            None => {
                let token = text.substring_char(token_start, token_end);
                return Err(ResponseError::MalformedContentLength(token.to_owned()));
            },
        };
        match length {
            Some(seen_length) => {
                if seen_length != found {
                    return Err(ResponseError::ConflictingContentLength);
                }
            },
            None => {},
        }
        length = Some(found);
        if comma == to {
            assert(agreed_length(Seq::empty(), length) == Ok::<Option<u64>, ResponseFault>(length));
            return Ok(length);
        }
        start = comma + 1;
    }
}

/// A position in the rest of a text is one in the text.
proof fn lemma_position_in_tail(s: Seq<char>, c: char, from: int)
    requires
        0 <= from <= s.len(),
    ensures
        char_position(s, c, from) == from + char_position(s.skip(from), c, 0),
    decreases s.len() - from,
{
    lemma_char_position(s.skip(from), c, 0);
    lemma_char_position(s, c, from);
    let at = char_position(s, c, from);
    let inner = char_position(s.skip(from), c, 0);
    if at < from + inner {
        assert(s.skip(from)[at - from] == s[at]);
    }
    if from + inner < at {
        assert(s.skip(from)[inner] == s[from + inner]);
    }
}

/// The framing that the text of a header section declares.
///
/// # Errors
///
/// Returns an error if declared lengths are malformed or disagree.
pub fn text_framing(text: &str) -> (r: Result<BodyFraming, ResponseError>)
    ensures
        match r {
            Ok(framing) => framing_of(text@) == Ok::<BodyFraming, ResponseFault>(framing),
            Err(e) => framing_of(text@) == Err::<BodyFraming, ResponseFault>(e@),
        },
{
    let joined_lines = join(&join(&chars_of(text), ' '), '\t');
    let unfolded_text = string_of(&joined_lines);
    unfolded_framing(&joined_lines, unfolded_text.as_str())
}

fn unfolded_framing(s: &Vec<char>, text: &str) -> (r: Result<BodyFraming, ResponseError>)
    requires
        s@ == text@,
    ensures
        ({
            let fields = lines(s@, 0).skip(1);
            let expected = agreed_length(declared_lengths(fields), None);
            match r {
                Ok(framing) => match expected {
                    Err(_) => false,
                    Ok(length) => match final_coding(fields, None) {
                        Some(coding) => framing == if lowered_text(coding) == lowered_text(
                            "chunked"@,
                        ) {
                            BodyFraming::Chunked
                        } else {
                            BodyFraming::Close
                        },
                        None => match length {
                            Some(length) => framing == BodyFraming::Length(length),
                            None => framing == BodyFraming::Close,
                        },
                    },
                },
                Err(e) => expected == Err::<Option<u64>, ResponseFault>(e@),
            }
        }),
{
    let ghost fields = lines(s@, 0).skip(1);
    let ghost expected = agreed_length(declared_lengths(fields), None);
    let first_end = find_line_end(s, 0);
    let mut chunked: Option<bool> = None;
    let ghost mut coding: Option<Seq<char>> = None;
    let mut length: Option<u64> = None;
    let mut at: usize = first_end;
    assert(at == s.len() ==> fields =~= Seq::empty());
    assert(at < s.len() ==> fields =~= lines(s@, at + 2));
    while at < s.len()
        invariant
            at <= s.len(),
            at < s.len() ==> at + 2 <= s.len(),
            s@ == text@,
            fields == lines(s@, 0).skip(1),
            expected == agreed_length(declared_lengths(fields), None),
            ({
                let rest = if at < s.len() {
                    lines(s@, at + 2)
                } else {
                    Seq::empty()
                };
                &&& expected == agreed_length(declared_lengths(rest), length)
                &&& final_coding(fields, None) == final_coding(rest, coding)
            }),
            match coding {
                Some(declared) => chunked == Some(
                    lowered_text(declared) == lowered_text("chunked"@),
                ),
                None => chunked is None,
            },
        decreases s.len() - at,
    {
        let start: usize = at + 2;
        let end = find_line_end(s, start);
        let colon = find_char(s, ':', start, end);
        let ghost line = s@.subrange(start as int, end as int);
        let ghost rest = lines(s@, start as int);
        let ghost tail = if end < s.len() {
            lines(s@, end + 2)
        } else {
            Seq::empty()
        };
        proof {
            assert(rest[0] =~= line);
            assert(rest.skip(1) =~= tail);
            assert(colon < end ==> line.take(colon - start) =~= s@.subrange(
                start as int,
                colon as int,
            ));
            assert(colon < end ==> line.skip(colon - start + 1) =~= s@.subrange(
                colon + 1,
                end as int,
            ));
        }
        if colon < end && spells(s, start, colon, "transfer-encoding") {
            let ghost value = line.skip(colon - start + 1);
            let (coding_start, coding_end) = last_coding(s, colon + 1, end);
            chunked = Some(spells(s, coding_start, coding_end, "chunked"));
            proof {
                coding = Some(trimmed_text(last_element(value, 0)));
                lemma_names_differ();
            }
        } else if colon < end && spells(s, start, colon, "content-length") {
            proof {
                lemma_agreed_length_concat(
                    elements(line.skip(colon - start + 1), 0),
                    declared_lengths(tail),
                    length,
                );
            }
            length = match agree(s, text, colon + 1, end, length) {
                Ok(agreed) => agreed,
                Err(e) => {
                    return Err(e);
                },
            };
        }
        at = end;
    }
    match chunked {
        Some(true) => Ok(BodyFraming::Chunked),
        Some(false) => Ok(BodyFraming::Close),
        None => match length {
            Some(found) => Ok(BodyFraming::Length(found)),
            None => Ok(BodyFraming::Close),
        },
    }
}

/// No line names both framing fields.
proof fn lemma_names_differ()
    ensures
        lowered_text("transfer-encoding"@) != lowered_text("content-length"@),
{
    reveal_strlit("transfer-encoding");
    reveal_strlit("content-length");
    assert(lowered_text("transfer-encoding"@).len() == 17);
    assert(lowered_text("content-length"@).len() == 14);
}

/// The bounds of the last element in `from..to`, without the white space around it.
fn last_coding(s: &Vec<char>, from: usize, to: usize) -> (r: (usize, usize))
    requires
        from <= to <= s.len(),
    ensures
        from <= r.0 <= r.1 <= to,
        s@.subrange(r.0 as int, r.1 as int) == trimmed_text(
            last_element(s@.subrange(from as int, to as int), 0),
        ),
{
    let ghost part = s@.subrange(from as int, to as int);
    let mut start: usize = from;
    loop
        invariant
            from <= start <= to <= s.len(),
            part == s@.subrange(from as int, to as int),
            last_element(part, 0) == last_element(part, start - from),
        decreases to - start,
    {
        let comma = find_char(s, ',', start, to);
        proof {
            assert(s@.subrange(start as int, to as int) =~= part.skip(start - from));
            lemma_position_in_tail(part, ',', start - from);
        }
        if comma == to {
            return trim_bounds(s, start, to);
        }
        start = comma + 1;
    }
}

/// The framing of a response: RFC 9112 section 6.3.
pub open spec fn response_framing(
    header_section: Seq<u8>,
    head_request: bool,
    status: u16,
) -> Result<
    BodyFraming,
    ResponseFault,
> {
    if head_request || status == 204 || status == 304 {
        Ok(BodyFraming::Empty)
    } else {
        framing_of(lossy_text(header_section))
    }
}

/// Determines how the end of a response's body is found.
///
/// The recorded octets stay as they are: line folds are joined in a copy of the header section.
///
/// # Errors
///
/// Returns an error if declared lengths are malformed or disagree.
pub fn body_framing(header_section: &[u8], head_request: bool, status: u16) -> (r: Result<
    BodyFraming,
    ResponseError,
>)
    ensures
        ({
            let expected = response_framing(header_section@, head_request, status);
            match r {
                Ok(framing) => expected == Ok::<BodyFraming, ResponseFault>(framing),
                Err(e) => expected == Err::<BodyFraming, ResponseFault>(e@),
            }
        }),
{
    if head_request || status == 204 || status == 304 {
        return Ok(BodyFraming::Empty);
    }
    let text = lossy(header_section);
    text_framing(text.as_str())
}

} // verus!
