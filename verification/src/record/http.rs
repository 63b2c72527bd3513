//! HTTP message reconstruction for `application/http` blocks.
//!
//! These functions rebuild HTTP/1.1 messages for clients that expose parsed parts but not the
//! serialized message. Reconstruction uses the lower-case header names of the `http` crate and the
//! status code's canonical reason phrase; providing a body also rewrites its framing. Its block
//! digest therefore does not verify the bytes sent by the origin.
//!
//! A provided body is framed by `content-length` after any `Transfer-Encoding` is removed. Reading
//! the block with [`entity_body`](crate::record::payload::entity_body) recovers that body.

use crate::octets::{
    append, ascii_string, ascii_text, copied, decimal, decimal_octets, find, is_ascii, is_visible,
    is_white, lemma_decimal, lemma_position, lemma_position_is, lowered, octets, position,
    same_but_for_case, trim, trimmed, utf8_string, white,
};
use crate::parsing::{
    content_end, is_lws, is_text, is_text_char, is_token, is_token_char, line_break, token,
};
use crate::record::payload::{
    body_of, body_start, codings, is_transfer_encoding, message_parts, Fault,
};
use crate::record::lift::shown;
use crate::recorder::declared::{
    coding_text, digits_text, is_number, lemma_coding, lemma_digits, lemma_no_length, lemma_number,
    number_text, spells_no_length, zeros_text, Coding, Number,
};
use crate::recorder::ending::{is_status_line_of, lemma_status, status_digits};
use crate::recorder::framing::{length_of, parse_length, parse_status, status_of};
use crate::recorder::response::{find_header_end, header_end};
use crate::text::{chars_of, same_ignoring_case, same_text, trim_bounds, trimmed_text};
use vstd::prelude::*;
use vstd::slice::slice_subrange;
use vstd::string::*;
use vstd::utf8::{decode_utf8, encode_utf8_decode_utf8, valid_utf8};

verus! {

/// A header field: its name, and its value.
pub type HeaderLine = (Seq<char>, Seq<u8>);

/// The header fields that stand for pairs of a name and a value.
pub open spec fn lines_in(pairs: Seq<(String, Vec<u8>)>) -> Seq<HeaderLine> {
    pairs.map_values(|pair: (String, Vec<u8>)| (pair.0@, pair.1@))
}

/// A line without the carriage return that closes it.
pub open spec fn without_return(line: Seq<u8>) -> Seq<u8> {
    if line.len() > 0 && line.last() == 0x0d {
        line.drop_last()
    } else {
        line
    }
}

/// Header fields with a further line: an empty one is skipped, one that opens with white space
/// continues the field before it, and any other is a field of its own.
pub open spec fn with_field(fields: Seq<HeaderLine>, line: Seq<u8>) -> Option<Seq<HeaderLine>> {
    if line.len() == 0 {
        Some(fields)
    } else if is_white(line[0]) {
        if fields.len() == 0 {
            None
        } else {
            let (name, value) = fields.last();
            Some(fields.drop_last().push((name, value + seq![0x20u8] + trimmed(line))))
        }
    } else {
        let colon = position(line, 0x3a, 0);
        if colon == line.len() || !valid_utf8(line.take(colon)) {
            None
        } else {
            Some(fields.push((decode_utf8(line.take(colon)), trimmed(line.skip(colon + 1)))))
        }
    }
}

/// Header fields with the lines from `from` on.
pub open spec fn with_fields(
    fields: Seq<HeaderLine>,
    section: Seq<u8>,
    from: int,
) -> Option<Seq<HeaderLine>>
    decreases section.len() - from,
{
    if from < 0 || from > section.len() {
        Some(fields)
    } else {
        let end = position(section, 0x0a, from);
        match with_field(fields, without_return(section.subrange(from, end))) {
            None => None,
            Some(more) => if from <= end < section.len() {
                with_fields(more, section, end + 1)
            } else {
                Some(more)
            },
        }
    }
}

/// The header fields of a response, where its header section is complete and well-formed.
pub open spec fn response_fields(response: Seq<u8>) -> Option<Seq<HeaderLine>> {
    match header_end(response, 0) {
        None => None,
        Some(end) => with_fields(
            Seq::empty(),
            response.subrange(crate::octets::crlf_position(response, 0) + 2, end - 2),
            0,
        ),
    }
}

/// The value of the first field of a name from `from` on.
pub open spec fn field_value(fields: Seq<HeaderLine>, name: Seq<char>, from: int) -> Option<Seq<u8>>
    decreases fields.len() - from,
{
    if from < 0 || from >= fields.len() {
        None
    } else if same_but_for_case(octets(fields[from].0), octets(name)) {
        Some(fields[from].1)
    } else {
        field_value(fields, name, from + 1)
    }
}

/// Parsed fields and boundaries of a recorded HTTP response message.
#[derive(Clone, Debug, Eq, PartialEq)]
pub struct ResponseMetadata {
    /// Final HTTP response status.
    pub status: u16,
    /// Offset at which the recorded message body begins.
    pub body_offset: usize,
    /// The header fields, in the order they stand in.
    headers: Vec<(String, Vec<u8>)>,
}

/// What a [`ResponseMetadata`] says.
pub struct Metadata {
    /// The status of the response.
    pub status: u16,
    /// Where the body begins.
    pub body_offset: int,
    /// The header fields, in the order they stand in.
    pub fields: Seq<HeaderLine>,
}

impl View for ResponseMetadata {
    type V = Metadata;

    closed spec fn view(&self) -> Metadata {
        Metadata {
            status: self.status,
            body_offset: self.body_offset as int,
            fields: lines_in(self.headers@),
        }
    }
}

/// The first line break of a response is no later than the empty line.
proof fn lemma_first_break(s: Seq<u8>, from: int)
    requires
        0 <= from,
        header_end(s, from) is Some,
    ensures
        from + 4 <= header_end(s, from)->0 <= s.len(),
        from <= crate::octets::crlf_position(s, from) <= header_end(s, from)->0 - 4,
    decreases s.len() - from,
{
    if !(s[from] == 0x0d && s[from + 1] == 0x0a && s[from + 2] == 0x0d && s[from + 3] == 0x0a) {
        lemma_first_break(s, from + 1);
    }
}

impl ResponseMetadata {
    /// Parse a complete HTTP response header section.
    #[must_use]
    pub fn parse(response: &[u8]) -> (r: Option<Self>)
        ensures
            match r {
                Some(metadata) => {
                    &&& status_of(response@) == Some(metadata@.status)
                    &&& header_end(response@, 0) == Some(metadata@.body_offset)
                    &&& metadata@.body_offset <= response.len()
                    &&& response_fields(response@) == Some(metadata@.fields)
                },
                None => status_of(response@) is None || response_fields(response@) is None,
            },
    {
        let body_offset: usize = match find_header_end(response) {
            Some(end) => end,
            None => {
                return None;
            },
        };
        let status: u16 = match parse_status(response) {
            Ok(status) => status,
            Err(_) => {
                return None;
            },
        };
        proof {
            lemma_first_break(response@, 0);
        }
        let line_end: usize = match crate::octets::find_crlf(response, 0) {
            Some(end) => end,
            None => {
                return None;
            },
        };
        let section = slice_subrange(response, line_end + 2, body_offset - 2);
        match parse_fields(section) {
            Some(headers) => Some(ResponseMetadata { status, body_offset, headers }),
            None => None,
        }
    }

    /// Where the body of the recorded message begins.
    pub(crate) fn body_start(&self) -> (r: usize)
        ensures
            r == self@.body_offset,
    {
        self.body_offset
    }

    /// Return the first response header value, matched case-insensitively.
    #[must_use]
    pub fn header(&self, name: &str) -> (r: Option<&[u8]>)
        ensures
            match r {
                Some(value) => field_value(self@.fields, name@, 0) == Some(value@),
                None => field_value(self@.fields, name@, 0) is None,
            },
    {
        let mut i: usize = 0;
        while i < self.headers.len()
            invariant
                i <= self.headers.len(),
                field_value(self@.fields, name@, 0) == field_value(
                    self@.fields,
                    name@,
                    i as int,
                ),
            decreases self.headers.len() - i,
        {
            assert(
                self@.fields[i as int] == (self.headers@[i as int].0@, self.headers@[i as int].1@)
            );
            if same_ignoring_case(self.headers[i].0.as_str(), name) {
                return Some(self.headers[i].1.as_slice());
            }
            i = i + 1;
        }
        None
    }
}

/// The header fields of the lines of a header section.
fn parse_fields(section: &[u8]) -> (r: Option<Vec<(String, Vec<u8>)>>)
    ensures
        match r {
            Some(headers) => with_fields(Seq::empty(), section@, 0) == Some(lines_in(headers@)),
            None => with_fields(Seq::empty(), section@, 0) is None,
        },
{
    let mut headers: Vec<(String, Vec<u8>)> = Vec::new();
    let mut from: usize = 0;
    assert(lines_in(headers@) =~= Seq::empty());
    loop
        invariant
            from <= section.len(),
            with_fields(Seq::empty(), section@, 0) == with_fields(
                lines_in(headers@),
                section@,
                from as int,
            ),
        decreases section.len() - from,
    {
        proof {
            lemma_position(section@, 0x0a, from as int);
        }
        let end: usize = find(section, 0x0a, from);
        let whole = slice_subrange(section, from, end);
        let line = if whole.len() > 0 && whole[whole.len() - 1] == 0x0d {
            let line = slice_subrange(whole, 0, whole.len() - 1);
            assert(line@ =~= whole@.drop_last());
            line
        } else {
            whole
        };
        assert(line@ == without_return(section@.subrange(from as int, end as int)));
        if !push_field(&mut headers, line) {
            return None;
        }
        if end == section.len() {
            return Some(headers);
        }
        from = end + 1;
    }
}

/// Adds a header line to header fields, or returns `false` where it is malformed.
fn push_field(headers: &mut Vec<(String, Vec<u8>)>, line: &[u8]) -> (r: bool)
    ensures
        r <==> with_field(lines_in(old(headers)@), line@) is Some,
        r ==> with_field(lines_in(old(headers)@), line@) == Some(lines_in(final(headers)@)),
{
    let ghost before = headers@;
    if line.len() == 0 {
        return true;
    }
    if white(line[0]) {
        match headers.pop() {
            None => false,
            Some((name, value)) => {
                let mut value = value;
                let ghost old_value = value@;
                value.push(0x20);
                append(&mut value, trim(line));
                proof {
                    assert(value@ =~= old_value + seq![0x20u8] + trimmed(line@));
                    let last = before.len() - 1;
                    assert(lines_in(before)[last] == (name@, old_value));
                    assert(before == headers@.push((before[last].0, before[last].1)));
                }
                headers.push((name, value));
                assert(lines_in(headers@) =~= lines_in(before).drop_last().push((name@, value@)));
                true
            },
        }
    } else {
        proof {
            lemma_position(line@, 0x3a, 0);
        }
        let colon: usize = find(line, 0x3a, 0);
        if colon == line.len() {
            return false;
        }
        let name = slice_subrange(line, 0, colon);
        let rest = slice_subrange(line, colon + 1, line.len());
        assert(name@ =~= line@.take(colon as int));
        assert(rest@ =~= line@.skip(colon + 1));
        match utf8_string(copied(name)) {
            None => false,
            Some(name) => {
                let value = copied(trim(rest));
                proof {
                    encode_utf8_decode_utf8(name@);
                }
                headers.push((name, value));
                assert(lines_in(headers@) =~= lines_in(before).push((name@, value@)));
                true
            },
        }
    }
}

/// The version of an HTTP message.
#[derive(Clone, Copy, Debug, PartialEq, Eq, Structural)]
pub enum Version {
    /// HTTP/0.9.
    Http09,
    /// HTTP/1.0.
    Http10,
    /// HTTP/1.1.
    Http11,
    /// HTTP/2.
    Http2,
    /// HTTP/3.
    Http3,
}

impl Version {
    /// The token that stands for a version in a message.
    pub open spec fn token(self) -> Seq<char> {
        match self {
            Version::Http09 => "HTTP/0.9"@,
            Version::Http10 => "HTTP/1.0"@,
            _ => "HTTP/1.1"@,
        }
    }
}

/// The token that stands for a version in a message.
fn version_token(version: Version) -> (r: &'static str)
    ensures
        r@ == version.token(),
{
    match version {
        Version::Http09 => "HTTP/0.9",
        Version::Http10 => "HTTP/1.0",
        _ => "HTTP/1.1",
    }
}

/// A status code of three digits.
#[derive(Clone, Copy, Debug, PartialEq, Eq)]
pub struct StatusCode {
    code: u16,
}

impl View for StatusCode {
    type V = u16;

    closed spec fn view(&self) -> u16 {
        self.code
    }
}

impl StatusCode {
    #[verifier::type_invariant]
    spec fn well_formed(self) -> bool {
        100 <= self.code < 1000
    }

    /// The status of a code, or `None` for a number that has not three digits.
    pub fn from_u16(code: u16) -> (r: Option<Self>)
        ensures
            match r {
                Some(status) => status@ == code && 100 <= code < 1000,
                None => code < 100 || code >= 1000,
            },
    {
        if code < 100 || code >= 1000 {
            None
        } else {
            Some(StatusCode { code })
        }
    }

    /// The code of the status.
    pub fn as_u16(self) -> (r: u16)
        ensures
            r == self@,
            100 <= r < 1000,
    {
        proof {
            use_type_invariant(&self);
        }
        self.code
    }
}

/// The canonical reason phrase of a status code, where it has one.
pub uninterp spec fn reason_phrase(code: u16) -> Option<Seq<char>>;

/// Whether octets hold neither a line feed nor a carriage return.
pub open spec fn is_one_line(s: Seq<u8>) -> bool {
    forall|i: int| 0 <= i < s.len() ==> #[trigger] s[i] != 0x0a && s[i] != 0x0d
}

/// The canonical reason phrase of a status code, where it has one.
///
/// Calls `http::StatusCode::canonical_reason`, which looks the code up in a fixed table. No phrase
/// in the table holds a line break.
#[verifier::external_body]
fn canonical_reason(code: u16) -> (r: Option<&'static str>)
    requires
        100 <= code < 1000,
    ensures
        match r {
            Some(phrase) => reason_phrase(code) == Some(phrase@) && is_one_line(octets(phrase@)),
            None => reason_phrase(code) is None,
        },
{
    ::http::StatusCode::from_u16(code).ok()?.canonical_reason()
}

/// What is shown of a status: its code, and its reason phrase.
pub open spec fn status_text(code: u16) -> Seq<char> {
    ascii_text(decimal(code as nat)) + " "@ + match reason_phrase(code) {
        Some(phrase) => phrase,
        None => "<unknown status code>"@,
    }
}

/// Errors returned while reconstructing an HTTP message.
#[derive(Clone, Debug, Eq, PartialEq)]
pub enum Error {
    /// A non-empty body was provided for a status that forbids one.
    BodyForbidden(StatusCode),
}

impl Error {
    /// What the error says.
    pub open spec fn message(self) -> Seq<char> {
        match self {
            Error::BodyForbidden(status) => "A "@ + status_text(status@)
                + " response cannot carry a body."@,
        }
    }

    /// What the error says.
    pub fn to_string(&self) -> (r: String)
        ensures
            r@ == self.message(),
    {
        match self {
            Error::BodyForbidden(status) => {
                let code: u16 = status.as_u16();
                let mut text = "A ".to_string();
                proof {
                    lemma_decimal(code as nat);
                    lemma_digits_are_ascii(code as nat);
                }
                let digits = ascii_string(decimal_octets(code as u64).as_slice());
                text.append(digits.as_str());
                text.append(" ");
                match canonical_reason(code) {
                    Some(phrase) => text.append(phrase),
                    None => text.append("<unknown status code>"),
                }
                text.append(" response cannot carry a body.");
                assert(text@ =~= self.message());
                text
            },
        }
    }
}

proof fn lemma_digits_are_ascii(n: nat)
    ensures
        is_ascii(decimal(n)),
        is_one_line(decimal(n)),
{
    lemma_decimal(n);
    assert forall|i: int| 0 <= i < decimal(n).len() implies #[trigger] decimal(n)[i] < 0x80 by {
        assert(crate::octets::is_digit(decimal(n)[i]));
    }
    assert forall|i: int| 0 <= i < decimal(n).len() implies #[trigger] decimal(n)[i] != 0x0a
        && decimal(n)[i] != 0x0d by {
        assert(crate::octets::is_digit(decimal(n)[i]));
    }
}

/// The header fields of an HTTP message.
#[verifier::external_type_specification]
#[verifier::external_body]
#[verifier::reject_recursive_types(T)]
pub struct ExHeaderMap<T>(::http::HeaderMap<T>);

/// The value of a header field.
#[verifier::external_type_specification]
#[verifier::external_body]
pub struct ExHeaderValue(::http::HeaderValue);

/// The fields that a header map holds, in the order in which it is walked.
pub uninterp spec fn header_lines(headers: ::http::HeaderMap) -> Seq<HeaderLine>;

/// Whether octets are a name in lower case: visible ASCII without a colon.
pub open spec fn is_field_name(name: Seq<u8>) -> bool {
    &&& name.len() > 0
    &&& lowered(name) == name
    &&& forall|i: int| 0 <= i < name.len() ==> 0x20 < #[trigger] name[i] < 0x7f && name[i] != 0x3a
}

/// Whether a field is one that a header map can hold: its name is visible ASCII in lower case, and
/// its value is text.
pub open spec fn is_header_line(line: HeaderLine) -> bool {
    is_field_name(octets(line.0)) && is_text(line.1)
}

/// The fields that a header map holds.
///
/// Calls `HeaderMap::iter`, which visits every field once, and takes each name and value as it is.
/// A `HeaderName` holds visible characters in lower case and no colon, and a `HeaderValue` holds no
/// control character but tab.
#[verifier::external_body]
pub(crate) fn lines_of_map(headers: &::http::HeaderMap) -> (r: Vec<(String, Vec<u8>)>)
    ensures
        lines_in(r@) == header_lines(*headers),
        forall|i: int| 0 <= i < r.len() ==> is_header_line(#[trigger] lines_in(r@)[i]),
{
    headers.iter().map(
        |(name, value)| (name.as_str().to_owned(), value.as_bytes().to_vec()),
    ).collect()
}

/// Whether a status forbids a body: it is informational, `204`, or `304`.
pub open spec fn forbids(code: u16) -> bool {
    code < 200 || code == 204 || code == 304
}

/// Whether a status forbids a body.
fn forbids_body(status: StatusCode) -> (r: bool)
    ensures
        r == forbids(status@),
{
    let code: u16 = status.as_u16();
    code < 200 || code == 204 || code == 304
}

/// Whether octets are visible ASCII, space, and tab alone.
pub open spec fn is_plain(value: Seq<u8>) -> bool {
    forall|i: int| 0 <= i < value.len() ==> 0x20 <= #[trigger] value[i] < 0x7f || value[i] == 0x09
}

/// The length that a `Content-Length` value declares.
pub open spec fn declared_length(value: Seq<u8>) -> Option<u64> {
    if is_plain(value) {
        length_of(trimmed_text(ascii_text(value)))
    } else {
        None
    }
}

/// Whether a field is named `content-length`.
pub open spec fn is_length(line: HeaderLine) -> bool {
    line.0 == "content-length"@
}

/// Whether a field is named `transfer-encoding`.
pub open spec fn is_coding(line: HeaderLine) -> bool {
    line.0 == "transfer-encoding"@
}

/// The values of the `content-length` fields from `from` on.
pub open spec fn lengths(lines: Seq<HeaderLine>, from: int) -> Seq<Seq<u8>>
    decreases lines.len() - from,
{
    if from < 0 || from >= lines.len() {
        Seq::empty()
    } else if is_length(lines[from]) {
        seq![lines[from].1] + lengths(lines, from + 1)
    } else {
        lengths(lines, from + 1)
    }
}

/// Whether a lone `content-length` field declares the length of a body.
pub open spec fn matches_framing(lines: Seq<HeaderLine>, length: nat) -> bool {
    let values = lengths(lines, 0);
    values.len() == 1 && declared_length(values[0]) == Some(length as u64)
}

/// The fields that stay beside a body: all but `transfer-encoding`, and `content-length` where it
/// stays too.
pub open spec fn kept(lines: Seq<HeaderLine>, keep_length: bool) -> Seq<HeaderLine>
    decreases lines.len(),
{
    if lines.len() == 0 {
        lines
    } else {
        let before = kept(lines.drop_last(), keep_length);
        if is_coding(lines.last()) || (is_length(lines.last()) && !keep_length) {
            before
        } else {
            before.push(lines.last())
        }
    }
}

/// The fields of a message: as they are where there is no body, and otherwise framed by its length.
pub open spec fn framed(lines: Seq<HeaderLine>, body: Option<Seq<u8>>) -> Seq<HeaderLine> {
    match body {
        None => lines,
        Some(body) => if matches_framing(lines, body.len()) {
            kept(lines, true)
        } else {
            kept(lines, false).push(("content-length"@, decimal(body.len())))
        },
    }
}

/// The octets of a field.
pub open spec fn line_octets(line: HeaderLine) -> Seq<u8> {
    octets(line.0) + seq![0x3au8, 0x20] + line.1 + seq![0x0du8, 0x0a]
}

/// The octets of fields.
pub open spec fn section_octets(lines: Seq<HeaderLine>) -> Seq<u8>
    decreases lines.len(),
{
    if lines.len() == 0 {
        Seq::empty()
    } else {
        section_octets(lines.drop_last()) + line_octets(lines.last())
    }
}

/// The octets behind the first line of a message.
pub open spec fn message_rest(lines: Seq<HeaderLine>, body: Option<Seq<u8>>) -> Seq<u8> {
    section_octets(framed(lines, body)) + seq![0x0du8, 0x0a] + match body {
        Some(body) => body,
        None => Seq::empty(),
    }
}

/// The first line of a response.
pub open spec fn status_line(version: Version, code: u16) -> Seq<u8> {
    octets(version.token()) + seq![0x20u8] + decimal(code as nat) + seq![0x20u8] + match reason_phrase(
        code,
    ) {
        Some(phrase) => octets(phrase),
        None => Seq::empty(),
    }
}

/// The body that is written under a status: none where the status forbids one.
pub open spec fn written_body(code: u16, body: Option<Seq<u8>>) -> Option<Seq<u8>> {
    if forbids(code) {
        None
    } else {
        body
    }
}

/// A response.
pub open spec fn response_octets(
    version: Version,
    code: u16,
    lines: Seq<HeaderLine>,
    body: Option<Seq<u8>>,
) -> Seq<u8> {
    status_line(version, code) + seq![0x0du8, 0x0a] + message_rest(lines, written_body(code, body))
}

/// A request for a target in origin-form.
pub open spec fn request_octets(
    method: Seq<char>,
    path: Seq<char>,
    version: Version,
    lines: Seq<HeaderLine>,
    body: Option<Seq<u8>>,
) -> Seq<u8> {
    octets(method) + seq![0x20u8] + octets(path) + seq![0x20u8] + octets(version.token())
        + seq![0x0du8, 0x0a] + message_rest(lines, body)
}

/// The octets of an optional slice.
pub open spec fn slice_in(body: Option<&[u8]>) -> Option<Seq<u8>> {
    match body {
        Some(body) => Some(body@),
        None => None,
    }
}

/// Whether a lone `content-length` field declares the length of a body.
fn framing_matches(lines: &Vec<(String, Vec<u8>)>, body: &[u8]) -> (r: bool)
    ensures
        r == matches_framing(lines_in(lines@), body@.len()),
{
    let mut found: usize = 0;
    let mut matching = false;
    let mut i: usize = 0;
    let ghost all = lines_in(lines@);
    let ghost mut seen: Seq<Seq<u8>> = Seq::empty();
    assert(seen + lengths(all, 0) =~= lengths(all, 0));
    while i < lines.len()
        invariant
            i <= lines.len(),
            all == lines_in(lines@),
            found <= i,
            found == seen.len(),
            lengths(all, 0) == seen + lengths(all, i as int),
            found == 1 ==> matching == (declared_length(seen[0]) == Some(body@.len() as u64)),
        decreases lines.len() - i,
    {
        assert(all[i as int] == (lines@[i as int].0@, lines@[i as int].1@));
        if same_text(lines[i].0.as_str(), "content-length") {
            let value = lines[i].1.as_slice();
            matching = match read_length(value) {
                Some(length) => length == body.len() as u64,
                None => false,
            };
            found = found + 1;
            proof {
                let rest = lengths(all, i + 1);
                assert(seen + (seq![value@] + rest) =~= seen.push(value@) + rest);
                seen = seen.push(value@);
            }
        }
        i = i + 1;
    }
    assert(lengths(all, 0) =~= seen);
    found == 1 && matching
}

/// The length that a `Content-Length` value declares.
fn read_length(value: &[u8]) -> (r: Option<u64>)
    ensures
        r == declared_length(value@),
{
    let mut i: usize = 0;
    while i < value.len()
        invariant
            i <= value.len(),
            forall|j: int|
                0 <= j < i ==> 0x20 <= #[trigger] value@[j] < 0x7f || value@[j] == 0x09,
        decreases value.len() - i,
    {
        if !((0x20 <= value[i] && value[i] < 0x7f) || value[i] == 0x09) {
            return None;
        }
        i = i + 1;
    }
    let text = chars_of(ascii_string(value).as_str());
    let (start, end) = trim_bounds(&text, 0, text.len());
    assert(text@.subrange(0, text.len() as int) =~= text@);
    parse_length(&text, start, end)
}

/// Adds a field to a message.
fn write_line(message: &mut Vec<u8>, name: &str, value: &[u8])
    ensures
        final(message)@ == old(message)@ + line_octets((name@, value@)),
{
    let ghost before = message@;
    append(message, name.as_bytes());
    append(message, ": ".as_bytes());
    append(message, value);
    append(message, "\r\n".as_bytes());
    proof {
        lemma_marks();
        assert(message@ =~= before + line_octets((name@, value@)));
    }
}

/// The octets of the marks that a message is written with.
proof fn lemma_marks()
    ensures
        octets(": "@) == seq![0x3au8, 0x20],
        octets("\r\n"@) == seq![0x0du8, 0x0a],
        octets(" "@) == seq![0x20u8],
{
    reveal_strlit(": ");
    reveal_strlit("\r\n");
    reveal_strlit(" ");
    crate::octets::lemma_ascii_text(seq![0x3au8, 0x20]);
    crate::octets::lemma_ascii_text(seq![0x0du8, 0x0a]);
    crate::octets::lemma_ascii_text(seq![0x20u8]);
    assert(ascii_text(seq![0x3au8, 0x20]) =~= ": "@);
    assert(ascii_text(seq![0x0du8, 0x0a]) =~= "\r\n"@);
    assert(ascii_text(seq![0x20u8]) =~= " "@);
}

/// Adds the fields and the body to a message.
fn write_headers_and_body(
    message: &mut Vec<u8>,
    lines: &Vec<(String, Vec<u8>)>,
    body: Option<&[u8]>,
)
    ensures
        final(message)@ == old(message)@ + message_rest(lines_in(lines@), slice_in(body)),
{
    let ghost all = lines_in(lines@);
    let ghost before = message@;
    let keep_length = match body {
        Some(body) => framing_matches(lines, body),
        None => true,
    };
    let has_body = body.is_some();
    let ghost mut written: Seq<HeaderLine> = Seq::empty();
    let mut i: usize = 0;
    assert(message@ =~= before + section_octets(written));
    assert(all.take(0) =~= Seq::empty());
    while i < lines.len()
        invariant
            i <= lines.len(),
            all == lines_in(lines@),
            message@ == before + section_octets(written),
            written == if has_body {
                kept(all.take(i as int), keep_length)
            } else {
                all.take(i as int)
            },
        decreases lines.len() - i,
    {
        let name = lines[i].0.as_str();
        let value = lines[i].1.as_slice();
        proof {
            assert(all[i as int] == (name@, value@));
            assert(all.take(i + 1).drop_last() =~= all.take(i as int));
            assert(all.take(i + 1).last() == (name@, value@));
            assert(all.take(i + 1) =~= all.take(i as int).push((name@, value@)));
        }
        let dropped = has_body && (same_text(name, "transfer-encoding") || (!keep_length
            && same_text(name, "content-length")));
        if !dropped {
            let ghost so_far = message@;
            write_line(message, name, value);
            proof {
                let longer = written.push((name@, value@));
                assert(longer.drop_last() =~= written);
                assert(message@ =~= before + section_octets(longer));
                written = longer;
            }
        }
        i = i + 1;
    }
    assert(all.take(all.len() as int) =~= all);
    match body {
        Some(body) => {
            if !keep_length {
                let digits = decimal_octets(body.len() as u64);
                write_line(message, "content-length", digits.as_slice());
                proof {
                    let longer = written.push(("content-length"@, digits@));
                    assert(longer.drop_last() =~= written);
                    assert(message@ =~= before + section_octets(longer));
                    written = longer;
                }
            }
            assert(written == framed(all, Some(body@)));
            append(message, "\r\n".as_bytes());
            append(message, body);
            proof {
                lemma_marks();
                assert(message@ =~= before + message_rest(all, Some(body@)));
            }
        },
        None => {
            append(message, "\r\n".as_bytes());
            proof {
                lemma_marks();
                assert(message@ =~= before + message_rest(all, None));
            }
        },
    }
}

/// Reconstruct an HTTP/1.1 response block from its parts, with its fields as pairs.
///
/// # Errors
///
/// Returns [`Error::BodyForbidden`] if the status forbids a non-empty body.
pub fn response_message(
    version: Version,
    status: StatusCode,
    lines: &Vec<(String, Vec<u8>)>,
    body: Option<&[u8]>,
) -> (r: Result<Vec<u8>, Error>)
    ensures
        match r {
            Ok(message) => {
                &&& !(forbids(status@) && body is Some && body->0@.len() > 0)
                &&& message@ == response_octets(
                    version,
                    status@,
                    lines_in(lines@),
                    slice_in(body),
                )
                &&& body is Some && !forbids(status@) && (forall|i: int|
                    0 <= i < lines.len() ==> is_header_line(#[trigger] lines_in(lines@)[i]))
                    ==> body_of(message@) == Ok::<Seq<u8>, Fault>(body->0@)
            },
            Err(error) => {
                &&& forbids(status@) && body is Some && body->0@.len() > 0
                &&& error == Error::BodyForbidden(status)
            },
        },
        r is Err <==> (status@ < 200 || status@ == 204 || status@ == 304) && body is Some
            && body->0@.len() > 0,
{
    let forbidden = forbids_body(status);
    let body = match body {
        Some(content) => if forbidden {
            if content.len() > 0 {
                return Err(Error::BodyForbidden(status));
            }
            None
        } else {
            Some(content)
        },
        None => None,
    };
    let code: u16 = status.as_u16();
    let mut message: Vec<u8> = Vec::new();
    append(&mut message, version_token(version).as_bytes());
    message.push(0x20);
    append(&mut message, decimal_octets(code as u64).as_slice());
    // The space is mandatory even when no reason phrase follows it (RFC 9112 section 4).
    message.push(0x20);
    match canonical_reason(code) {
        Some(phrase) => append(&mut message, phrase.as_bytes()),
        None => {},
    }
    assert(message@ =~= status_line(version, code));
    append(&mut message, "\r\n".as_bytes());
    write_headers_and_body(&mut message, lines, body);
    proof {
        lemma_marks();
        let all = lines_in(lines@);
        assert(message@ =~= response_octets(version, code, all, slice_in(body)));
        if body is Some
            && (forall|i: int| 0 <= i < all.len() ==> is_header_line(#[trigger] all[i])) {
            lemma_response_body_reads_back(version, code, all, body->0@);
        }
    }
    Ok(message)
}

/// Reconstruct an HTTP/1.1 response block from parsed message parts.
///
/// With `body` set to `None`, framing headers are preserved (for example, for a response to a
/// `HEAD` request). A provided body must have transfer coding removed. Reconstruction removes
/// `Transfer-Encoding` and writes its length unless a lone `Content-Length` already matches.
///
/// Informational, `204`, and `304` responses cannot contain a body. Their headers are preserved;
/// in particular, a `304` may describe the selected representation with `Content-Length`.
///
/// HTTP/2 and later have no HTTP/1.1 wire form, so their parts use the `HTTP/1.1` version token.
///
/// # Errors
///
/// Returns [`Error::BodyForbidden`] if the status forbids a non-empty body.
pub fn reconstruct_response(
    version: Version,
    status: StatusCode,
    headers: &::http::HeaderMap,
    body: Option<&[u8]>,
) -> (r: Result<Vec<u8>, Error>)
    ensures
        match r {
            Ok(message) => {
                &&& !(forbids(status@) && body is Some && body->0@.len() > 0)
                &&& message@ == response_octets(
                    version,
                    status@,
                    header_lines(*headers),
                    slice_in(body),
                )
                &&& body is Some && !forbids(status@) ==> body_of(message@) == Ok::<
                    Seq<u8>,
                    Fault,
                >(body->0@)
            },
            Err(error) => {
                &&& forbids(status@) && body is Some && body->0@.len() > 0
                &&& error == Error::BodyForbidden(status)
            },
        },
        r is Err <==> (status@ < 200 || status@ == 204 || status@ == 304) && body is Some
            && body->0@.len() > 0,
{
    let lines = lines_of_map(headers);
    response_message(version, status, &lines, body)
}

/// A method: a token.
#[derive(Debug, Eq, PartialEq)]
pub struct Method {
    name: String,
}

impl View for Method {
    type V = Seq<char>;

    closed spec fn view(&self) -> Seq<char> {
        self.name@
    }
}

impl Method {
    #[verifier::type_invariant]
    spec fn well_formed(self) -> bool {
        is_token(octets(self.name@))
    }

    /// The method of a name, or `None` for a name that is no token.
    pub fn parse(name: &str) -> (r: Option<Self>)
        ensures
            match r {
                Some(method) => is_token(octets(name@)) && method@ == name@,
                None => !is_token(octets(name@)),
            },
    {
        if token(name.as_bytes()) {
            Some(Method { name: name.to_string() })
        } else {
            None
        }
    }

    /// The name of the method.
    pub fn as_str(&self) -> (r: &str)
        ensures
            r@ == self@,
            is_token(octets(r@)),
    {
        proof {
            use_type_invariant(self);
        }
        self.name.as_str()
    }
}

/// What a [`Target`] holds.
pub struct Parts {
    pub text: Seq<char>,
    pub scheme: Option<Seq<char>>,
    pub authority: Option<Seq<char>>,
    pub host: Option<Seq<char>>,
    pub port: Option<u16>,
    pub path_and_query: Option<Seq<char>>,
}

/// The target of a request, with the parts that a request is made from.
#[derive(Debug, Eq, PartialEq)]
pub struct Target {
    text: String,
    scheme: Option<String>,
    authority: Option<String>,
    host: Option<String>,
    port: Option<u16>,
    path_and_query: Option<String>,
}

impl View for Target {
    type V = Parts;

    closed spec fn view(&self) -> Parts {
        Parts {
            text: self.text@,
            scheme: shown(self.scheme),
            authority: shown(self.authority),
            host: shown(self.host),
            port: self.port,
            path_and_query: shown(self.path_and_query),
        }
    }
}

/// Whether the path of a target is one line, and its authority visible ASCII.
pub open spec fn is_target(parts: Parts) -> bool {
    &&& parts.path_and_query matches Some(path) ==> is_one_line(octets(path))
    &&& parts.authority matches Some(authority) ==> is_visible(octets(authority))
}

/// The parts of a target, where a text is one.
pub uninterp spec fn target_parts(text: Seq<char>) -> Option<Parts>;

/// The target that a text names, where it names one.
///
/// Calls `http::Uri::from_str`, and takes the URI as text together with its scheme, its authority,
/// the host and the port in that, and its path and query. The authority is visible ASCII, and
/// neither a path nor a query holds a control character. Which texts are URIs is left unsaid.
#[verifier::external_body]
fn parse_target(text: &str) -> (r: Option<Target>)
    ensures
        match r {
            Some(target) => target_parts(text@) == Some(target@) && is_target(target@),
            None => target_parts(text@) is None,
        },
{
    let uri: ::http::Uri = text.parse().ok()?;
    Some(Target {
        text: uri.to_string(),
        scheme: uri.scheme_str().map(str::to_owned),
        authority: uri.authority().map(|authority| authority.as_str().to_owned()),
        host: uri.host().map(str::to_owned),
        port: uri.port_u16(),
        path_and_query: uri.path_and_query().map(|path| path.as_str().to_owned()),
    })
}

impl Target {
    #[verifier::type_invariant]
    spec fn well_formed(self) -> bool {
        is_target(self.view())
    }

    /// The target that a text names, where it names one.
    pub fn parse(text: &str) -> (r: Option<Self>)
        ensures
            match r {
                Some(target) => target_parts(text@) == Some(target@),
                None => target_parts(text@) is None,
            },
    {
        parse_target(text)
    }

    /// The scheme of the target, where it has one.
    pub fn scheme(&self) -> (r: Option<&str>)
        ensures
            match r {
                Some(scheme) => self@.scheme == Some(scheme@),
                None => self@.scheme is None,
            },
    {
        match &self.scheme {
            Some(scheme) => Some(scheme.as_str()),
            None => None,
        }
    }

    /// The authority of the target, where it has one.
    pub fn authority(&self) -> (r: Option<&str>)
        ensures
            match r {
                Some(authority) => self@.authority == Some(authority@),
                None => self@.authority is None,
            },
    {
        match &self.authority {
            Some(authority) => Some(authority.as_str()),
            None => None,
        }
    }

    /// The host in the authority, where there is one.
    pub fn host(&self) -> (r: Option<&str>)
        ensures
            match r {
                Some(host) => self@.host == Some(host@),
                None => self@.host is None,
            },
    {
        match &self.host {
            Some(host) => Some(host.as_str()),
            None => None,
        }
    }

    /// The port in the authority, where there is one.
    pub fn port(&self) -> (r: Option<u16>)
        ensures
            r == self@.port,
    {
        self.port
    }

    /// The target as text.
    pub fn text(&self) -> (r: &str)
        ensures
            r@ == self@.text,
    {
        self.text.as_str()
    }
}

/// The path that a request names: the root where its target has none.
pub open spec fn path_of(parts: Parts) -> Seq<char> {
    match parts.path_and_query {
        Some(path) => path,
        None => "/"@,
    }
}

/// Reconstruct an HTTP/1.1 request block from its parts, with its fields as pairs.
pub fn request_message(
    method: &Method,
    target: &Target,
    version: Version,
    lines: &Vec<(String, Vec<u8>)>,
    body: Option<&[u8]>,
) -> (r: Vec<u8>)
    ensures
        r@ == request_octets(
            method@,
            path_of(target@),
            version,
            lines_in(lines@),
            slice_in(body),
        ),
{
    let path = match &target.path_and_query {
        Some(path) => path.as_str(),
        None => "/",
    };
    let mut message: Vec<u8> = Vec::new();
    append(&mut message, method.as_str().as_bytes());
    message.push(0x20);
    append(&mut message, path.as_bytes());
    message.push(0x20);
    append(&mut message, version_token(version).as_bytes());
    append(&mut message, "\r\n".as_bytes());
    write_headers_and_body(&mut message, lines, body);
    proof {
        lemma_marks();
        assert(message@ =~= request_octets(
            method@,
            path_of(target@),
            version,
            lines_in(lines@),
            slice_in(body),
        ));
    }
    message
}

/// Reconstruct an HTTP/1.1 request block from parsed message parts.
///
/// The target is written in origin-form; `headers` must therefore contain the authority in
/// `Host`. With `body` set to `None`, headers are preserved. For a provided body,
/// `Transfer-Encoding` is removed and the length is written unless a lone `Content-Length`
/// already matches.
///
/// HTTP/2 and later have no HTTP/1.1 wire form, so their parts use the `HTTP/1.1` version token.
pub fn reconstruct_request(
    method: &Method,
    target: &Target,
    version: Version,
    headers: &::http::HeaderMap,
    body: Option<&[u8]>,
) -> (r: Vec<u8>)
    ensures
        r@ == request_octets(
            method@,
            path_of(target@),
            version,
            header_lines(*headers),
            slice_in(body),
        ),
        body is Some ==> body_of(r@) == Ok::<Seq<u8>, Fault>(body->0@),
{
    let lines = lines_of_map(headers);
    proof {
        use_type_invariant(target);
    }
    let name = method.as_str();
    let r = request_message(method, target, version, &lines, body);
    proof {
        lemma_version_is_one_line(version);
        match body {
            Some(body) => {
                lemma_request_body_reads_back(
                    name@,
                    path_of(target@),
                    version,
                    lines_in(lines@),
                    body@,
                );
            },
            None => {},
        }
    }
    r
}

/// The octets of fields are those of the first and those of the others.
proof fn lemma_section_opens(lines: Seq<HeaderLine>)
    requires
        lines.len() > 0,
    ensures
        section_octets(lines) == line_octets(lines[0]) + section_octets(lines.skip(1)),
    decreases lines.len(),
{
    let shorter = lines.drop_last();
    if lines.len() == 1 {
        assert(lines.skip(1) =~= Seq::empty());
        assert(shorter =~= Seq::empty());
        assert(section_octets(lines) =~= line_octets(lines[0]) + section_octets(lines.skip(1)));
    } else {
        lemma_section_opens(shorter);
        assert(lines.skip(1).drop_last() =~= shorter.skip(1));
        assert(lines.skip(1).last() == lines.last());
        assert(section_octets(lines) =~= line_octets(lines[0]) + section_octets(lines.skip(1)));
    }
}

/// A field behind `before` that is no `transfer-encoding` is walked over.
#[verifier::spinoff_prover]
proof fn lemma_walk_line(before: Seq<u8>, line: HeaderLine, after: Seq<u8>)
    requires
        is_header_line(line),
        !is_coding(line),
    ensures
        ({
            let message = before + line_octets(line) + after;
            body_start(message, before.len() as int, Seq::empty(), false) == body_start(
                message,
                (before + line_octets(line)).len() as int,
                Seq::empty(),
                false,
            )
        }),
{
    let message = before + line_octets(line) + after;
    let offset = before.len() as int;
    let name = octets(line.0);
    let content = name + seq![0x3au8, 0x20] + line.1;
    let end = offset + content.len() + 1;
    assert(line_octets(line) =~= content + seq![0x0du8, 0x0a]);
    assert(message.len() == before.len() + content.len() + 2 + after.len());
    assert forall|i: int| 0 <= i < content.len() implies #[trigger] content[i] != 0x0a by {
        if i < name.len() {
            assert(content[i] == name[i]);
        } else if i >= name.len() + 2 {
            assert(content[i] == line.1[i - name.len() - 2]);
            assert(is_text_char(line.1[i - name.len() - 2]));
        }
    }
    assert(message[end] == 0x0a);
    assert(message[end - 1] == 0x0d);
    assert forall|i: int| offset <= i < end implies #[trigger] message[i] != 0x0a by {
        if i < end - 1 {
            assert(message[i] == content[i - offset]);
        }
    }
    lemma_position_is(message, 0x0a, offset, end);
    assert(line_break(message, offset) == end);
    assert(content_end(message, offset) == end - 1);
    assert(message.subrange(offset, end - 1) =~= content);
    assert(content[0] == name[0]);
    assert(!is_lws(content[0]));
    if is_transfer_encoding(content) {
        assert(content[name.len() as int] == 0x3a);
        assert forall|i: int| 0 <= i < name.len() implies #[trigger] content[i] != 0x3a by {
            assert(content[i] == name[i]);
        }
        lemma_position_is(content, 0x3a, 0, name.len() as int);
        assert(content.take(name.len() as int) =~= name);
        lemma_coding_name();
        crate::octets::lemma_octets_injective(line.0, "transfer-encoding"@);
        assert(false);
    }
}

/// The names that frame a message.
proof fn lemma_coding_name()
    ensures
        lowered(octets("transfer-encoding"@)) == octets("transfer-encoding"@),
        is_field_name(octets("content-length"@)),
        "content-length"@ != "transfer-encoding"@,
{
    reveal_strlit("transfer-encoding");
    reveal_strlit("content-length");
    crate::octets::lemma_ascii_octets_of("transfer-encoding"@);
    crate::octets::lemma_ascii_octets_of("content-length"@);
    let coding = octets("transfer-encoding"@);
    assert(lowered(coding) =~= coding);
    let length = octets("content-length"@);
    assert(lowered(length) =~= length);
    assert("content-length"@.len() != "transfer-encoding"@.len());
}

/// The fields of a section are walked over up to the empty line.
proof fn lemma_walk_section(before: Seq<u8>, lines: Seq<HeaderLine>, body: Seq<u8>)
    requires
        forall|i: int| 0 <= i < lines.len() ==> is_header_line(#[trigger] lines[i]),
        forall|i: int| 0 <= i < lines.len() ==> !is_coding(#[trigger] lines[i]),
    ensures
        body_start(
            before + section_octets(lines) + seq![0x0du8, 0x0a] + body,
            before.len() as int,
            Seq::empty(),
            false,
        ) == Some(
            ((before + section_octets(lines)).len() + 2int, Seq::<u8>::empty()),
        ),
    decreases lines.len(),
{
    let message = before + section_octets(lines) + seq![0x0du8, 0x0a] + body;
    let offset = before.len() as int;
    if lines.len() == 0 {
        assert(message =~= before + seq![0x0du8, 0x0a] + body);
        assert(message[offset + 1] == 0x0a);
        assert(message[offset] == 0x0d);
        lemma_position_is(message, 0x0a, offset, offset + 1);
        assert(content_end(message, offset) == offset);
        assert(message.subrange(offset, offset).len() == 0);
    } else {
        let line = lines[0];
        let rest = lines.skip(1);
        assert forall|i: int| 0 <= i < rest.len() implies is_header_line(#[trigger] rest[i])
            && !is_coding(rest[i]) by {
            assert(rest[i] == lines[i + 1]);
        }
        lemma_section_opens(lines);
        let after = section_octets(rest) + seq![0x0du8, 0x0a] + body;
        assert(message =~= before + line_octets(line) + after);
        lemma_walk_line(before, line, after);
        let walked = before + line_octets(line);
        assert(message =~= walked + section_octets(rest) + seq![0x0du8, 0x0a] + body);
        lemma_walk_section(walked, rest, body);
    }
}

/// The fields that stay beside a body are some of the fields, and none is `transfer-encoding`.
proof fn lemma_kept(lines: Seq<HeaderLine>, keep_length: bool)
    requires
        forall|i: int| 0 <= i < lines.len() ==> is_header_line(#[trigger] lines[i]),
    ensures
        forall|i: int|
            0 <= i < kept(lines, keep_length).len() ==> is_header_line(
                #[trigger] kept(lines, keep_length)[i],
            ),
        forall|i: int|
            0 <= i < kept(lines, keep_length).len() ==> !is_coding(
                #[trigger] kept(lines, keep_length)[i],
            ),
    decreases lines.len(),
{
    if lines.len() > 0 {
        let shorter = lines.drop_last();
        assert forall|i: int| 0 <= i < shorter.len() implies is_header_line(#[trigger] shorter[i]) by {
            assert(shorter[i] == lines[i]);
        }
        assert(is_header_line(lines[lines.len() - 1]));
        lemma_kept(shorter, keep_length);
        let some = kept(shorter, keep_length);
        let all = kept(lines, keep_length);
        assert forall|i: int| 0 <= i < all.len() implies is_header_line(#[trigger] all[i])
            && !is_coding(all[i]) by {
            if i < some.len() {
                assert(all[i] == some[i]);
            }
        }
    }
}

/// The fields that do not frame a message.
pub open spec fn unframed(lines: Seq<HeaderLine>) -> Seq<HeaderLine> {
    lines.filter(
        |line: HeaderLine| line.0 != "content-length"@ && line.0 != "transfer-encoding"@,
    )
}

/// The `content-length` fields.
pub open spec fn length_fields(lines: Seq<HeaderLine>) -> Seq<HeaderLine> {
    lines.filter(|line: HeaderLine| line.0 == "content-length"@)
}

proof fn lemma_kept_fields(lines: Seq<HeaderLine>, keep_length: bool)
    ensures
        unframed(kept(lines, keep_length)) == unframed(lines),
        length_fields(kept(lines, keep_length)) == if keep_length {
            length_fields(lines)
        } else {
            Seq::<HeaderLine>::empty()
        },
    decreases lines.len(),
{
    reveal(Seq::filter);
    lemma_coding_name();
    if lines.len() > 0 {
        let shorter = lines.drop_last();
        lemma_kept_fields(shorter, keep_length);
        let some = kept(shorter, keep_length);
        let all = kept(lines, keep_length);
        if all != some {
            assert(all.drop_last() =~= some);
            assert(all.last() == lines.last());
        }
    } else {
        assert(unframed(kept(lines, keep_length)) =~= unframed(lines));
        assert(length_fields(lines) =~= Seq::<HeaderLine>::empty());
    }
}

proof fn lemma_lengths_are_fields(lines: Seq<HeaderLine>, from: int)
    requires
        0 <= from <= lines.len(),
    ensures
        lengths(lines, from).len() == length_fields(lines.skip(from)).len(),
        forall|i: int|
            0 <= i < lengths(lines, from).len() ==> #[trigger] lengths(lines, from)[i]
                == length_fields(lines.skip(from))[i].1,
    decreases lines.len() - from,
{
    let pred = |line: HeaderLine| line.0 == "content-length"@;
    if from < lines.len() {
        lemma_lengths_are_fields(lines, from + 1);
        let head = seq![lines[from]];
        assert(lines.skip(from) =~= head + lines.skip(from + 1));
        Seq::filter_distributes_over_add(head, lines.skip(from + 1), pred);
        reveal(Seq::filter);
        assert(head.drop_last() =~= Seq::<HeaderLine>::empty());
        assert(Seq::<HeaderLine>::empty().filter(pred) =~= Seq::<HeaderLine>::empty());
        let rest = length_fields(lines.skip(from + 1));
        if is_length(lines[from]) {
            assert(head.filter(pred) =~= head);
            assert(length_fields(lines.skip(from)) =~= head + rest);
        } else {
            assert(head.filter(pred) =~= Seq::<HeaderLine>::empty());
            assert(length_fields(lines.skip(from)) =~= rest);
        }
    } else {
        reveal(Seq::filter);
        assert(lines.skip(from) =~= Seq::<HeaderLine>::empty());
    }
}

/// A message with a body is framed by its length alone: it keeps the given fields in their order
/// but for `transfer-encoding` and `content-length`, and has one `content-length`, which is the
/// length of the body in decimal or the only one given. A message without a body keeps its fields
/// as they are.
pub proof fn lemma_framed_fields(lines: Seq<HeaderLine>, body: Seq<u8>)
    ensures
        framed(lines, None) == lines,
        unframed(framed(lines, Some(body))) == unframed(lines),
        forall|i: int|
            0 <= i < framed(lines, Some(body)).len() ==> #[trigger] framed(
                lines,
                Some(body),
            )[i].0 != "transfer-encoding"@,
        length_fields(framed(lines, Some(body))) == seq![
            ("content-length"@, decimal(body.len())),
        ] || (length_fields(lines).len() == 1 && length_fields(framed(lines, Some(body)))
            == length_fields(lines) && declared_length(length_fields(lines)[0].1) == Some(
            body.len() as u64,
        )),
{
    let keep = matches_framing(lines, body.len());
    let some = kept(lines, keep);
    let all = framed(lines, Some(body));
    lemma_kept_fields(lines, keep);
    lemma_lengths_are_fields(lines, 0);
    assert(lines.skip(0) =~= lines);
    lemma_coding_name();
    lemma_kept_names(lines, keep);
    if keep {
        assert(lengths(lines, 0)[0] == length_fields(lines)[0].1);
    } else {
        reveal(Seq::filter);
        let added = ("content-length"@, decimal(body.len()));
        assert(all.drop_last() =~= some);
        assert(all.last() == added);
        assert(length_fields(all) =~= seq![added]);
        assert forall|i: int| 0 <= i < all.len() implies #[trigger] all[i].0
            != "transfer-encoding"@ by {
            if i < some.len() {
                assert(all[i] == some[i]);
            }
        }
    }
}

proof fn lemma_kept_names(lines: Seq<HeaderLine>, keep_length: bool)
    ensures
        forall|i: int|
            0 <= i < kept(lines, keep_length).len() ==> #[trigger] kept(lines, keep_length)[i].0
                != "transfer-encoding"@,
    decreases lines.len(),
{
    if lines.len() > 0 {
        lemma_kept_names(lines.drop_last(), keep_length);
        let some = kept(lines.drop_last(), keep_length);
        let all = kept(lines, keep_length);
        assert forall|i: int| 0 <= i < all.len() implies #[trigger] all[i].0
            != "transfer-encoding"@ by {
            if i < some.len() {
                assert(all[i] == some[i]);
            }
        }
    }
}

/// The fields that are written beside a body are fields, and none is `transfer-encoding`.
proof fn lemma_framed(lines: Seq<HeaderLine>, body: Seq<u8>)
    requires
        forall|i: int| 0 <= i < lines.len() ==> is_header_line(#[trigger] lines[i]),
    ensures
        ({
            let all = framed(lines, Some(body));
            &&& forall|i: int| 0 <= i < all.len() ==> is_header_line(#[trigger] all[i])
            &&& forall|i: int| 0 <= i < all.len() ==> !is_coding(#[trigger] all[i])
        }),
{
    let all = framed(lines, Some(body));
    let keep = matches_framing(lines, body.len());
    lemma_kept(lines, keep);
    lemma_coding_name();
    lemma_digits_are_ascii(body.len());
    lemma_decimal(body.len());
    assert(is_text(decimal(body.len()))) by {
        assert forall|i: int| 0 <= i < decimal(body.len()).len() implies is_text_char(
            #[trigger] decimal(body.len())[i],
        ) by {
            assert(crate::octets::is_digit(decimal(body.len())[i]));
        }
    }
    assert forall|i: int| 0 <= i < all.len() implies is_header_line(#[trigger] all[i])
        && !is_coding(all[i]) by {
        let some = kept(lines, keep);
        if i < some.len() {
            assert(all[i] == some[i]);
        }
    }
}

/// The entity-body of a message that opens with one line and is framed by the length of its body is
/// that body.
#[verifier::spinoff_prover]
proof fn lemma_body_reads_back(first: Seq<u8>, lines: Seq<HeaderLine>, body: Seq<u8>)
    requires
        is_one_line(first),
        forall|i: int| 0 <= i < lines.len() ==> is_header_line(#[trigger] lines[i]),
    ensures
        body_of(first + seq![0x0du8, 0x0a] + message_rest(lines, Some(body))) == Ok::<
            Seq<u8>,
            Fault,
        >(body),
{
    let message = first + seq![0x0du8, 0x0a] + message_rest(lines, Some(body));
    let all = framed(lines, Some(body));
    lemma_framed(lines, body);
    let before = first + seq![0x0du8, 0x0a];
    assert(message =~= before + section_octets(all) + seq![0x0du8, 0x0a] + body);
    lemma_walk_section(before, all, body);
    let end = first.len() + 1;
    assert(message[end as int] == 0x0a);
    assert forall|i: int| 0 <= i < end implies #[trigger] message[i] != 0x0a by {
        if i < first.len() {
            assert(message[i] == first[i]);
        }
    }
    lemma_position_is(message, 0x0a, 0, end as int);
    let start = (before + section_octets(all)).len() + 2;
    assert(message_parts(message) == Some((start as int, Seq::<u8>::empty())));
    lemma_plain_message(message, start as int);
    assert(message.skip(start as int) =~= body);
}

/// The entity-body of a message without `Transfer-Encoding` is what follows its header section.
proof fn lemma_plain_message(message: Seq<u8>, start: int)
    requires
        message_parts(message) == Some((start, Seq::<u8>::empty())),
    ensures
        body_of(message) == Ok::<Seq<u8>, Fault>(message.skip(start)),
{
    lemma_no_codings();
}

/// An empty value lists no coding.
proof fn lemma_no_codings()
    ensures
        codings(Seq::empty(), 0).len() == 0,
{
    let none = Seq::<u8>::empty();
    assert(position(none, 0x2c, 0) == 0);
    assert(none.subrange(0, 0) =~= none);
    crate::octets::lemma_trimmed_same(none);
}

/// Reading the entity-body of a reconstructed response recovers the body that it was given.
pub proof fn lemma_response_body_reads_back(
    version: Version,
    code: u16,
    lines: Seq<HeaderLine>,
    body: Seq<u8>,
)
    requires
        !forbids(code),
        reason_phrase(code) matches Some(phrase) ==> is_one_line(octets(phrase)),
        forall|i: int| 0 <= i < lines.len() ==> is_header_line(#[trigger] lines[i]),
    ensures
        body_of(response_octets(version, code, lines, Some(body))) == Ok::<Seq<u8>, Fault>(body),
{
    lemma_version_is_one_line(version);
    lemma_digits_are_ascii(code as nat);
    assert(is_one_line(status_line(version, code)));
    lemma_body_reads_back(status_line(version, code), lines, body);
}

/// Reading the entity-body of a reconstructed request recovers the body that it was given.
pub proof fn lemma_request_body_reads_back(
    method: Seq<char>,
    path: Seq<char>,
    version: Version,
    lines: Seq<HeaderLine>,
    body: Seq<u8>,
)
    requires
        is_token(octets(method)),
        is_one_line(octets(path)),
        forall|i: int| 0 <= i < lines.len() ==> is_header_line(#[trigger] lines[i]),
    ensures
        body_of(request_octets(method, path, version, lines, Some(body))) == Ok::<Seq<u8>, Fault>(
            body,
        ),
{
    lemma_version_is_one_line(version);
    assert forall|i: int| 0 <= i < octets(method).len() implies #[trigger] octets(method)[i] != 0x0a
        && octets(method)[i] != 0x0d by {
        assert(is_token_char(octets(method)[i]));
    }
    let first = octets(method) + seq![0x20u8] + octets(path) + seq![0x20u8] + octets(
        version.token(),
    );
    assert(is_one_line(first));
    lemma_body_reads_back(first, lines, body);
}

/// The token of a version is one line, and so is the path of the root.
proof fn lemma_version_is_one_line(version: Version)
    ensures
        is_one_line(octets(version.token())),
        is_one_line(octets("/"@)),
{
    reveal_strlit("HTTP/0.9");
    reveal_strlit("HTTP/1.0");
    reveal_strlit("HTTP/1.1");
    reveal_strlit("/");
    crate::octets::lemma_ascii_octets_of(version.token());
    crate::octets::lemma_ascii_octets_of("/"@);
}

/// A number of three digits is written in those.
proof fn lemma_three_digits_written(code: u16)
    requires
        100 <= code <= 999,
    ensures
        decimal(code as nat) == status_digits(code),
{
    reveal_with_fuel(decimal, 4);
    let n = code as nat;
    assert(decimal(n) =~= decimal(n / 10).push((0x30 + n % 10) as u8));
    assert(decimal(n / 10) =~= decimal(n / 10 / 10).push((0x30 + n / 10 % 10) as u8));
    assert(n / 10 / 10 == n / 100);
    assert(decimal(n) =~= status_digits(code));
}

/// A reconstructed response opens with a status line of the version and the status, and has no body
/// where the status is informational, 204 or 304: its fields are then written as they were given.
/// With a body it ends with that body.
pub proof fn lemma_response_says_its_status(
    version: Version,
    code: u16,
    lines: Seq<HeaderLine>,
    body: Option<Seq<u8>>,
)
    requires
        100 <= code <= 999,
        reason_phrase(code) matches Some(phrase) ==> is_one_line(octets(phrase)),
    ensures
        status_of(response_octets(version, code, lines, body)) == Some(code),
        code < 200 || code == 204 || code == 304 || body is None ==> response_octets(
            version,
            code,
            lines,
            body,
        ) == status_line(version, code) + seq![0x0du8, 0x0a] + section_octets(lines) + seq![
            0x0du8,
            0x0a,
        ],
        body matches Some(body) ==> (code >= 200 && code != 204 && code != 304
            ==> response_octets(version, code, lines, Some(body)) == status_line(version, code)
            + seq![0x0du8, 0x0a] + section_octets(framed(lines, Some(body))) + seq![0x0du8, 0x0a]
            + body),
{
    let all = response_octets(version, code, lines, body);
    let token = version.token();
    reveal_strlit("HTTP/0.9");
    reveal_strlit("HTTP/1.0");
    reveal_strlit("HTTP/1.1");
    crate::octets::lemma_ascii_octets_of(token);
    let number = octets(token).skip(5);
    assert(octets(token) =~= seq![0x48u8, 0x54, 0x54, 0x50, 0x2f] + number);
    lemma_three_digits_written(code);
    lemma_digits_are_ascii(code as nat);
    crate::octets::lemma_ascii_text(decimal(code as nat));
    let space = seq![' '];
    assert(vstd::utf8::is_ascii_chars(space));
    crate::octets::lemma_ascii_octets_of(space);
    assert(octets(space) =~= seq![0x20u8]);
    let digits = ascii_text(decimal(code as nat));
    let phrase = match reason_phrase(code) {
        Some(phrase) => phrase,
        None => Seq::empty(),
    };
    assert(octets(Seq::<char>::empty()) =~= Seq::empty()) by {
        assert(vstd::utf8::is_ascii_chars(Seq::<char>::empty()));
        crate::octets::lemma_ascii_octets_of(Seq::<char>::empty());
    }
    let first = token + space + digits + space + phrase;
    crate::octets::lemma_octets_concat(token, space);
    crate::octets::lemma_octets_concat(token + space, digits);
    crate::octets::lemma_octets_concat(token + space + digits, space);
    crate::octets::lemma_octets_concat(token + space + digits + space, phrase);
    let tail = seq![0x20u8] + octets(phrase);
    assert(octets(first) =~= status_line(version, code));
    assert(octets(first) =~= seq![0x48u8, 0x54, 0x54, 0x50, 0x2f] + number + seq![0x20u8]
        + status_digits(code) + tail);
    lemma_version_is_one_line(version);
    assert(is_one_line(octets(first)));
    assert(is_status_line_of(first, number, code, tail)) by {
        assert forall|i: int| 0 <= i < number.len() implies #[trigger] number[i] != 0x20 by {
            assert(number[i] == octets(token)[i + 5]);
        }
    }
    let rest = message_rest(lines, written_body(code, body));
    lemma_status(first, number, code, tail, rest);
    assert(all =~= octets(first) + seq![0x0du8, 0x0a] + rest);
    if written_body(code, body) is None {
        assert(all =~= status_line(version, code) + seq![0x0du8, 0x0a] + section_octets(lines)
            + seq![0x0du8, 0x0a]);
    } else {
        assert(all =~= status_line(version, code) + seq![0x0du8, 0x0a] + section_octets(
            framed(lines, body),
        ) + seq![0x0du8, 0x0a] + body->0);
    }
}

/// A `Content-Length` declares the number that its digits spell, whatever blanks stand around them,
/// and none where it holds a word that is no length.
pub proof fn lemma_length_is_declared(number: Number, word: Coding)
    requires
        is_number(number),
        crate::recorder::declared::is_coding(word),
        spells_no_length(word.word),
    ensures
        declared_length(octets(number_text(number))) == Some(number.value as u64),
        declared_length(octets(coding_text(word))) is None,
{
    lemma_number(number);
    lemma_decimal(number.value);
    lemma_digits(number.zeros, decimal(number.value));
    let text = number_text(number);
    let digits = digits_text(number);
    assert forall|i: int| 0 <= i < digits.len() implies ' ' <= #[trigger] digits[i] <= '~' by {
        let all = zeros_text(number.zeros) + ascii_text(decimal(number.value));
        let sign: int = if number.signed {
            1
        } else {
            0
        };
        if i >= sign {
            assert(digits[i] == all[i - sign]);
            assert('0' <= all[i - sign] <= '9');
        }
    }
    assert forall|i: int| 0 <= i < text.len() implies ' ' <= #[trigger] text[i] <= '~' || text[i]
        == '\t' by {
        if i < number.before.len() {
            assert(text[i] == number.before[i]);
        } else if i < number.before.len() + digits.len() {
            assert(text[i] == digits[i - number.before.len()]);
        } else {
            assert(text[i] == number.after[i - number.before.len() - digits.len()]);
        }
    }
    lemma_plain_text(text);
    lemma_coding(word);
    lemma_no_length(word.word);
    let other = coding_text(word);
    assert forall|i: int| 0 <= i < other.len() implies ' ' <= #[trigger] other[i] <= '~' || other[i]
        == '\t' by {
        if i < word.before.len() {
            assert(other[i] == word.before[i]);
        } else if i < word.before.len() + word.word.len() {
            assert(other[i] == word.word[i - word.before.len()]);
        } else {
            assert(other[i] == word.after[i - word.before.len() - word.word.len()]);
        }
    }
    lemma_plain_text(other);
}

proof fn lemma_plain_text(text: Seq<char>)
    requires
        forall|i: int|
            0 <= i < text.len() ==> ' ' <= #[trigger] text[i] <= '~' || text[i] == '\t',
    ensures
        is_plain(octets(text)),
        ascii_text(octets(text)) == text,
{
    assert(vstd::utf8::is_ascii_chars(text));
    crate::octets::lemma_ascii_octets_of(text);
    assert forall|i: int| 0 <= i < octets(text).len() implies 0x20 <= #[trigger] octets(text)[i]
        < 0x7f || octets(text)[i] == 0x09 by {
        assert(octets(text)[i] == text[i] as u8);
    }
    assert(ascii_text(octets(text)) =~= text);
}

} // verus!
