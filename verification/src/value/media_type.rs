//! The `media-type` value carried by `Content-Type` and `WARC-Identified-Payload-Type`.

use crate::octets::{
    append, ascii_string, ascii_text, find, is_ascii, is_trim, is_white, lemma_ascii_octets,
    lemma_ascii_text, lemma_octets_concat, lemma_position, lemma_position_is, lossy, lossy_text,
    octets, position, same_but_for_case, utf8_string,
};
use crate::parsing::{
    QuotedStringError, append_quoted, escaped, is_lws, is_text, is_text_char, is_token,
    is_token_char, lemma_quoted_is_text, lemma_quoted_reads_back, lemma_unescaped_is_text, lws,
    quoted, token, unquote, unquoted,
};
use crate::text::same_ignoring_case;
use crate::value::digest::lemma_token_is_ascii;
use vstd::prelude::*;
use vstd::slice::slice_subrange;
use vstd::string::*;
use vstd::utf8::*;

verus! {

/// A `media-type` value.
///
/// ```text
/// media-type = type "/" subtype *( OWS ";" OWS parameter )
/// type       = token
/// subtype    = token
/// parameter  = attribute "=" value
/// attribute  = token
/// value      = token | quoted-string
/// OWS        = *( SP / HTAB )
/// ```
///
/// The published grammar has no `OWS`, and so forbids the spaces around `;` that the standard's own
/// examples use. Errata #38 of the WARC 1.1 annotated specification supplies the rule above. White
/// space elsewhere, at either end of the value included, is no part of it.
///
/// Type, subtype, and attribute names are case-insensitive; they are kept as written, and
/// [`is`](Self::is) compares without regard to case. The `OWS` around each `;` is kept as
/// written too, so a value renders as it was read.
#[derive(Debug, Eq, PartialEq)]
pub struct MediaType {
    main_type: String,
    subtype: String,
    parameters: Vec<Parameter>,
}

/// One `OWS ";" OWS parameter` of a media type.
#[derive(Debug, Eq, PartialEq)]
pub struct Parameter {
    /// The `OWS ";" OWS` introducing the parameter, as written.
    separator: String,
    name: String,
    value: ParameterValue,
}

/// A media type parameter's value, which the grammar writes either bare or in quotes.
#[derive(Debug, Eq, PartialEq)]
pub enum ParameterValue {
    /// A bare `token`.
    Token(String),
    /// A `quoted-string`, held with its quotes removed and its `\` escapes resolved.
    Quoted(String),
}

/// What a [`ParameterValue`] says.
pub enum Value {
    Token(Seq<char>),
    Quoted(Seq<char>),
}

/// What a [`Parameter`] says.
pub struct NamedValue {
    pub separator: Seq<char>,
    pub name: Seq<char>,
    pub value: Value,
}

/// What a [`MediaType`] says.
pub struct Media {
    pub main_type: Seq<char>,
    pub subtype: Seq<char>,
    pub parameters: Seq<NamedValue>,
}

impl View for ParameterValue {
    type V = Value;

    open spec fn view(&self) -> Value {
        match *self {
            ParameterValue::Token(text) => Value::Token(text@),
            ParameterValue::Quoted(text) => Value::Quoted(text@),
        }
    }
}

impl View for Parameter {
    type V = NamedValue;

    closed spec fn view(&self) -> NamedValue {
        NamedValue { separator: self.separator@, name: self.name@, value: self.value@ }
    }
}

impl View for MediaType {
    type V = Media;

    closed spec fn view(&self) -> Media {
        Media {
            main_type: self.main_type@,
            subtype: self.subtype@,
            parameters: self.parameters@.map_values(|parameter: Parameter| parameter@),
        }
    }
}

/// The rule a `media-type` value did not match.
#[derive(Clone, Debug, Eq, PartialEq)]
pub enum Error {
    /// The value has no `/` separating the type from the subtype.
    NoSubtype {
        /// The value as it was read, with any octet that is not UTF-8 replaced.
        value: String,
    },
    /// The type or the subtype is not a `token`.
    MalformedEssence {
        /// The value as it was read, with any octet that is not UTF-8 replaced.
        value: String,
    },
    /// A parameter is not an `attribute "=" value` the grammar admits.
    MalformedParameter {
        /// The value as it was read, with any octet that is not UTF-8 replaced.
        value: String,
        /// The parameter that does not match, as it was read.
        parameter: String,
    },
    /// A parameter's value opens with a quote and is not a well-formed `quoted-string`.
    MalformedQuotedValue {
        /// The value as it was read, with any octet that is not UTF-8 replaced.
        value: String,
        /// The parameter whose value does not match, as it was read.
        parameter: String,
        /// The rule the quoted string broke.
        source: QuotedStringError,
    },
    /// A parameter's quoted value is not valid UTF-8, which this representation requires.
    NonUtf8ParameterValue {
        /// The value as it was read, with any octet that is not UTF-8 replaced.
        value: String,
        /// The parameter whose value is not text, as it was read.
        parameter: String,
    },
}

/// What an [`Error`] says.
pub enum Fault {
    NoSubtype(Seq<char>),
    MalformedEssence(Seq<char>),
    MalformedParameter(Seq<char>, Seq<char>),
    MalformedQuotedValue(Seq<char>, Seq<char>, QuotedStringError),
    NonUtf8ParameterValue(Seq<char>, Seq<char>),
}

impl View for Error {
    type V = Fault;

    open spec fn view(&self) -> Fault {
        match *self {
            Error::NoSubtype { value } => Fault::NoSubtype(value@),
            Error::MalformedEssence { value } => Fault::MalformedEssence(value@),
            Error::MalformedParameter { value, parameter } => Fault::MalformedParameter(
                value@,
                parameter@,
            ),
            Error::MalformedQuotedValue { value, parameter, source } => {
                Fault::MalformedQuotedValue(value@, parameter@, source)
            },
            Error::NonUtf8ParameterValue { value, parameter } => Fault::NonUtf8ParameterValue(
                value@,
                parameter@,
            ),
        }
    }
}

/// The first position from `i` on that holds no optional white space.
pub open spec fn skip_ows(s: Seq<u8>, i: int) -> int
    decreases s.len() - i,
{
    if 0 <= i < s.len() && is_lws(s[i]) {
        skip_ows(s, i + 1)
    } else {
        i
    }
}

/// Where `from..end` ends without the optional white space that closes it.
pub open spec fn back_ows(s: Seq<u8>, from: int, end: int) -> int
    decreases end - from,
{
    if 0 <= from < end <= s.len() && is_lws(s[end - 1]) {
        back_ows(s, from, end - 1)
    } else {
        end
    }
}

/// Where the parameter that is read at `i` ends: at the next `;` that is not inside a quoted
/// string.
pub open spec fn parameter_end(s: Seq<u8>, i: int, in_quotes: bool) -> int
    decreases s.len() - i,
{
    if i < 0 || i >= s.len() {
        s.len() as int
    } else if s[i] == 0x22 {
        parameter_end(s, i + 1, !in_quotes)
    } else if s[i] == 0x5c && in_quotes {
        if i + 2 >= s.len() {
            s.len() as int
        } else {
            parameter_end(s, i + 2, in_quotes)
        }
    } else if s[i] == 0x3b && !in_quotes {
        i
    } else {
        parameter_end(s, i + 1, in_quotes)
    }
}

/// The rule that a parameter broke.
pub enum ParameterFault {
    Malformed,
    Quoted(QuotedStringError),
    NonUtf8,
}

/// The name and value that a parameter spells.
pub open spec fn parameter_of(s: Seq<u8>) -> Result<(Seq<char>, Value), ParameterFault> {
    let equals = position(s, 0x3d, 0);
    let name = s.take(equals);
    let value = s.skip(equals + 1);
    if equals == s.len() || !is_token(name) {
        Err(ParameterFault::Malformed)
    } else if value.len() > 0 && value[0] == 0x22 {
        match unquoted(value) {
            Err(e) => Err(ParameterFault::Quoted(e)),
            Ok(content) => if valid_utf8(content) {
                Ok((ascii_text(name), Value::Quoted(decode_utf8(content))))
            } else {
                Err(ParameterFault::NonUtf8)
            },
        }
    } else if is_token(value) {
        Ok((ascii_text(name), Value::Token(ascii_text(value))))
    } else {
        Err(ParameterFault::Malformed)
    }
}

/// What a parameter's fault is called in a value.
pub open spec fn fault_in(fault: ParameterFault, value: Seq<u8>, parameter: Seq<u8>) -> Fault {
    match fault {
        ParameterFault::Malformed => Fault::MalformedParameter(
            lossy_text(value),
            lossy_text(parameter),
        ),
        ParameterFault::Quoted(e) => Fault::MalformedQuotedValue(
            lossy_text(value),
            lossy_text(parameter),
            e,
        ),
        ParameterFault::NonUtf8 => Fault::NonUtf8ParameterValue(
            lossy_text(value),
            lossy_text(parameter),
        ),
    }
}

/// Where a part of a value that opens at `from` ends, where the next `;` or the end of the value
/// stands at `next`: before the white space in front of a `;`, or at the end.
pub open spec fn part_end(value: Seq<u8>, from: int, next: int) -> int {
    if next < value.len() {
        back_ows(value, from, next)
    } else {
        next
    }
}

/// The parameters that a value spells behind position `start`, where the first `;` from there on
/// stands at `index`.
pub open spec fn parameters_from(value: Seq<u8>, start: int, index: int) -> Result<
    Seq<NamedValue>,
    Fault,
>
    decreases value.len() - index,
{
    if index < 0 || index >= value.len() {
        Ok(Seq::empty())
    } else {
        let content_start = skip_ows(value, index + 1);
        let next = parameter_end(value, content_start, false);
        let content_end = part_end(value, content_start, next);
        let content = value.subrange(content_start, content_end);
        match parameter_of(content) {
            Err(fault) => Err(fault_in(fault, value, content)),
            Ok((name, spelled)) => if !(index < next <= value.len()) {
                Ok(Seq::empty())
            } else {
                let first = NamedValue {
                    separator: ascii_text(value.subrange(start, content_start)),
                    name,
                    value: spelled,
                };
                match parameters_from(value, content_end, next) {
                    Ok(rest) => Ok(seq![first] + rest),
                    Err(fault) => Err(fault),
                }
            },
        }
    }
}

/// The media type that octets spell.
pub open spec fn media_type(value: Seq<u8>) -> Result<Media, Fault> {
    let index = position(value, 0x3b, 0);
    let end = part_end(value, 0, index);
    let essence = value.take(end);
    let slash = position(essence, 0x2f, 0);
    let main_type = essence.take(slash);
    let subtype = essence.skip(slash + 1);
    if slash == essence.len() {
        Err(Fault::NoSubtype(lossy_text(value)))
    } else if !is_token(main_type) || !is_token(subtype) {
        Err(Fault::MalformedEssence(lossy_text(value)))
    } else {
        match parameters_from(value, end, index) {
            Err(fault) => Err(fault),
            Ok(parameters) => Ok(
                Media {
                    main_type: ascii_text(main_type),
                    subtype: ascii_text(subtype),
                    parameters,
                },
            ),
        }
    }
}

/// The octets that spell a parameter's value.
pub open spec fn value_octets(value: Value) -> Seq<u8> {
    match value {
        Value::Token(text) => octets(text),
        Value::Quoted(text) => quoted(octets(text)),
    }
}

/// The octets that spell a parameter and the separator before it.
pub open spec fn parameter_octets(parameter: NamedValue) -> Seq<u8> {
    octets(parameter.separator) + octets(parameter.name) + seq![0x3du8] + value_octets(
        parameter.value,
    )
}

/// The octets that spell parameters.
pub open spec fn parameters_octets(parameters: Seq<NamedValue>) -> Seq<u8>
    decreases parameters.len(),
{
    if parameters.len() == 0 {
        Seq::empty()
    } else {
        parameter_octets(parameters[0]) + parameters_octets(parameters.skip(1))
    }
}

/// The octets that spell a media type.
pub open spec fn media_octets(media: Media) -> Seq<u8> {
    octets(media.main_type) + seq![0x2fu8] + octets(media.subtype) + parameters_octets(
        media.parameters,
    )
}

/// Whether octets are a separator: one `;` among optional white space.
pub open spec fn is_separator(s: Seq<u8>) -> bool {
    let at = position(s, 0x3b, 0);
    at < s.len() && forall|i: int| 0 <= i < s.len() && i != at ==> is_lws(#[trigger] s[i])
}

/// Whether a parameter can be spelled.
pub open spec fn is_spellable_parameter(parameter: NamedValue) -> bool {
    is_separator(octets(parameter.separator)) && is_token(octets(parameter.name))
        && match parameter.value {
        Value::Token(text) => is_token(octets(text)),
        Value::Quoted(text) => is_text(octets(text)),
    }
}

/// Whether a media type can be spelled.
pub open spec fn is_spellable(media: Media) -> bool {
    &&& is_token(octets(media.main_type))
    &&& is_token(octets(media.subtype))
    &&& forall|i: int|
        0 <= i < media.parameters.len() ==> is_spellable_parameter(#[trigger] media.parameters[i])
}

proof fn lemma_skip_ows(s: Seq<u8>, i: int)
    requires
        0 <= i <= s.len(),
    ensures
        i <= skip_ows(s, i) <= s.len(),
        forall|j: int| i <= j < skip_ows(s, i) ==> is_lws(#[trigger] s[j]),
    decreases s.len() - i,
{
    if i < s.len() && is_lws(s[i]) {
        lemma_skip_ows(s, i + 1);
    }
}

proof fn lemma_skip_ows_is(s: Seq<u8>, i: int, at: int)
    requires
        0 <= i <= at <= s.len(),
        forall|j: int| i <= j < at ==> is_lws(#[trigger] s[j]),
        at < s.len() ==> !is_lws(s[at]),
    ensures
        skip_ows(s, i) == at,
    decreases at - i,
{
    if i < at {
        assert(is_lws(s[i]));
        lemma_skip_ows_is(s, i + 1, at);
    }
}

proof fn lemma_back_ows(s: Seq<u8>, from: int, end: int)
    requires
        0 <= from <= end <= s.len(),
    ensures
        from <= back_ows(s, from, end) <= end,
        forall|j: int| back_ows(s, from, end) <= j < end ==> is_lws(#[trigger] s[j]),
    decreases end - from,
{
    if from < end && is_lws(s[end - 1]) {
        lemma_back_ows(s, from, end - 1);
    }
}

proof fn lemma_back_ows_is(s: Seq<u8>, from: int, end: int, at: int)
    requires
        0 <= from <= at <= end <= s.len(),
        forall|j: int| at <= j < end ==> is_lws(#[trigger] s[j]),
        from < at ==> !is_lws(s[at - 1]),
    ensures
        back_ows(s, from, end) == at,
    decreases end - at,
{
    if at < end {
        assert(is_lws(s[end - 1]));
        lemma_back_ows_is(s, from, end - 1, at);
    }
}

proof fn lemma_parameter_end(s: Seq<u8>, i: int, in_quotes: bool)
    requires
        0 <= i <= s.len(),
    ensures
        i <= parameter_end(s, i, in_quotes) <= s.len(),
        parameter_end(s, i, in_quotes) < s.len() ==> s[parameter_end(s, i, in_quotes)] == 0x3b,
    decreases s.len() - i,
{
    if i < s.len() {
        if s[i] == 0x22 {
            lemma_parameter_end(s, i + 1, !in_quotes);
        } else if s[i] == 0x5c && in_quotes {
            if i + 2 < s.len() {
                lemma_parameter_end(s, i + 2, in_quotes);
            }
        } else if s[i] == 0x3b && !in_quotes {
        } else {
            lemma_parameter_end(s, i + 1, in_quotes);
        }
    }
}

/// Outside of quotes, characters that are neither a quote nor a `;` are passed over.
proof fn lemma_parameter_end_skips(s: Seq<u8>, i: int, k: int)
    requires
        0 <= i <= k <= s.len(),
        forall|j: int| i <= j < k ==> #[trigger] s[j] != 0x22 && s[j] != 0x3b,
    ensures
        parameter_end(s, i, false) == parameter_end(s, k, false),
    decreases k - i,
{
    if i < k {
        assert(s[i] != 0x22 && s[i] != 0x3b);
        lemma_parameter_end_skips(s, i + 1, k);
    }
}

/// Inside of quotes, escaped content is passed over.
proof fn lemma_parameter_end_skips_quoted(s: Seq<u8>, i: int, content: Seq<u8>)
    requires
        0 <= i,
        i + escaped(content).len() < s.len(),
        s.subrange(i, i + escaped(content).len()) == escaped(content),
    ensures
        parameter_end(s, i, true) == parameter_end(s, i + escaped(content).len(), true),
    decreases content.len(),
{
    if content.len() > 0 {
        let part = s.subrange(i, i + escaped(content).len());
        assert(part[0] == s[i]);
        let rest = content.skip(1);
        if content[0] == 0x22 || content[0] == 0x5c {
            assert(part[1] == s[i + 1]);
            assert(part.skip(2) =~= escaped(rest));
            assert(s.subrange(i + 2, i + 2 + escaped(rest).len()) =~= part.skip(2));
            lemma_parameter_end_skips_quoted(s, i + 2, rest);
        } else {
            assert(part.skip(1) =~= escaped(rest));
            assert(s.subrange(i + 1, i + 1 + escaped(rest).len()) =~= part.skip(1));
            lemma_parameter_end_skips_quoted(s, i + 1, rest);
        }
    }
}

/// A parameter's value is spelled with at least one character, and closes with one that is no
/// white space.
proof fn lemma_value_octets(value: Value)
    requires
        match value {
            Value::Token(text) => is_token(octets(text)),
            Value::Quoted(text) => true,
        },
    ensures
        value_octets(value).len() > 0,
        !is_lws(value_octets(value).last()),
{
    match value {
        Value::Token(text) => {
            let s = octets(text);
            assert(is_token_char(s[s.len() - 1]));
        },
        Value::Quoted(text) => {},
    }
}

/// A parameter is read back from the octets that spell it.
proof fn lemma_parameter_reads_back(parameter: NamedValue)
    requires
        is_spellable_parameter(parameter),
    ensures
        parameter_of(octets(parameter.name) + seq![0x3du8] + value_octets(parameter.value)) == Ok::<
            (Seq<char>, Value),
            ParameterFault,
        >((parameter.name, parameter.value)),
{
    let name = octets(parameter.name);
    let value = value_octets(parameter.value);
    let s = name + seq![0x3du8] + value;
    assert forall|i: int| 0 <= i < name.len() implies #[trigger] s[i] != 0x3d by {
        assert(s[i] == name[i]);
        assert(is_token_char(name[i]));
    }
    assert(s[name.len() as int] == 0x3d);
    lemma_position_is(s, 0x3d, 0, name.len() as int);
    assert(s.take(name.len() as int) =~= name);
    assert(s.skip(name.len() as int + 1) =~= value);
    lemma_token_is_ascii(name);
    lemma_ascii_octets(parameter.name);
    match parameter.value {
        Value::Token(text) => {
            assert(is_token_char(value[0]));
            lemma_token_is_ascii(value);
            lemma_ascii_octets(text);
        },
        Value::Quoted(text) => {
            lemma_quoted_reads_back(octets(text));
            encode_utf8_valid_utf8(text);
            encode_utf8_decode_utf8(text);
        },
    }
}

/// Where the first `;` of what spells parameters stands, and that only white space is before it.
proof fn lemma_first_separator(parameters: Seq<NamedValue>)
    requires
        forall|i: int|
            0 <= i < parameters.len() ==> is_spellable_parameter(#[trigger] parameters[i]),
    ensures
        ({
            let tail = parameters_octets(parameters);
            let at = position(tail, 0x3b, 0);
            &&& 0 <= at <= tail.len()
            &&& tail.len() > 0 ==> at < tail.len() && tail[at] == 0x3b
            &&& forall|i: int| 0 <= i < at ==> is_lws(#[trigger] tail[i])
            &&& parameters.len() > 0 ==> at == position(octets(parameters[0].separator), 0x3b, 0)
        }),
{
    let tail = parameters_octets(parameters);
    lemma_position(tail, 0x3b, 0);
    if parameters.len() > 0 {
        let first = parameters[0];
        assert(is_spellable_parameter(first));
        let separator = octets(first.separator);
        let at = position(separator, 0x3b, 0);
        lemma_position(separator, 0x3b, 0);
        assert forall|i: int| 0 <= i < at implies #[trigger] tail[i] != 0x3b && is_lws(tail[i]) by {
            assert(tail[i] == separator[i]);
        }
        assert(tail[at] == separator[at]);
        lemma_position_is(tail, 0x3b, 0, at);
    }
}

proof fn lemma_separator_is_ascii(s: Seq<u8>)
    requires
        is_separator(s),
    ensures
        is_ascii(s),
{
    let at = position(s, 0x3b, 0);
    lemma_position(s, 0x3b, 0);
    assert forall|i: int| 0 <= i < s.len() implies #[trigger] s[i] < 0x80 by {
        if i != at {
            assert(is_lws(s[i]));
        }
    }
}

/// Where the value of a parameter starts and ends among its octets, the scan for its end passes
/// over it.
proof fn lemma_value_is_passed(value: Seq<u8>, at: int, spelled: Value)
    requires
        0 <= at,
        at + value_octets(spelled).len() <= value.len(),
        value.subrange(at, at + value_octets(spelled).len()) == value_octets(spelled),
        match spelled {
            Value::Token(text) => is_token(octets(text)),
            Value::Quoted(text) => true,
        },
    ensures
        parameter_end(value, at, false) == parameter_end(
            value,
            at + value_octets(spelled).len(),
            false,
        ),
{
    let own = value_octets(spelled);
    let part = value.subrange(at, at + own.len());
    match spelled {
        Value::Token(text) => {
            assert forall|j: int| at <= j < at + own.len() implies #[trigger] value[j] != 0x22
                && value[j] != 0x3b by {
                assert(value[j] == part[j - at]);
                assert(is_token_char(own[j - at]));
            }
            lemma_parameter_end_skips(value, at, at + own.len());
        },
        Value::Quoted(text) => {
            let inner = escaped(octets(text));
            assert(value[at] == part[0]);
            assert(value[at + own.len() - 1] == part[own.len() - 1]);
            assert(own.subrange(1, 1 + inner.len() as int) =~= inner);
            assert(value.subrange(at + 1, at + 1 + inner.len()) =~= part.subrange(
                1,
                1 + inner.len() as int,
            ));
            lemma_parameter_end_skips_quoted(value, at + 1, octets(text));
        },
    }
}

/// Where a parameter starts and ends among the octets around it.
proof fn lemma_parameter_bounds(
    before: Seq<u8>,
    first: NamedValue,
    rest_tail: Seq<u8>,
    rest_at: int,
)
    requires
        is_spellable_parameter(first),
        0 <= rest_at <= rest_tail.len(),
        rest_tail.len() > 0 ==> rest_at < rest_tail.len() && rest_tail[rest_at] == 0x3b,
        forall|j: int| 0 <= j < rest_at ==> is_lws(#[trigger] rest_tail[j]),
    ensures
        ({
            let value = before + parameter_octets(first) + rest_tail;
            let start = before.len() as int;
            let separator = octets(first.separator);
            let content = octets(first.name) + seq![0x3du8] + value_octets(first.value);
            let content_start = start + separator.len();
            let content_end = content_start + content.len();
            &&& skip_ows(value, start + position(separator, 0x3b, 0) + 1) == content_start
            &&& content_start < content_end <= value.len()
            &&& parameter_end(value, content_start, false) == content_end + rest_at
            &&& part_end(value, content_start, content_end + rest_at) == content_end
            &&& value.subrange(content_start, content_end) == content
            &&& value.subrange(start, content_start) == separator
        }),
{
    let value = before + parameter_octets(first) + rest_tail;
    let start = before.len() as int;
    let separator = octets(first.separator);
    let name = octets(first.name);
    let spelled = value_octets(first.value);
    let content = name + seq![0x3du8] + spelled;
    let content_start = start + separator.len();
    let content_end = content_start + content.len();
    let index = start + position(separator, 0x3b, 0);
    let next = content_end + rest_at;
    lemma_position(separator, 0x3b, 0);
    lemma_value_octets(first.value);
    assert(value =~= before + separator + content + rest_tail);
    assert(value.subrange(content_start, content_end) =~= content);
    assert(value.subrange(start, content_start) =~= separator);
    assert(is_token_char(name[0]));
    assert(value[content_start] == name[0]);
    assert forall|j: int| index + 1 <= j < content_start implies is_lws(#[trigger] value[j]) by {
        assert(value[j] == separator[j - start]);
    }
    lemma_skip_ows_is(value, index + 1, content_start);
    let value_start = content_start + name.len() + 1;
    assert forall|j: int| content_start <= j < value_start implies #[trigger] value[j] != 0x22
        && value[j] != 0x3b by {
        if j < content_start + name.len() {
            assert(value[j] == name[j - content_start]);
            assert(is_token_char(name[j - content_start]));
        } else {
            assert(value[j] == 0x3d);
        }
    }
    lemma_parameter_end_skips(value, content_start, value_start);
    assert(value.subrange(value_start, content_end) =~= spelled);
    lemma_value_is_passed(value, value_start, first.value);
    assert forall|j: int| content_end <= j < next implies #[trigger] value[j] != 0x22 && value[j]
        != 0x3b && is_lws(value[j]) by {
        assert(value[j] == rest_tail[j - content_end]);
    }
    lemma_parameter_end_skips(value, content_end, next);
    if rest_at < rest_tail.len() {
        assert(value[next] == rest_tail[rest_at]);
    }
    assert(value[content_end - 1] == spelled.last());
    if rest_at < rest_tail.len() {
        lemma_back_ows_is(value, content_start, next, content_end);
    }
}

/// Parameters are read back from the octets that spell them.
#[verifier::spinoff_prover]
#[verifier::rlimit(30)]
proof fn lemma_parameters_read_back(before: Seq<u8>, parameters: Seq<NamedValue>)
    requires
        forall|i: int|
            0 <= i < parameters.len() ==> is_spellable_parameter(#[trigger] parameters[i]),
    ensures
        ({
            let tail = parameters_octets(parameters);
            parameters_from(
                before + tail,
                before.len() as int,
                before.len() + position(tail, 0x3b, 0),
            ) == Ok::<Seq<NamedValue>, Fault>(parameters)
        }),
    decreases parameters.len(),
{
    let tail = parameters_octets(parameters);
    let value = before + tail;
    let start = before.len() as int;
    let at = position(tail, 0x3b, 0);
    let index = start + at;
    lemma_first_separator(parameters);
    if parameters.len() == 0 {
        assert(parameters =~= Seq::empty());
    } else {
        let first = parameters[0];
        let rest = parameters.skip(1);
        assert(is_spellable_parameter(first));
        assert forall|i: int| 0 <= i < rest.len() implies is_spellable_parameter(
            #[trigger] rest[i],
        ) by {
            assert(rest[i] == parameters[i + 1]);
        }
        let own = parameter_octets(first);
        let rest_tail = parameters_octets(rest);
        lemma_first_separator(rest);
        assert(before + own + rest_tail =~= value);
        lemma_parameter_bounds(before, first, rest_tail, position(rest_tail, 0x3b, 0));
        lemma_parameter_reads_back(first);
        lemma_separator_is_ascii(octets(first.separator));
        lemma_ascii_octets(first.separator);
        lemma_parameters_read_back(before + own, rest);
        assert(own.len() == octets(first.separator).len() + (octets(first.name) + seq![0x3du8]
            + value_octets(first.value)).len());
        assert(seq![first] + rest =~= parameters);
    }
}

/// A media type is read back from the octets that spell it, parameters and white space included.
pub proof fn lemma_media_type_reads_back(media: Media)
    requires
        is_spellable(media),
    ensures
        media_type(media_octets(media)) == Ok::<Media, Fault>(media),
{
    let main_type = octets(media.main_type);
    let subtype = octets(media.subtype);
    let tail = parameters_octets(media.parameters);
    let before = main_type + seq![0x2fu8] + subtype;
    let value = media_octets(media);
    assert(value =~= before + tail);
    lemma_first_separator(media.parameters);
    let index = before.len() + position(tail, 0x3b, 0);
    assert forall|j: int| 0 <= j < before.len() implies #[trigger] value[j] != 0x3b && !is_lws(
        value[j],
    ) by {
        assert(value[j] == before[j]);
        if j < main_type.len() {
            assert(is_token_char(main_type[j]));
        } else if j > main_type.len() {
            assert(is_token_char(subtype[j - main_type.len() - 1]));
        }
    }
    assert forall|j: int| 0 <= j < index implies #[trigger] value[j] != 0x3b by {
        if j >= before.len() {
            assert(value[j] == tail[j - before.len()]);
        }
    }
    if index < value.len() {
        assert(value[index] == tail[index - before.len()]);
    }
    lemma_position_is(value, 0x3b, 0, index);
    assert forall|j: int| before.len() <= j < index implies is_lws(#[trigger] value[j]) by {
        assert(value[j] == tail[j - before.len()]);
    }
    if index < value.len() {
        lemma_back_ows_is(value, 0, index, before.len() as int);
    }
    let essence = value.take(before.len() as int);
    assert(essence =~= before);
    assert forall|j: int| 0 <= j < main_type.len() implies #[trigger] essence[j] != 0x2f by {
        assert(essence[j] == main_type[j]);
        assert(is_token_char(main_type[j]));
    }
    lemma_position_is(essence, 0x2f, 0, main_type.len() as int);
    assert(essence.take(main_type.len() as int) =~= main_type);
    assert(essence.skip(main_type.len() as int + 1) =~= subtype);
    lemma_token_is_ascii(main_type);
    lemma_token_is_ascii(subtype);
    lemma_ascii_octets(media.main_type);
    lemma_ascii_octets(media.subtype);
    lemma_parameters_read_back(before, media.parameters);
}

/// Parameters that are read can be spelled.
proof fn lemma_read_parameters_are_spellable(value: Seq<u8>, start: int, index: int)
    requires
        0 <= start <= index <= value.len(),
        index < value.len() ==> value[index] == 0x3b,
        forall|j: int| start <= j < index ==> is_lws(#[trigger] value[j]),
    ensures
        parameters_from(value, start, index) matches Ok(parameters) ==> forall|i: int|
            0 <= i < parameters.len() ==> is_spellable_parameter(#[trigger] parameters[i]),
    decreases value.len() - index,
{
    if index < value.len() {
        let content_start = skip_ows(value, index + 1);
        let next = parameter_end(value, content_start, false);
        let content_end = part_end(value, content_start, next);
        let content = value.subrange(content_start, content_end);
        lemma_skip_ows(value, index + 1);
        lemma_parameter_end(value, content_start, false);
        lemma_back_ows(value, content_start, next);
        let separator = value.subrange(start, content_start);
        assert(is_separator(separator)) by {
            assert forall|j: int| 0 <= j < index - start implies #[trigger] separator[j] != 0x3b by {
                assert(separator[j] == value[start + j]);
            }
            assert(separator[index - start] == value[index]);
            lemma_position_is(separator, 0x3b, 0, index - start);
            assert forall|j: int|
                0 <= j < separator.len() && j != index - start implies is_lws(
                #[trigger] separator[j],
            ) by {
                assert(separator[j] == value[start + j]);
            }
        }
        lemma_separator_is_ascii(separator);
        lemma_ascii_text(separator);
        lemma_position(content, 0x3d, 0);
        let equals = position(content, 0x3d, 0);
        let name = content.take(equals);
        let spelled = content.skip(equals + 1);
        match parameter_of(content) {
            Ok((name_text, read)) => {
                lemma_token_is_ascii(name);
                lemma_ascii_text(name);
                if spelled.len() > 0 && spelled[0] == 0x22 {
                    lemma_unescaped_is_text(spelled, 1);
                    decode_utf8_encode_utf8(unquoted(spelled)->Ok_0);
                } else {
                    lemma_token_is_ascii(spelled);
                    lemma_ascii_text(spelled);
                }
                lemma_read_parameters_are_spellable(value, content_end, next);
            },
            Err(_) => {},
        }
    }
}

/// A media type that is read can be spelled.
pub proof fn lemma_read_media_type_is_spellable(value: Seq<u8>)
    ensures
        media_type(value) matches Ok(media) ==> is_spellable(media),
{
    let index = position(value, 0x3b, 0);
    lemma_position(value, 0x3b, 0);
    let end = part_end(value, 0, index);
    lemma_back_ows(value, 0, index);
    let essence = value.take(end);
    let slash = position(essence, 0x2f, 0);
    lemma_position(essence, 0x2f, 0);
    if slash < essence.len() && is_token(essence.take(slash)) && is_token(essence.skip(slash + 1)) {
        lemma_token_is_ascii(essence.take(slash));
        lemma_token_is_ascii(essence.skip(slash + 1));
        lemma_ascii_text(essence.take(slash));
        lemma_ascii_text(essence.skip(slash + 1));
        lemma_read_parameters_are_spellable(value, end, index);
    }
}

impl Clone for ParameterValue {
    fn clone(&self) -> (r: Self)
        ensures
            r@ == self@,
    {
        match self {
            ParameterValue::Token(text) => ParameterValue::Token(text.clone()),
            ParameterValue::Quoted(text) => ParameterValue::Quoted(text.clone()),
        }
    }
}

impl Clone for Parameter {
    fn clone(&self) -> (r: Self)
        ensures
            r@ == self@,
    {
        Parameter {
            separator: self.separator.clone(),
            name: self.name.clone(),
            value: self.value.clone(),
        }
    }
}

impl Clone for MediaType {
    fn clone(&self) -> (r: Self)
        ensures
            r@ == self@,
    {
        proof {
            use_type_invariant(self);
        }
        let parameters = self.parameters.clone();
        assert(parameters@.map_values(|parameter: Parameter| parameter@)
            =~= self.parameters@.map_values(|parameter: Parameter| parameter@));
        MediaType {
            main_type: self.main_type.clone(),
            subtype: self.subtype.clone(),
            parameters,
        }
    }
}

impl ParameterValue {
    /// The value itself, with any quoting removed.
    pub fn as_str(&self) -> (r: &str)
        ensures
            r@ == match self@ {
                Value::Token(text) => text,
                Value::Quoted(text) => text,
            },
    {
        match self {
            ParameterValue::Token(value) => value.as_str(),
            ParameterValue::Quoted(value) => value.as_str(),
        }
    }

    /// Appends the octets that spell the value.
    fn append_to(&self, out: &mut Vec<u8>)
        ensures
            final(out)@ == old(out)@ + value_octets(self@),
    {
        match self {
            ParameterValue::Token(value) => append(out, value.as_str().as_bytes()),
            ParameterValue::Quoted(value) => append_quoted(out, value.as_str().as_bytes()),
        }
    }
}

/// The first position that holds no optional white space.
fn after_ows(s: &[u8], i: usize) -> (r: usize)
    requires
        i <= s.len(),
    ensures
        r == skip_ows(s@, i as int),
        i <= r <= s.len(),
{
    let mut at: usize = i;
    while at < s.len() && lws(s[at])
        invariant
            i <= at <= s.len(),
            skip_ows(s@, i as int) == skip_ows(s@, at as int),
        decreases s.len() - at,
    {
        at = at + 1;
    }
    at
}

/// Where `from..end` ends without the optional white space that closes it.
fn before_ows(s: &[u8], from: usize, end: usize) -> (r: usize)
    requires
        from <= end <= s.len(),
    ensures
        r == back_ows(s@, from as int, end as int),
        from <= r <= end,
{
    let mut at: usize = end;
    while at > from && lws(s[at - 1])
        invariant
            from <= at <= end <= s.len(),
            back_ows(s@, from as int, end as int) == back_ows(s@, from as int, at as int),
        decreases at - from,
    {
        at = at - 1;
    }
    at
}

/// Where a part of a value ends: before the white space in front of a `;`, or at the end.
fn end_of_part(s: &[u8], from: usize, next: usize) -> (r: usize)
    requires
        from <= next <= s.len(),
    ensures
        r == part_end(s@, from as int, next as int),
        from <= r <= next,
{
    if next < s.len() {
        before_ows(s, from, next)
    } else {
        next
    }
}

/// Where the next parameter ends: at the `;` that is not inside a quoted string.
fn split_parameter(s: &[u8], from: usize) -> (r: usize)
    requires
        from <= s.len(),
    ensures
        r == parameter_end(s@, from as int, false),
        from <= r <= s.len(),
{
    let mut i: usize = from;
    let mut in_quotes = false;
    while i < s.len()
        invariant
            from <= i <= s.len(),
            parameter_end(s@, from as int, false) == parameter_end(s@, i as int, in_quotes),
        decreases s.len() - i,
    {
        if s[i] == 0x22 {
            in_quotes = !in_quotes;
            i = i + 1;
        } else if s[i] == 0x5c && in_quotes {
            if s.len() - i <= 2 {
                return s.len();
            }
            i = i + 2;
        } else if s[i] == 0x3b && !in_quotes {
            return i;
        } else {
            i = i + 1;
        }
    }
    s.len()
}

/// The rule a parameter broke, before the value that carried it is known.
enum ParameterFailure {
    Malformed,
    Quoted(QuotedStringError),
    NonUtf8,
}

impl ParameterFailure {
    spec fn fault(self) -> ParameterFault {
        match self {
            ParameterFailure::Malformed => ParameterFault::Malformed,
            ParameterFailure::Quoted(e) => ParameterFault::Quoted(e),
            ParameterFailure::NonUtf8 => ParameterFault::NonUtf8,
        }
    }

    /// Name the rule against the value and the parameter it was read from.
    fn against(self, value: &[u8], parameter: &[u8]) -> (r: Error)
        ensures
            r@ == fault_in(self.fault(), value@, parameter@),
    {
        let (value, parameter) = (lossy(value), lossy(parameter));
        match self {
            ParameterFailure::Malformed => Error::MalformedParameter { value, parameter },
            ParameterFailure::Quoted(source) => Error::MalformedQuotedValue {
                value,
                parameter,
                source,
            },
            ParameterFailure::NonUtf8 => Error::NonUtf8ParameterValue { value, parameter },
        }
    }
}

/// Read one `attribute "=" value`, given the content without its surrounding `OWS`.
fn parse_parameter(s: &[u8]) -> (r: Result<(String, ParameterValue), ParameterFailure>)
    ensures
        match r {
            Ok((name, value)) => parameter_of(s@) == Ok::<(Seq<char>, Value), ParameterFault>(
                (name@, value@),
            ),
            Err(e) => parameter_of(s@) == Err::<(Seq<char>, Value), ParameterFault>(e.fault()),
        },
{
    let equals = find(s, 0x3d, 0);
    if equals == s.len() {
        return Err(ParameterFailure::Malformed);
    }
    let name = slice_subrange(s, 0, equals);
    let value = slice_subrange(s, equals + 1, s.len());
    assert(name@ =~= s@.take(equals as int));
    assert(value@ =~= s@.skip(equals + 1));
    if !token(name) {
        return Err(ParameterFailure::Malformed);
    }
    proof {
        lemma_token_is_ascii(name@);
    }
    if value.len() > 0 && value[0] == 0x22 {
        let content = match unquote(value) {
            Ok(content) => content,
            Err(e) => {
                return Err(ParameterFailure::Quoted(e));
            },
        };
        match utf8_string(content) {
            Some(text) => {
                proof {
                    encode_utf8_decode_utf8(text@);
                }
                Ok((ascii_string(name), ParameterValue::Quoted(text)))
            },
            None => Err(ParameterFailure::NonUtf8),
        }
    } else if token(value) {
        proof {
            lemma_token_is_ascii(value@);
        }
        Ok((ascii_string(name), ParameterValue::Token(ascii_string(value))))
    } else {
        Err(ParameterFailure::Malformed)
    }
}

/// Parameters read before what is read after them.
spec fn after_parameters(
    done: Seq<NamedValue>,
    rest: Result<Seq<NamedValue>, Fault>,
) -> Result<Seq<NamedValue>, Fault> {
    match rest {
        Ok(parameters) => Ok(done + parameters),
        Err(fault) => Err(fault),
    }
}

/// Reads the parameters behind a position.
fn parse_parameters(value: &[u8], from: usize, first: usize) -> (r: Result<
    Vec<Parameter>,
    Error,
>)
    requires
        from <= first <= value.len(),
        first < value.len() ==> value@[first as int] == 0x3b,
        forall|j: int| from <= j < first ==> is_lws(#[trigger] value@[j]),
    ensures
        match r {
            Ok(parameters) => parameters_from(value@, from as int, first as int) == Ok::<
                Seq<NamedValue>,
                Fault,
            >(parameters@.map_values(|parameter: Parameter| parameter@)),
            Err(e) => parameters_from(value@, from as int, first as int) == Err::<
                Seq<NamedValue>,
                Fault,
            >(e@),
        },
{
    let mut parameters: Vec<Parameter> = Vec::new();
    let mut start: usize = from;
    let mut index: usize = first;
    let ghost mut done: Seq<NamedValue> = Seq::empty();
    let ghost expected = parameters_from(value@, from as int, first as int);
    proof {
        match expected {
            Ok(all) => assert(done + all =~= all),
            Err(_) => {},
        }
        assert(parameters@.map_values(|parameter: Parameter| parameter@) =~= done);
    }
    while index < value.len()
        invariant
            start <= index <= value.len(),
            index < value.len() ==> value@[index as int] == 0x3b,
            forall|j: int| start <= j < index ==> is_lws(#[trigger] value@[j]),
            expected == parameters_from(value@, from as int, first as int),
            expected == after_parameters(
                done,
                parameters_from(value@, start as int, index as int),
            ),
            done == parameters@.map_values(|parameter: Parameter| parameter@),
        decreases value.len() - index,
    {
        proof {
            lemma_skip_ows(value@, index + 1);
        }
        let content_start = after_ows(value, index + 1);
        let separator_octets = slice_subrange(value, start, content_start);
        assert(is_ascii(separator_octets@)) by {
            assert forall|j: int| 0 <= j < separator_octets@.len() implies #[trigger]
                separator_octets@[j] < 0x80 by {
                let k = start + j;
                assert(separator_octets@[j] == value@[k]);
            }
        }
        let separator = ascii_string(separator_octets);
        let next = split_parameter(value, content_start);
        proof {
            lemma_parameter_end(value@, content_start as int, false);
            lemma_back_ows(value@, content_start as int, next as int);
        }
        let content_end = end_of_part(value, content_start, next);
        let content = slice_subrange(value, content_start, content_end);
        let (name, spelled) = match parse_parameter(content) {
            Ok(read) => read,
            Err(failure) => {
                return Err(failure.against(value, content));
            },
        };
        let parameter = Parameter { separator, name, value: spelled };
        let ghost before = done;
        let ghost rest = parameters_from(value@, content_end as int, next as int);
        proof {
            done = done.push(parameter@);
            match rest {
                Ok(after) => assert(before + (seq![parameter@] + after) =~= done + after),
                Err(_) => {},
            }
        }
        let ghost held = parameters@;
        parameters.push(parameter);
        assert(parameters@.map_values(|parameter: Parameter| parameter@) =~= done);
        start = content_end;
        index = next;
    }
    assert(done + Seq::empty() =~= done);
    Ok(parameters)
}

/// What a constant media type says.
pub open spec fn plain_media(main_type: Seq<char>, subtype: Seq<char>) -> Media {
    Media { main_type, subtype, parameters: Seq::empty() }
}

/// What a media type with one token parameter says.
pub open spec fn media_with(
    main_type: Seq<char>,
    subtype: Seq<char>,
    name: Seq<char>,
    value: Seq<char>,
) -> Media {
    Media {
        main_type,
        subtype,
        parameters: seq![NamedValue { separator: ";"@, name, value: Value::Token(value) }],
    }
}

/// Whether characters are a token's.
spec fn is_token_text(text: Seq<char>) -> bool {
    text.len() > 0 && forall|i: int|
        0 <= i < text.len() ==> '\0' <= #[trigger] text[i] <= '\u{7f}' && is_token_char(
            text[i] as u8,
        )
}

proof fn lemma_token_text(text: Seq<char>)
    requires
        is_token_text(text),
    ensures
        is_token(octets(text)),
{
    assert(is_ascii_chars(text));
    is_ascii_chars_encode_utf8(text);
    let s = octets(text);
    assert forall|i: int| 0 <= i < s.len() implies is_token_char(#[trigger] s[i]) by {
        assert(text[i] as u8 == s[i]);
    }
}

proof fn lemma_constants_are_tokens()
    ensures
        is_token(octets("application"@)),
        is_token(octets("http"@)),
        is_token(octets("warc-fields"@)),
        is_token(octets("octet-stream"@)),
        is_token(octets("json"@)),
        is_token(octets("text"@)),
        is_token(octets("plain"@)),
        is_token(octets("dns"@)),
        is_token(octets("msgtype"@)),
        is_token(octets("request"@)),
        is_token(octets("response"@)),
{
    reveal_strlit("application");
    reveal_strlit("http");
    reveal_strlit("warc-fields");
    reveal_strlit("octet-stream");
    reveal_strlit("json");
    reveal_strlit("text");
    reveal_strlit("plain");
    reveal_strlit("dns");
    reveal_strlit("msgtype");
    reveal_strlit("request");
    reveal_strlit("response");
    assert("application"@ =~= seq!['a', 'p', 'p', 'l', 'i', 'c', 'a', 't', 'i', 'o', 'n']);
    lemma_token_text("application"@);
    assert("http"@ =~= seq!['h', 't', 't', 'p']);
    lemma_token_text("http"@);
    assert("warc-fields"@ =~= seq!['w', 'a', 'r', 'c', '-', 'f', 'i', 'e', 'l', 'd', 's']);
    lemma_token_text("warc-fields"@);
    assert("octet-stream"@ =~= seq!['o', 'c', 't', 'e', 't', '-', 's', 't', 'r', 'e', 'a', 'm']);
    lemma_token_text("octet-stream"@);
    assert("json"@ =~= seq!['j', 's', 'o', 'n']);
    lemma_token_text("json"@);
    assert("text"@ =~= seq!['t', 'e', 'x', 't']);
    lemma_token_text("text"@);
    assert("plain"@ =~= seq!['p', 'l', 'a', 'i', 'n']);
    lemma_token_text("plain"@);
    assert("dns"@ =~= seq!['d', 'n', 's']);
    lemma_token_text("dns"@);
    assert("msgtype"@ =~= seq!['m', 's', 'g', 't', 'y', 'p', 'e']);
    lemma_token_text("msgtype"@);
    assert("request"@ =~= seq!['r', 'e', 'q', 'u', 'e', 's', 't']);
    lemma_token_text("request"@);
    assert("response"@ =~= seq!['r', 'e', 's', 'p', 'o', 'n', 's', 'e']);
    lemma_token_text("response"@);
}

proof fn lemma_semicolon_is_separator()
    ensures
        is_separator(octets(";"@)),
{
    reveal_strlit(";");
    let s = seq![0x3bu8];
    lemma_ascii_text(s);
    assert(ascii_text(s) =~= ";"@);
    lemma_position_is(s, 0x3b, 0, 0);
}

impl MediaType {
    #[verifier::type_invariant]
    spec fn is_valid(&self) -> bool {
        is_spellable(self@)
    }

    /// Read a media type.
    ///
    /// # Errors
    ///
    /// Returns the [`Error`] naming the rule the value broke against the grammar above, including
    /// [`Error::NonUtf8ParameterValue`] when a quoted parameter value is not valid UTF-8. That is
    /// stricter than the `TEXT` rule, which admits any octet, because media types are represented
    /// as text here.
    pub fn parse(value: &[u8]) -> (r: Result<Self, Error>)
        ensures
            match r {
                Ok(media) => media_type(value@) == Ok::<Media, Fault>(media@) && is_spellable(
                    media@,
                ),
                Err(e) => media_type(value@) == Err::<Media, Fault>(e@),
            },
    {
        proof {
            lemma_read_media_type_is_spellable(value@);
            lemma_position(value@, 0x3b, 0);
        }
        let index = find(value, 0x3b, 0);
        let end = end_of_part(value, 0, index);
        proof {
            lemma_back_ows(value@, 0, index as int);
        }
        let essence = slice_subrange(value, 0, end);
        assert(essence@ =~= value@.take(end as int));
        let slash = find(essence, 0x2f, 0);
        if slash == essence.len() {
            return Err(Error::NoSubtype { value: lossy(value) });
        }
        let main_type = slice_subrange(essence, 0, slash);
        let subtype = slice_subrange(essence, slash + 1, essence.len());
        assert(main_type@ =~= essence@.take(slash as int));
        assert(subtype@ =~= essence@.skip(slash + 1));
        if !token(main_type) || !token(subtype) {
            return Err(Error::MalformedEssence { value: lossy(value) });
        }
        proof {
            lemma_token_is_ascii(main_type@);
            lemma_token_is_ascii(subtype@);
        }
        match parse_parameters(value, end, index) {
            Ok(parameters) => Ok(
                MediaType {
                    main_type: ascii_string(main_type),
                    subtype: ascii_string(subtype),
                    parameters,
                },
            ),
            Err(e) => Err(e),
        }
    }

    /// The type, as it was written.
    pub fn main_type(&self) -> (r: &str)
        ensures
            r@ == self@.main_type,
    {
        self.main_type.as_str()
    }

    /// The subtype, as it was written.
    pub fn subtype(&self) -> (r: &str)
        ensures
            r@ == self@.subtype,
    {
        self.subtype.as_str()
    }

    /// The names and values of the parameters, in the order they were written.
    pub fn parameters(&self) -> (r: Vec<(&str, &ParameterValue)>)
        ensures
            r@.len() == self@.parameters.len(),
            forall|i: int|
                0 <= i < r@.len() ==> (#[trigger] r@[i]).0@ == self@.parameters[i].name
                    && r@[i].1@ == self@.parameters[i].value,
    {
        let mut found: Vec<(&str, &ParameterValue)> = Vec::new();
        let mut i: usize = 0;
        while i < self.parameters.len()
            invariant
                i <= self.parameters.len(),
                found@.len() == i,
                forall|j: int|
                    0 <= j < i ==> (#[trigger] found@[j]).0@ == self@.parameters[j].name
                        && found@[j].1@ == self@.parameters[j].value,
            decreases self.parameters.len() - i,
        {
            let parameter = &self.parameters[i];
            assert(self@.parameters[i as int] == parameter@);
            found.push((parameter.name.as_str(), &parameter.value));
            i = i + 1;
        }
        found
    }

    /// The first parameter with the given name, compared case-insensitively.
    pub fn parameter(&self, name: &str) -> (r: Option<&ParameterValue>)
        ensures
            match r {
                Some(value) => exists|i: int|
                    #![trigger self@.parameters[i]]
                    0 <= i < self@.parameters.len() && value@ == self@.parameters[i].value
                        && has_name(self@.parameters[i], name@) && forall|j: int|
                        0 <= j < i ==> !has_name(#[trigger] self@.parameters[j], name@),
                None => forall|j: int|
                    0 <= j < self@.parameters.len() ==> !has_name(
                        #[trigger] self@.parameters[j],
                        name@,
                    ),
            },
    {
        let mut i: usize = 0;
        while i < self.parameters.len()
            invariant
                i <= self.parameters.len(),
                forall|j: int| 0 <= j < i ==> !has_name(#[trigger] self@.parameters[j], name@),
            decreases self.parameters.len() - i,
        {
            let parameter = &self.parameters[i];
            assert(self@.parameters[i as int] == parameter@);
            if same_ignoring_case(parameter.name.as_str(), name) {
                return Some(&parameter.value);
            }
            i = i + 1;
        }
        None
    }

    /// Whether this is the given type and subtype, compared case-insensitively and ignoring any
    /// parameters.
    pub fn is(&self, main_type: &str, subtype: &str) -> (r: bool)
        ensures
            r == is_media(self@, main_type@, subtype@),
    {
        same_ignoring_case(self.main_type.as_str(), main_type) && same_ignoring_case(
            self.subtype.as_str(),
            subtype,
        )
    }

    /// The octets that spell the type and its parameters, each with the `OWS` it was read with.
    pub fn to_octets(&self) -> (r: Vec<u8>)
        ensures
            r@ == media_octets(self@),
            media_type(r@) == Ok::<Media, Fault>(self@),
    {
        proof {
            use_type_invariant(self);
            lemma_media_type_reads_back(self@);
        }
        let mut out: Vec<u8> = Vec::new();
        append(&mut out, self.main_type.as_str().as_bytes());
        out.push(0x2f);
        append(&mut out, self.subtype.as_str().as_bytes());
        let ghost all = self@.parameters;
        let ghost expected = media_octets(self@);
        let mut i: usize = 0;
        assert(all.skip(0) =~= all);
        assert(out@ + parameters_octets(all) =~= expected);
        while i < self.parameters.len()
            invariant
                i <= self.parameters.len(),
                all == self@.parameters,
                out@ + parameters_octets(all.skip(i as int)) == expected,
            decreases self.parameters.len() - i,
        {
            let parameter = &self.parameters[i];
            let ghost rest = all.skip(i as int);
            let ghost before = out@;
            assert(rest[0] == parameter@);
            assert(rest.skip(1) =~= all.skip(i + 1));
            append(&mut out, parameter.separator.as_str().as_bytes());
            append(&mut out, parameter.name.as_str().as_bytes());
            out.push(0x3d);
            parameter.value.append_to(&mut out);
            i = i + 1;
            assert(out@ =~= before + parameter_octets(rest[0]));
            assert(out@ + parameters_octets(all.skip(i as int)) =~= before
                + parameters_octets(rest));
        }
        out
    }
}

/// Whether a parameter has the name.
pub open spec fn has_name(parameter: NamedValue, name: Seq<char>) -> bool {
    same_but_for_case(octets(parameter.name), octets(name))
}

/// Whether a media type is of the type and subtype, whatever their case.
pub open spec fn is_media(media: Media, main_type: Seq<char>, subtype: Seq<char>) -> bool {
    same_but_for_case(octets(media.main_type), octets(main_type)) && same_but_for_case(
        octets(media.subtype),
        octets(subtype),
    )
}

impl MediaType {
    /// A media type whose parts are known to match the grammar.
    fn constant(main_type: &str, subtype: &str) -> (r: Self)
        requires
            is_token(octets(main_type@)),
            is_token(octets(subtype@)),
        ensures
            r@ == plain_media(main_type@, subtype@),
            is_spellable(r@),
    {
        let parameters: Vec<Parameter> = Vec::new();
        assert(parameters@.map_values(|parameter: Parameter| parameter@) =~= Seq::empty());
        MediaType {
            main_type: main_type.to_owned(),
            subtype: subtype.to_owned(),
            parameters,
        }
    }

    /// An archived HTTP message of the given kind.
    fn http_message(kind: &str) -> (r: Self)
        requires
            is_token(octets(kind@)),
        ensures
            r@ == media_with("application"@, "http"@, "msgtype"@, kind@),
            is_spellable(r@),
    {
        proof {
            lemma_constants_are_tokens();
            lemma_semicolon_is_separator();
        }
        let mut parameters: Vec<Parameter> = Vec::new();
        parameters.push(
            Parameter {
                separator: ";".to_owned(),
                name: "msgtype".to_owned(),
                value: ParameterValue::Token(kind.to_owned()),
            },
        );
        let ghost expected = media_with("application"@, "http"@, "msgtype"@, kind@);
        assert(parameters@.map_values(|parameter: Parameter| parameter@)
            =~= expected.parameters);
        assert(is_spellable(expected)) by {
            assert(is_spellable_parameter(expected.parameters[0]));
        }
        MediaType {
            main_type: "application".to_owned(),
            subtype: "http".to_owned(),
            parameters,
        }
    }

    /// `application/http`: an archived HTTP message.
    pub fn http() -> (r: Self)
        ensures
            r@ == plain_media("application"@, "http"@),
    {
        proof {
            lemma_constants_are_tokens();
        }
        MediaType::constant("application", "http")
    }

    /// `application/http;msgtype=request`: an archived HTTP request, which a `request` record carries.
    pub fn http_request() -> (r: Self)
        ensures
            r@ == media_with("application"@, "http"@, "msgtype"@, "request"@),
            is_spellable(r@),
    {
        proof {
            lemma_constants_are_tokens();
        }
        MediaType::http_message("request")
    }

    /// `application/http;msgtype=response`: an archived HTTP response, which a `response` record carries.
    pub fn http_response() -> (r: Self)
        ensures
            r@ == media_with("application"@, "http"@, "msgtype"@, "response"@),
            is_spellable(r@),
    {
        proof {
            lemma_constants_are_tokens();
        }
        MediaType::http_message("response")
    }

    /// `application/warc-fields`: the field lines a `warcinfo` or `metadata` record carries.
    pub fn warc_fields() -> (r: Self)
        ensures
            r@ == plain_media("application"@, "warc-fields"@),
            is_spellable(r@),
    {
        proof {
            lemma_constants_are_tokens();
        }
        MediaType::constant("application", "warc-fields")
    }

    /// `application/octet-stream`: octets the archive does not type further.
    pub fn octet_stream() -> (r: Self)
        ensures
            r@ == plain_media("application"@, "octet-stream"@),
    {
        proof {
            lemma_constants_are_tokens();
        }
        MediaType::constant("application", "octet-stream")
    }

    /// `application/json`: a JSON document.
    pub fn json() -> (r: Self)
        ensures
            r@ == plain_media("application"@, "json"@),
    {
        proof {
            lemma_constants_are_tokens();
        }
        MediaType::constant("application", "json")
    }

    /// `text/plain`: a block of text.
    pub fn text_plain() -> (r: Self)
        ensures
            r@ == plain_media("text"@, "plain"@),
    {
        proof {
            lemma_constants_are_tokens();
        }
        MediaType::constant("text", "plain")
    }

    /// `text/dns`: a DNS lookup, which archives record as a `resource` record.
    pub fn text_dns() -> (r: Self)
        ensures
            r@ == plain_media("text"@, "dns"@),
    {
        proof {
            lemma_constants_are_tokens();
        }
        MediaType::constant("text", "dns")
    }

    /// The text that spells the type and its parameters.
    pub fn to_string(&self) -> (r: String)
        ensures
            octets(r@) == media_octets(self@),
    {
        let spelled = self.to_octets();
        proof {
            use_type_invariant(self);
            lemma_media_octets_are_utf8(self@);
        }
        match utf8_string(spelled) {
            Some(text) => text,
            None => String::new(),
        }
    }
}

/// Text with a backslash before each quote and backslash.
spec fn escaped_text(s: Seq<char>) -> Seq<char>
    decreases s.len(),
{
    if s.len() == 0 {
        s
    } else if s[0] == '"' || s[0] == '\\' {
        seq!['\\', s[0]] + escaped_text(s.skip(1))
    } else {
        seq![s[0]] + escaped_text(s.skip(1))
    }
}

proof fn lemma_escaped_concat(a: Seq<u8>, b: Seq<u8>)
    ensures
        escaped(a + b) == escaped(a) + escaped(b),
    decreases a.len(),
{
    if a.len() == 0 {
        assert(a + b =~= b);
        assert(escaped(a) + escaped(b) =~= escaped(b));
    } else {
        assert((a + b).skip(1) =~= a.skip(1) + b);
        lemma_escaped_concat(a.skip(1), b);
        assert(escaped(a + b) =~= escaped(a) + escaped(b));
    }
}

proof fn lemma_escaped_same(s: Seq<u8>)
    requires
        forall|i: int| 0 <= i < s.len() ==> #[trigger] s[i] != 0x22 && s[i] != 0x5c,
    ensures
        escaped(s) == s,
    decreases s.len(),
{
    if s.len() > 0 {
        assert(s[0] != 0x22 && s[0] != 0x5c);
        lemma_escaped_same(s.skip(1));
        assert(escaped(s) =~= s);
    }
}

proof fn lemma_high_octets(c: u32)
    by (bit_vector)
    ensures
        leading_byte_width_2(c) >= 0x80,
        leading_byte_width_3(c) >= 0x80,
        leading_byte_width_4(c) >= 0x80,
        last_continuation_byte(c) >= 0x80,
        second_last_continuation_byte(c) >= 0x80,
        third_last_continuation_byte(c) >= 0x80,
{
}

proof fn lemma_low_octet(c: u32)
    by (bit_vector)
    requires
        c < 0x80,
    ensures
        leading_byte_width_1(c) == c,
{
}

/// The octets of one character, escaped, are those of the character, escaped.
proof fn lemma_escaped_character(c: char)
    ensures
        escaped(octets(seq![c])) == octets(escaped_text(seq![c])),
{
    reveal_with_fuel(escaped, 3);
    reveal_with_fuel(escaped_text, 3);
    reveal_with_fuel(encode_utf8, 3);
    let code = c as u32;
    assert(seq![c].drop_first() =~= Seq::empty());
    assert(seq![c].skip(1) =~= Seq::empty());
    assert(octets(seq![c]) =~= encode_scalar(code));
    if code < 0x80 {
        lemma_low_octet(code);
        assert(has_width_1_encoding(code));
        assert(encode_scalar(code) =~= seq![code as u8]);
        assert(seq![code as u8].skip(1) =~= Seq::empty());
        if c == '"' || c == '\\' {
            let pair = seq!['\\', c];
            assert(escaped_text(seq![c]) =~= pair);
            assert(pair.drop_first() =~= seq![c]);
            lemma_low_octet('\\' as u32);
            assert(octets(pair) =~= seq![0x5cu8, code as u8]);
            assert(escaped(seq![code as u8]) =~= seq![0x5cu8, code as u8]);
        } else {
            assert(escaped_text(seq![c]) =~= seq![c]);
            assert(escaped(seq![code as u8]) =~= seq![code as u8]);
        }
    } else {
        lemma_high_octets(code);
        lemma_escaped_same(encode_scalar(code));
        assert(escaped_text(seq![c]) =~= seq![c]);
    }
}

proof fn lemma_escaped_octets(text: Seq<char>)
    ensures
        escaped(octets(text)) == octets(escaped_text(text)),
    decreases text.len(),
{
    if text.len() == 0 {
        assert(octets(text) =~= Seq::empty());
    } else {
        let first = seq![text[0]];
        let rest = text.skip(1);
        assert(first + rest =~= text);
        lemma_octets_concat(first, rest);
        lemma_escaped_concat(octets(first), octets(rest));
        lemma_escaped_octets(rest);
        lemma_escaped_character(text[0]);
        assert(first.skip(1) =~= Seq::empty());
        assert(escaped_text(Seq::empty()) =~= Seq::<char>::empty());
        assert(escaped_text(text) =~= escaped_text(first) + escaped_text(rest)) by {
            reveal_with_fuel(escaped_text, 2);
        }
        lemma_octets_concat(escaped_text(first), escaped_text(rest));
    }
}

proof fn lemma_ascii_is_text(s: Seq<u8>)
    requires
        is_ascii(s),
    ensures
        valid_utf8(s),
{
    lemma_ascii_text(s);
}

proof fn lemma_parameters_are_utf8(parameters: Seq<NamedValue>)
    ensures
        valid_utf8(parameters_octets(parameters)),
    decreases parameters.len(),
{
    if parameters.len() > 0 {
        let first = parameters[0];
        lemma_parameters_are_utf8(parameters.skip(1));
        encode_utf8_valid_utf8(first.separator);
        encode_utf8_valid_utf8(first.name);
        lemma_ascii_is_text(seq![0x3du8]);
        match first.value {
            Value::Token(text) => {
                encode_utf8_valid_utf8(text);
            },
            Value::Quoted(text) => {
                lemma_escaped_octets(text);
                encode_utf8_valid_utf8(escaped_text(text));
                lemma_ascii_is_text(seq![0x22u8]);
                valid_utf8_concat(seq![0x22u8], escaped(octets(text)));
                valid_utf8_concat(seq![0x22u8] + escaped(octets(text)), seq![0x22u8]);
            },
        }
        let a = octets(first.separator) + octets(first.name);
        valid_utf8_concat(octets(first.separator), octets(first.name));
        valid_utf8_concat(a, seq![0x3du8]);
        valid_utf8_concat(a + seq![0x3du8], value_octets(first.value));
        valid_utf8_concat(
            parameter_octets(first),
            parameters_octets(parameters.skip(1)),
        );
    }
}

/// What spells a media type is valid UTF-8.
proof fn lemma_media_octets_are_utf8(media: Media)
    ensures
        valid_utf8(media_octets(media)),
{
    lemma_parameters_are_utf8(media.parameters);
    encode_utf8_valid_utf8(media.main_type);
    encode_utf8_valid_utf8(media.subtype);
    lemma_ascii_is_text(seq![0x2fu8]);
    let a = octets(media.main_type) + seq![0x2fu8];
    valid_utf8_concat(octets(media.main_type), seq![0x2fu8]);
    valid_utf8_concat(a, octets(media.subtype));
    valid_utf8_concat(
        a + octets(media.subtype),
        parameters_octets(media.parameters),
    );
}

proof fn lemma_joined_is_text(a: Seq<u8>, b: Seq<u8>)
    requires
        is_text(a),
        is_text(b),
    ensures
        is_text(a + b),
{
    assert forall|i: int| 0 <= i < (a + b).len() implies is_text_char(#[trigger] (a + b)[i]) by {
        if i < a.len() {
            assert((a + b)[i] == a[i]);
        } else {
            assert((a + b)[i] == b[i - a.len()]);
        }
    }
}

proof fn lemma_token_is_text(s: Seq<u8>)
    requires
        is_token(s),
    ensures
        is_text(s),
{
    assert forall|i: int| 0 <= i < s.len() implies is_text_char(#[trigger] s[i]) by {
        assert(is_token_char(s[i]));
    }
}

proof fn lemma_separator_is_text(s: Seq<u8>)
    requires
        is_separator(s),
    ensures
        is_text(s),
{
    let at = position(s, 0x3b, 0);
    lemma_position(s, 0x3b, 0);
    assert forall|i: int| 0 <= i < s.len() implies is_text_char(#[trigger] s[i]) by {
        if i != at {
            assert(is_lws(s[i]));
        }
    }
}

proof fn lemma_parameters_are_text(parameters: Seq<NamedValue>)
    requires
        forall|i: int|
            0 <= i < parameters.len() ==> is_spellable_parameter(#[trigger] parameters[i]),
    ensures
        is_text(parameters_octets(parameters)),
    decreases parameters.len(),
{
    if parameters.len() > 0 {
        let first = parameters[0];
        let rest = parameters.skip(1);
        assert(is_spellable_parameter(first));
        assert forall|i: int| 0 <= i < rest.len() implies is_spellable_parameter(
            #[trigger] rest[i],
        ) by {
            assert(rest[i] == parameters[i + 1]);
        }
        lemma_parameters_are_text(rest);
        let separator = octets(first.separator);
        let name = octets(first.name);
        let value = value_octets(first.value);
        lemma_separator_is_text(separator);
        lemma_token_is_text(name);
        match first.value {
            Value::Token(text) => {
                lemma_token_is_text(octets(text));
            },
            Value::Quoted(text) => {
                lemma_quoted_is_text(octets(text));
            },
        }
        lemma_joined_is_text(separator, name);
        lemma_joined_is_text(separator + name, seq![0x3du8]);
        lemma_joined_is_text(separator + name + seq![0x3du8], value);
        lemma_joined_is_text(parameter_octets(first), parameters_octets(rest));
    }
}

/// A media type is written in text.
pub proof fn lemma_media_octets_are_text(media: Media)
    requires
        is_spellable(media),
    ensures
        is_text(media_octets(media)),
{
    let main_type = octets(media.main_type);
    let subtype = octets(media.subtype);
    let tail = parameters_octets(media.parameters);
    lemma_token_is_text(main_type);
    lemma_token_is_text(subtype);
    lemma_parameters_are_text(media.parameters);
    lemma_joined_is_text(main_type, seq![0x2fu8]);
    lemma_joined_is_text(main_type + seq![0x2fu8], subtype);
    lemma_joined_is_text(main_type + seq![0x2fu8] + subtype, tail);
}

/// Parameters are written without white space behind them.
proof fn lemma_parameters_end(parameters: Seq<NamedValue>)
    requires
        forall|i: int|
            0 <= i < parameters.len() ==> is_spellable_parameter(#[trigger] parameters[i]),
        parameters.len() > 0,
    ensures
        parameters_octets(parameters).len() > 0,
        !is_white(parameters_octets(parameters).last()),
    decreases parameters.len(),
{
    let first = parameters[0];
    let rest = parameters.skip(1);
    assert(is_spellable_parameter(first));
    assert forall|i: int| 0 <= i < rest.len() implies is_spellable_parameter(
        #[trigger] rest[i],
    ) by {
        assert(rest[i] == parameters[i + 1]);
    }
    let all = parameters_octets(parameters);
    let spelled = value_octets(first.value);
    lemma_value_octets(first.value);
    if rest.len() > 0 {
        lemma_parameters_end(rest);
        assert(all.last() == parameters_octets(rest).last());
    } else {
        assert(all.last() == spelled.last());
        match first.value {
            Value::Token(text) => {
                assert(is_token_char(octets(text)[octets(text).len() - 1]));
            },
            Value::Quoted(_) => {},
        }
    }
}

/// White space neither opens nor closes what a media type is written as.
pub proof fn lemma_media_octets_are_trim(media: Media)
    requires
        is_spellable(media),
    ensures
        is_trim(media_octets(media)),
{
    let main_type = octets(media.main_type);
    let subtype = octets(media.subtype);
    let all = media_octets(media);
    assert(is_token_char(main_type[0]));
    assert(all[0] == main_type[0]);
    if media.parameters.len() > 0 {
        lemma_parameters_end(media.parameters);
        assert(all.last() == parameters_octets(media.parameters).last());
    } else {
        assert(is_token_char(subtype[subtype.len() - 1]));
        assert(all.last() == subtype.last());
    }
}

/// What an [`Error`] says in words.
pub open spec fn message(fault: Fault) -> Seq<char> {
    match fault {
            Fault::NoSubtype(value) => {
                "not a media type: no `/` separating type from subtype in `"@ + value + "`"@
            },
            Fault::MalformedEssence(value) => {
                "not a media type: the type or subtype of `"@ + value + "` is not a token"@
            },
            Fault::MalformedParameter(value, parameter) => {
                "not a media type: `"@ + parameter + "` is not a parameter, in `"@ + value + "`"@
            },
            Fault::MalformedQuotedValue(_, parameter, source) => {
                "not a media type: the value of `"@ + parameter + "` is not a quoted string, since "@ + source.message()
            },
            Fault::NonUtf8ParameterValue(_, parameter) => {
                "not a media type: the value of `"@ + parameter + "` is not valid UTF-8"@
            },
    }
}

impl Error {
    /// What the error says in words.
    pub fn to_string(&self) -> (r: String)
        ensures
            r@ == message(self@),
    {
        let mut out = String::new();
        match self {
            Error::NoSubtype { value } => {
                out.append("not a media type: no `/` separating type from subtype in `");
                out.append(value.as_str());
                out.append("`");
            },
            Error::MalformedEssence { value } => {
                out.append("not a media type: the type or subtype of `");
                out.append(value.as_str());
                out.append("` is not a token");
            },
            Error::MalformedParameter { value, parameter } => {
                out.append("not a media type: `");
                out.append(parameter.as_str());
                out.append("` is not a parameter, in `");
                out.append(value.as_str());
                out.append("`");
            },
            Error::MalformedQuotedValue { value: _, parameter, source } => {
                out.append("not a media type: the value of `");
                out.append(parameter.as_str());
                out.append("` is not a quoted string, since ");
                out.append(source.to_string().as_str());
            },
            Error::NonUtf8ParameterValue { value: _, parameter } => {
                out.append("not a media type: the value of `");
                out.append(parameter.as_str());
                out.append("` is not valid UTF-8");
            },
        }
        assert(out@ =~= message(self@));
        out
    }
}

/// Spaces and tabs may stand on either side of the `;` before a parameter.
pub proof fn lemma_white_space_may_stand(before: Seq<u8>, after: Seq<u8>)
    requires
        forall|i: int| 0 <= i < before.len() ==> #[trigger] before[i] == 0x20 || before[i] == 0x09,
        forall|i: int| 0 <= i < after.len() ==> #[trigger] after[i] == 0x20 || after[i] == 0x09,
    ensures
        is_separator(before + seq![0x3bu8] + after),
{
    let s = before + seq![0x3bu8] + after;
    let n = before.len() as int;
    assert forall|i: int| 0 <= i < n implies #[trigger] s[i] != 0x3b by {
        assert(s[i] == before[i]);
    }
    lemma_position_is(s, 0x3b, 0, n);
    assert forall|i: int| 0 <= i < s.len() && i != n implies is_lws(#[trigger] s[i]) by {
        if i < n {
            assert(s[i] == before[i]);
        } else {
            assert(s[i] == after[i - n - 1]);
        }
    }
}

} // verus!
