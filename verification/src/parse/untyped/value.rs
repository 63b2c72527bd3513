//! The values of header fields, read by the grammar of their field.

use crate::octets::{
    append, ascii_string, ascii_text, copied, decimal, decimal_octets, decimal_value, is_decimal,
    is_digit, is_hex_digit, is_trim, is_visible, lemma_ascii_octets, lemma_ascii_text,
    lemma_decimal, lemma_trimmed_is_trim, lossy, lossy_text, octets, parse_decimal, trim, utf8_str,
};
use crate::parse::untyped::name::Field;
use crate::parsing::{is_text, is_text_char, is_token, is_token_char, lemma_quoted_is_text, token};
use crate::record::fields::parser::{joined, lemma_unfolded_same, unfold, unfolded};
use crate::value::date::{
    date_octets, date_of, in_leap_second, is_date, lemma_date_octets_are_ascii, Date,
};
use crate::value::digest::{self, labelled_digest, labelled_octets, Labelled};
use crate::value::ip::{address_of, address_text, lemma_address_reads_back, IpAddress};
use crate::value::media_type::{self, media_octets, media_type, Media};
use crate::value::text::{self, text_octets, text_value, Content};
use crate::value::uri::{is_uri, is_uri_char};
use crate::value::{Error, Fault, LabelledDigest, MediaType, Text, Uri, WarcDate};
use crate::version::WarcVersion;
use std::borrow::Cow;
use vstd::prelude::*;
use vstd::slice::slice_subrange;
use vstd::utf8::{decode_utf8, encode_utf8_decode_utf8, encode_utf8_valid_utf8, valid_utf8};

verus! {

/// The grammar rule that the value of a field follows.
#[derive(Clone, Copy, Debug, PartialEq, Eq, Structural)]
pub enum Rule {
    /// A token.
    Token,
    /// Decimal digits.
    Digits,
    /// A URI, bare or in angle brackets.
    Uri,
    /// A labelled digest.
    Digest,
    /// A media type.
    MediaType,
    /// An IPv4 or IPv6 address.
    IpAddress,
    /// A timestamp.
    Date,
    /// Text or a quoted string.
    Text,
}

/// The grammar rule that the value of a field follows.
pub open spec fn rule_of(field: Field) -> Rule {
    match field {
        Field::WarcType | Field::Truncated => Rule::Token,
        Field::ContentLength | Field::SegmentNumber | Field::SegmentTotalLength => Rule::Digits,
        Field::BlockDigest | Field::PayloadDigest => Rule::Digest,
        Field::ContentType | Field::IdentifiedPayloadType => Rule::MediaType,
        Field::IPAddress => Rule::IpAddress,
        Field::Date | Field::RefersToDate => Rule::Date,
        Field::Filename => Rule::Text,
        _ => Rule::Uri,
    }
}

fn rule(field: Field) -> (r: Rule)
    ensures
        r == rule_of(field),
{
    match field {
        Field::WarcType | Field::Truncated => Rule::Token,
        Field::ContentLength | Field::SegmentNumber | Field::SegmentTotalLength => Rule::Digits,
        Field::BlockDigest | Field::PayloadDigest => Rule::Digest,
        Field::ContentType | Field::IdentifiedPayloadType => Rule::MediaType,
        Field::IPAddress => Rule::IpAddress,
        Field::Date | Field::RefersToDate => Rule::Date,
        Field::Filename => Rule::Text,
        _ => Rule::Uri,
    }
}

/// What a value says under its rule.
pub ghost enum Form {
    /// A token.
    Token(Seq<char>),
    /// A number.
    Digits(nat),
    /// A URI, and whether it stands in angle brackets.
    Uri(Seq<char>, bool),
    /// A labelled digest.
    Digest(Labelled),
    /// A media type.
    MediaType(Media),
    /// An address.
    IpAddress(IpAddress),
    /// A date.
    Date(Date),
    /// Text.
    Text(Content),
}

/// A value as its field's grammar reads it.
#[derive(Clone, Debug)]
pub enum ValueForm {
    /// A token.
    Token(String),
    /// A number.
    Digits(u64),
    /// A URI.
    Uri {
        /// The URI.
        uri: Uri,
        /// Whether it stands in angle brackets.
        bracketed: bool,
    },
    /// A labelled digest.
    Digest(LabelledDigest),
    /// A media type.
    MediaType(MediaType),
    /// An address.
    IpAddress(IpAddress),
    /// A date.
    Date(WarcDate),
    /// Text.
    Text(Text),
}

impl View for ValueForm {
    type V = Form;

    open spec fn view(&self) -> Form {
        match self {
            ValueForm::Token(token) => Form::Token(token@),
            ValueForm::Digits(number) => Form::Digits(*number as nat),
            ValueForm::Uri { uri, bracketed } => Form::Uri(uri@, *bracketed),
            ValueForm::Digest(digest) => Form::Digest(digest@),
            ValueForm::MediaType(media) => Form::MediaType(media@),
            ValueForm::IpAddress(address) => Form::IpAddress(*address),
            ValueForm::Date(date) => Form::Date(date@),
            ValueForm::Text(content) => Form::Text(content@),
        }
    }
}

/// The rule that a form follows.
pub open spec fn rule_for(form: Form) -> Rule {
    match form {
        Form::Token(_) => Rule::Token,
        Form::Digits(_) => Rule::Digits,
        Form::Uri(..) => Rule::Uri,
        Form::Digest(_) => Rule::Digest,
        Form::MediaType(_) => Rule::MediaType,
        Form::IpAddress(_) => Rule::IpAddress,
        Form::Date(_) => Rule::Date,
        Form::Text(_) => Rule::Text,
    }
}

/// Whether octets stand in angle brackets.
pub open spec fn is_bracketed(s: Seq<u8>) -> bool {
    s.len() >= 2 && s[0] == 0x3c && s.last() == 0x3e
}

/// Octets without the angle brackets that they may stand in.
pub open spec fn within_brackets(s: Seq<u8>) -> Seq<u8> {
    if is_bracketed(s) {
        s.subrange(1, s.len() - 1)
    } else {
        s
    }
}

/// What octets say under a rule.
pub open spec fn form_of(rule: Rule, s: Seq<u8>) -> Result<Form, Fault> {
    match rule {
        Rule::Token => if is_token(s) {
            Ok(Form::Token(ascii_text(s)))
        } else {
            Err(Fault::Token(lossy_text(s)))
        },
        Rule::Digits => if is_decimal(s) && decimal_value(s) <= u64::MAX {
            Ok(Form::Digits(decimal_value(s)))
        } else {
            Err(Fault::Digits(lossy_text(s)))
        },
        Rule::Uri => {
            let inner = within_brackets(s);
            if valid_utf8(inner) && is_uri(decode_utf8(inner)) {
                Ok(Form::Uri(decode_utf8(inner), is_bracketed(s)))
            } else {
                Err(Fault::Uri(lossy_text(s)))
            }
        },
        Rule::Digest => match labelled_digest(s) {
            Ok(digest) => Ok(Form::Digest(digest)),
            Err(fault) => Err(Fault::Digest(fault)),
        },
        Rule::MediaType => match media_type(s) {
            Ok(media) => Ok(Form::MediaType(media)),
            Err(fault) => Err(Fault::MediaType(fault)),
        },
        Rule::IpAddress => match address_of(s) {
            Some(address) => Ok(Form::IpAddress(address)),
            None => Err(Fault::IpAddress(lossy_text(s))),
        },
        Rule::Date => match date_of(s, WarcVersion::V1_1) {
            Some(date) => Ok(Form::Date(date)),
            None => Err(Fault::Date(lossy_text(s))),
        },
        Rule::Text => match text_value(s) {
            Ok(content) => Ok(Form::Text(content)),
            Err(fault) => Err(Fault::Text(fault)),
        },
    }
}

/// The octets that a form is written as.
pub open spec fn form_octets(form: Form) -> Seq<u8> {
    match form {
        Form::Token(token) => octets(token),
        Form::Digits(number) => decimal(number),
        Form::Uri(uri, bracketed) => if bracketed {
            seq![0x3cu8] + octets(uri) + seq![0x3eu8]
        } else {
            octets(uri)
        },
        Form::Digest(digest) => labelled_octets(digest),
        Form::MediaType(media) => media_octets(media),
        Form::IpAddress(address) => address_text(address),
        Form::Date(date) => date_octets(date, WarcVersion::V1_1),
        Form::Text(content) => text_octets(content),
    }
}

/// Whether a form is one that a value can be read as.
pub open spec fn is_readable(form: Form) -> bool {
    match form {
        Form::Token(token) => is_token(octets(token)),
        Form::Digits(number) => number <= u64::MAX,
        Form::Uri(uri, _) => is_uri(uri),
        Form::Digest(digest) => digest::is_readable(digest),
        Form::MediaType(media) => media_type::is_spellable(media),
        Form::IpAddress(_) => true,
        Form::Date(date) => is_date(date) && 0 <= date.instant.year <= 9999 && !in_leap_second(
            date.instant,
        ),
        Form::Text(content) => text::is_spellable(content),
    }
}

/// A form that a value can be read as is read back from what it is written as.
pub proof fn lemma_form_reads_back(form: Form)
    requires
        is_readable(form),
    ensures
        form_of(rule_for(form), form_octets(form)) == Ok::<Form, Fault>(form),
{
    match form {
        Form::Token(token) => {
            assert forall|i: int| 0 <= i < octets(token).len() implies #[trigger] octets(token)[i]
                < 128 by {
                assert(is_token_char(octets(token)[i]));
            }
            lemma_ascii_octets(token);
        },
        Form::Digits(number) => {
            lemma_decimal(number);
        },
        Form::Uri(uri, bracketed) => {
            let s = form_octets(form);
            encode_utf8_valid_utf8(uri);
            encode_utf8_decode_utf8(uri);
            if bracketed {
                assert(s.subrange(1, s.len() - 1) =~= octets(uri));
            } else {
                assert(is_uri_char(s[0]));
            }
        },
        Form::Digest(digest) => {
            digest::lemma_digest_reads_back(digest);
        },
        Form::MediaType(media) => {
            media_type::lemma_media_type_reads_back(media);
        },
        Form::IpAddress(address) => {
            lemma_address_reads_back(address);
        },
        Form::Date(date) => {
            crate::value::date::lemma_date_reads_back(date, WarcVersion::V1_1);
        },
        Form::Text(content) => {
            text::lemma_text_reads_back(content);
        },
    }
}

/// Visible ASCII is text that white space neither opens nor closes.
proof fn lemma_visible(s: Seq<u8>)
    requires
        is_visible(s),
    ensures
        is_text(s),
        is_trim(s),
{
    assert forall|i: int| 0 <= i < s.len() implies is_text_char(#[trigger] s[i]) by {
        assert(0x20 < s[i] < 0x7f);
    }
    if s.len() > 0 {
        assert(0x20 < s[0] < 0x7f);
        assert(0x20 < s[s.len() - 1] < 0x7f);
    }
}

/// A form that a value can be read as is written in text. White space neither opens nor closes it,
/// unless it is a text that white space opens or closes.
pub proof fn lemma_form_octets(form: Form)
    requires
        is_readable(form),
    ensures
        is_text(form_octets(form)),
        !(form is Text) ==> is_trim(form_octets(form)),
{
    let s = form_octets(form);
    match form {
        Form::Token(token) => {
            assert forall|i: int| 0 <= i < s.len() implies 0x20 < #[trigger] s[i] < 0x7f by {
                assert(is_token_char(s[i]));
            }
            lemma_visible(s);
        },
        Form::Digits(number) => {
            lemma_decimal(number);
            assert forall|i: int| 0 <= i < s.len() implies 0x20 < #[trigger] s[i] < 0x7f by {
                assert(is_digit(s[i]));
            }
            lemma_visible(s);
        },
        Form::Uri(uri, bracketed) => {
            let inner = octets(uri);
            assert forall|i: int| 0 <= i < s.len() implies 0x20 < #[trigger] s[i] < 0x7f by {
                if bracketed {
                    if 0 < i < s.len() - 1 {
                        assert(s[i] == inner[i - 1]);
                        assert(is_uri_char(inner[i - 1]));
                    }
                } else {
                    assert(is_uri_char(inner[i]));
                }
            }
            lemma_visible(s);
        },
        Form::Digest(digest) => {
            let label = octets(digest.label);
            let value = octets(digest.value);
            assert forall|i: int| 0 <= i < s.len() implies 0x20 < #[trigger] s[i] < 0x7f by {
                if i < label.len() {
                    assert(s[i] == label[i]);
                    assert(is_token_char(label[i]));
                } else if i > label.len() {
                    assert(s[i] == value[i - label.len() - 1]);
                    assert(is_token_char(value[i - label.len() - 1]) || value[i - label.len() - 1]
                        == 0x3d || value[i - label.len() - 1] == 0x2f);
                }
            }
            lemma_visible(s);
        },
        Form::MediaType(media) => {
            media_type::lemma_media_octets_are_text(media);
            media_type::lemma_media_octets_are_trim(media);
        },
        Form::IpAddress(address) => {
            lemma_address_reads_back(address);
            assert forall|i: int| 0 <= i < s.len() implies 0x20 < #[trigger] s[i] < 0x7f by {
                assert(is_hex_digit(s[i]) || s[i] == 0x3a || s[i] == 0x2e);
            }
            lemma_visible(s);
        },
        Form::Date(date) => {
            lemma_date_octets_are_ascii(date, WarcVersion::V1_1);
            lemma_visible(s);
        },
        Form::Text(content) => {
            if content.quoted {
                lemma_quoted_is_text(content.content);
            }
        },
    }
}

/// Whether a form reads back as itself from a header line: a value can be read as it, and white
/// space neither opens nor closes what it is written as.
pub open spec fn is_faithful(form: Form) -> bool {
    is_readable(form) && is_trim(form_octets(form))
}

/// A faithful form reads back as itself from a header line.
pub proof fn lemma_faithful(field: Field, form: Form)
    requires
        is_faithful(form),
        rule_for(form) == rule_of(field),
    ensures
        ({
            let s = seq![0x20u8] + form_octets(form);
            said(Some(field), s) == Ok::<Said, Fault>(Said { octets: s, form: Some(form) })
        }),
{
    let value = form_octets(form);
    lemma_form_octets(form);
    assert forall|j: int| 0 <= j < value.len() implies #[trigger] value[j] != 0x0a by {
        assert(is_text_char(value[j]));
    }
    lemma_unfolded_same(seq![0x20u8], value);
    lemma_form_reads_back(form);
}

/// What a value without white space around it is read as reads back as itself.
pub proof fn lemma_read_form_is_faithful(rule: Rule, s: Seq<u8>)
    requires
        is_trim(s),
        form_of(rule, s) is Ok,
    ensures
        is_faithful(form_of(rule, s)->Ok_0),
        rule_for(form_of(rule, s)->Ok_0) == rule,
{
    let form = form_of(rule, s)->Ok_0;
    match rule {
        Rule::Token => {
            assert forall|i: int| 0 <= i < s.len() implies #[trigger] s[i] < 0x80 by {
                assert(is_token_char(s[i]));
            }
            lemma_ascii_text(s);
        },
        Rule::Digest => {
            digest::lemma_digest_is_written_as_read(s);
        },
        Rule::MediaType => {
            media_type::lemma_read_media_type_is_spellable(s);
        },
        Rule::Date => {
            crate::value::date::lemma_read_date(s, WarcVersion::V1_1);
        },
        Rule::Text => {
            text::lemma_read_text_is_spellable(s);
        },
        _ => {},
    }
    lemma_form_octets(form);
}

/// What a header line is read as reads back as itself.
pub proof fn lemma_said_is_faithful(field: Option<Field>, s: Seq<u8>)
    ensures
        said(field, s) matches Ok(value) ==> value.octets == s && (value.form matches Some(form)
            ==> is_faithful(form)),
{
    if field is Some && said(field, s) is Ok {
        lemma_trimmed_is_trim(joined(s, 0));
        lemma_read_form_is_faithful(rule_of(field->0), unfolded(s));
    }
}

/// Read a value by a rule.
fn read_form(rule: Rule, s: &[u8]) -> (r: Result<ValueForm, Error>)
    ensures
        match r {
            Ok(form) => form_of(rule, s@) == Ok::<Form, Fault>(form@),
            Err(error) => form_of(rule, s@) == Err::<Form, Fault>(error@),
        },
{
    match rule {
        Rule::Token => if token(s) {
            proof {
                assert forall|i: int| 0 <= i < s.len() implies #[trigger] s@[i] < 128 by {
                    assert(is_token_char(s@[i]));
                }
            }
            Ok(ValueForm::Token(ascii_string(s)))
        } else {
            Err(Error::Token(lossy(s)))
        },
        Rule::Digits => match parse_decimal(s) {
            Some(number) => Ok(ValueForm::Digits(number)),
            None => Err(Error::Digits(lossy(s))),
        },
        Rule::Uri => {
            let bracketed = s.len() >= 2 && s[0] == 0x3c && s[s.len() - 1] == 0x3e;
            let inner = if bracketed {
                slice_subrange(s, 1, s.len() - 1)
            } else {
                s
            };
            assert(inner@ =~= within_brackets(s@));
            match utf8_str(inner) {
                Some(inner_text) => {
                    proof {
                        encode_utf8_decode_utf8(inner_text@);
                    }
                    match Uri::parse(inner_text) {
                        Ok(uri) => Ok(ValueForm::Uri { uri, bracketed }),
                        Err(_) => Err(Error::Uri(lossy(s))),
                    }
                },
                None => Err(Error::Uri(lossy(s))),
            }
        },
        Rule::Digest => match LabelledDigest::parse(s) {
            Ok(digest) => Ok(ValueForm::Digest(digest)),
            Err(error) => Err(Error::Digest(error)),
        },
        Rule::MediaType => match MediaType::parse(s) {
            Ok(media) => Ok(ValueForm::MediaType(media)),
            Err(error) => Err(Error::MediaType(error)),
        },
        Rule::IpAddress => match IpAddress::parse(s) {
            Some(address) => Ok(ValueForm::IpAddress(address)),
            None => Err(Error::IpAddress(lossy(s))),
        },
        Rule::Date => match WarcDate::parse_octets(s, WarcVersion::V1_1) {
            Some(date) => Ok(ValueForm::Date(date)),
            None => Err(Error::Date(lossy(s))),
        },
        Rule::Text => match Text::parse(s) {
            Ok(content) => Ok(ValueForm::Text(content)),
            Err(error) => Err(Error::Text(error)),
        },
    }
}

/// The octets that a form is written as.
fn write_form(form: &ValueForm) -> (r: Vec<u8>)
    ensures
        r@ == form_octets(form@),
{
    match form {
        ValueForm::Token(token) => copied(token.as_str().as_bytes()),
        ValueForm::Digits(number) => decimal_octets(*number),
        ValueForm::Uri { uri, bracketed } => {
            let mut out: Vec<u8> = Vec::new();
            if *bracketed {
                out.push(0x3c);
            }
            append(&mut out, uri.as_str().as_bytes());
            if *bracketed {
                out.push(0x3e);
            }
            assert(out@ =~= form_octets(form@));
            out
        },
        ValueForm::Digest(digest) => digest.to_octets(),
        ValueForm::MediaType(media) => media.to_octets(),
        ValueForm::IpAddress(address) => address.to_octets(),
        ValueForm::Date(date) => date.octets_for_version(WarcVersion::V1_1),
        ValueForm::Text(content) => match content.to_bytes() {
            Cow::Borrowed(spelled) => copied(spelled),
            Cow::Owned(spelled) => spelled,
        },
    }
}

/// What a header value says: its octets behind the colon, and what they say where the standard
/// defines the field.
pub ghost struct Said {
    /// The octets behind the colon.
    pub octets: Seq<u8>,
    /// What they say under the rule of the field.
    pub form: Option<Form>,
}

/// What octets behind the colon say for a field.
pub open spec fn said(field: Option<Field>, s: Seq<u8>) -> Result<Said, Fault> {
    match field {
        Some(field) => match form_of(rule_of(field), unfolded(s)) {
            Ok(form) => Ok(Said { octets: s, form: Some(form) }),
            Err(fault) => Err(fault),
        },
        None => Ok(Said { octets: s, form: None }),
    }
}

/// The value of a header line.
#[derive(Clone, Debug)]
pub struct FieldValue {
    octets: Vec<u8>,
    form: Option<ValueForm>,
}

impl View for FieldValue {
    type V = Said;

    closed spec fn view(&self) -> Said {
        Said {
            octets: self.octets@,
            form: match self.form {
                Some(form) => Some(form@),
                None => None,
            },
        }
    }
}

impl FieldValue {
    /// Read the octets behind the colon by the rule of the field, or keep them where no version of
    /// the standard defines it.
    pub fn parse(field: Option<Field>, s: &[u8]) -> (r: Result<Self, Error>)
        ensures
            match r {
                Ok(value) => said(field, s@) == Ok::<Said, Fault>(value@),
                Err(error) => said(field, s@) == Err::<Said, Fault>(error@),
            },
    {
        match field {
            Some(field) => {
                let joined = unfold(s);
                match read_form(rule(field), trim(joined.as_slice())) {
                    Ok(form) => Ok(FieldValue { octets: copied(s), form: Some(form) }),
                    Err(error) => Err(error),
                }
            },
            None => Ok(FieldValue { octets: copied(s), form: None }),
        }
    }

    /// The value that a form is written as, behind a single space.
    pub fn from(form: ValueForm) -> (r: Self)
        ensures
            r@ == (Said { octets: seq![0x20u8] + form_octets(form@), form: Some(form@) }),
    {
        let mut out: Vec<u8> = Vec::new();
        out.push(0x20);
        let written = write_form(&form);
        append(&mut out, written.as_slice());
        assert(out@ =~= seq![0x20u8] + form_octets(form@));
        FieldValue { octets: out, form: Some(form) }
    }

    /// The octets behind the colon.
    pub fn as_bytes(&self) -> (r: &[u8])
        ensures
            r@ == self@.octets,
    {
        self.octets.as_slice()
    }

    /// The octets behind the colon.
    pub fn into_bytes(self) -> (r: Vec<u8>)
        ensures
            r@ == self@.octets,
    {
        self.octets
    }

    /// What the value says, where the standard defines the field.
    pub fn into_form(self) -> (r: Option<ValueForm>)
        ensures
            match r {
                Some(form) => self@.form == Some(form@),
                None => self@.form is None,
            },
    {
        self.form
    }
}

proof fn lemma_value_of_zeros(zeros: nat, digits: Seq<u8>)
    ensures
        decimal_value(Seq::new(zeros, |i: int| 0x30u8) + digits) == decimal_value(digits),
    decreases zeros, digits.len(),
{
    let all = Seq::new(zeros, |i: int| 0x30u8) + digits;
    if digits.len() > 0 {
        lemma_value_of_zeros(zeros, digits.drop_last());
        assert(all.drop_last() =~= Seq::new(zeros, |i: int| 0x30u8) + digits.drop_last());
    } else if zeros > 0 {
        let fewer = (zeros - 1) as nat;
        lemma_value_of_zeros(fewer, digits);
        assert(all.drop_last() =~= Seq::new(fewer, |i: int| 0x30u8) + digits);
        assert(all.last() == 0x30);
    } else {
        assert(all =~= digits);
    }
}

/// A number is read from its decimal digits, whatever zeros stand before them, unless it is above
/// the greatest of 64 bits.
pub proof fn lemma_number_is_read(zeros: nat, number: nat)
    ensures
        ({
            let s = Seq::new(zeros, |i: int| 0x30u8) + decimal(number);
            form_of(Rule::Digits, s) == if number <= u64::MAX {
                Ok::<Form, Fault>(Form::Digits(number))
            } else {
                Err(Fault::Digits(lossy_text(s)))
            }
        }),
{
    let digits = decimal(number);
    let s = Seq::new(zeros, |i: int| 0x30u8) + digits;
    lemma_decimal(number);
    lemma_value_of_zeros(zeros, digits);
    assert forall|i: int| 0 <= i < s.len() implies is_digit(#[trigger] s[i]) by {
        if i >= zeros {
            assert(is_digit(digits[i - zeros]));
        }
    }
}

/// A URI is read with or without angle brackets around it, as the same URI.
pub proof fn lemma_brackets_do_not_matter(uri: Seq<char>)
    requires
        is_uri(uri),
    ensures
        form_of(Rule::Uri, octets(uri)) == Ok::<Form, Fault>(Form::Uri(uri, false)),
        form_of(Rule::Uri, seq![0x3cu8] + octets(uri) + seq![0x3eu8]) == Ok::<Form, Fault>(
            Form::Uri(uri, true),
        ),
{
    lemma_form_reads_back(Form::Uri(uri, false));
    lemma_form_reads_back(Form::Uri(uri, true));
}

} // verus!
