//! Builders for records and record headers.
//!
//! Each entry point selects a record type and requires its mandatory fields. The returned builder
//! exposes only the optional fields allowed for that type.
//!
//! For builders that accept an arbitrary content block, [`build`](ResponseBuilder::build) returns
//! a header and [`body`](ResponseBuilder::body) attaches the block and returns a record.
//!
//! Builders generate a fresh `urn:uuid` record identifier unless
//! [`record_id`](ResponseBuilder::record_id) provides one.
//!
//! Builders restrict which fields can be set, but some relationships between values are checked
//! only when records are read. For example, a revisit profile may require a particular digest.
//! Segment numbers below `2` are rejected immediately because they can never form a valid
//! `continuation` record.
//!
//! Record types whose block has a customary media type declare it: `application/http` with the
//! matching `msgtype` for `request` and `response` records, and `application/warc-fields` for
//! `warcinfo` and `metadata` records. [`content_type`](ResponseBuilder::content_type) replaces it
//! on the builders that are given a block. Attaching a body fails if a declared `Content-Length`
//! does not match it.
//!
//! The `warcinfo` and `metadata` builders construct their own `warc-fields` bodies, so
//! [`build`](WarcinfoBuilder::build) returns a complete record. A `warcinfo` body begins with
//! fields identifying the declared WARC version; a `metadata` body begins empty. Construct a
//! record directly if either type must carry another kind of block.
//!
//! Rendering adds SHA-256 block and payload digests when possible.
//! [`digests`](ResponseBuilder::digests) selects another algorithm.
//!
//! Records declare WARC 1.1. The [`v1_0`] module mirrors every entry point here for an archive
//! that has to be written as WARC 1.0.
//!
//! The extension defaults to [`NoExtension`]. Use `Record::<MyExtension>::response(..)` to select
//! another extension.

use crate::octets::{
    ascii_text, decimal, is_ascii, is_digit, is_hex_digit, lemma_ascii_octets,
    lemma_ascii_octets_of, lemma_decimal, lemma_position_is, octets,
};
use crate::parse::untyped::name::Field;
use crate::parsing::{
    decimal_string, decimal_text, is_text, is_text_char, is_token, wide_decimal_string,
};
use crate::record::block::block_octets;
use crate::record::digest::{
    add_block_digest, add_payload_digest, computed, takes_added_payload_digest, with_block_digest,
    with_payload_digest, Format,
};
use crate::record::error::Fault;
use crate::record::extension::{Extension, NoExtension};
use crate::record::fields::dcmi::DcmiTerm;
use crate::record::fields::metadata::{
    self, hop_letter, hop_letters, HopsFromSeed, MetadataBody, MetadataField,
};
use crate::record::fields::warcinfo::{self, WarcinfoBody, WarcinfoField};
use crate::record::fields::{first_appearance, replaced, unwritable, without, Body};
use crate::record::header::truncated_type::TruncatedType;
use crate::record::header::{
    ContinuationHeader, ConversionHeader, CoreHeaders, MetadataHeader, OtherHeader, PayloadHeaders,
    RequestHeader, ResourceHeader, ResponseHeader, RevisitHeader, RevisitProfile, SegmentNumber,
    WarcinfoHeader,
};
use crate::record::lift::shown;
use crate::record::read::with_length;
use crate::record::{fields, BlockError, Error, FieldsBlock, Record, RecordHeader};
use crate::value::digest::{encoding_for, is_readable, DigestFormat};
use crate::value::hash::Supported;
use crate::value::ip::{address_text, lemma_address_reads_back};
use crate::value::media_type::{is_spellable, media_with, plain_media, Media};
use crate::value::text::{text_value, Content};
use crate::value::uri::{self, is_plain_urn, is_uri, uri_fault};
use crate::value::{text, IpAddress, LabelledDigest, MediaType, Text, Uri, WarcDate};
use crate::version::{number, WarcVersion};
use vstd::prelude::*;
use vstd::string::*;

pub mod v1_0;

verus! {

/// Whether a text is a `urn:uuid` name of version 4: the prefix, and hexadecimal digits in lower
/// case, eight, four, four, four and twelve with a hyphen between, of which the thirteenth names
/// the version and the seventeenth the variant.
pub open spec fn is_uuid_urn(text: Seq<char>) -> bool {
    let s = octets(text);
    &&& s.len() == 45
    &&& s.take(9) == octets("urn:uuid:"@)
    &&& forall|i: int|
        9 <= i < 45 ==> if i == 17 || i == 22 || i == 27 || i == 32 {
            #[trigger] s[i] == 0x2d
        } else {
            0x30 <= s[i] <= 0x39 || 0x61 <= s[i] <= 0x66
        }
    &&& s[23] == 0x34
    &&& s[28] == 0x38 || s[28] == 0x39 || s[28] == 0x61 || s[28] == 0x62
}

/// A fresh `urn:uuid` name.
///
/// Calls `uuid::Uuid::new_v4` and spells the identifier with `Uuid::urn`, which writes the prefix
/// and then five groups of hexadecimal digits in lower case with a hyphen between. The digits are
/// random but for that of the version, a `4`, and that of the variant, one of `8`, `9`, `a`, `b`.
#[verifier::external_body]
fn fresh_urn() -> (r: String)
    ensures
        is_uuid_urn(r@),
{
    uuid::Uuid::new_v4().urn().to_string()
}

/// A `urn:uuid` name is a URI.
proof fn lemma_uuid_urn(text: Seq<char>)
    requires
        is_uuid_urn(text),
    ensures
        is_plain_urn(octets(text)),
{
    let s = octets(text);
    reveal_strlit("urn:uuid:");
    lemma_ascii_octets_of("urn:uuid:"@);
    assert forall|i: int| 0 <= i < 9 implies #[trigger] s[i] == "urn:uuid:"@[i] as u8 by {
        assert(s[i] == s.take(9)[i]);
    }
    lemma_position_is(s, 0x3a, 0, 3);
}

/// Generate a version 4 UUID using the `urn:uuid` scheme.
fn generated_record_id() -> (r: Uri)
    ensures
        is_uuid_urn(r@),
        is_uri(r@),
{
    let urn = fresh_urn();
    proof {
        lemma_uuid_urn(urn@);
    }
    Uri::parse(urn.as_str()).unwrap()
}

/// Whether core fields are those that a builder starts from: a fresh identifier, the date, and the
/// media type customary for the record type.
pub open spec fn is_fresh<E: Extension>(
    core: CoreHeaders<E>,
    date: WarcDate,
    content_type: Option<Media>,
) -> bool {
    &&& is_uuid_urn(core.record_id@)
    &&& is_uri(core.record_id@)
    &&& core.date == date
    &&& core.content_length is None
    &&& core.block_digest is None
    &&& shown(core.content_type) == content_type
    &&& content_type matches Some(media) ==> is_spellable(media)
    &&& core.truncated is None
    &&& core.unrecognized@.len() == 0
}

impl PayloadHeaders {
    /// Whether nothing is said of a payload.
    pub open spec fn is_none(self) -> bool {
        self.payload_digest is None && self.identified_payload_type is None
    }
}

/// The fields every record carries, with the two universally mandatory ones and the media type
/// customary for the record type populated.
fn core_headers<E: Extension>(
    date: WarcDate,
    content_type: Option<MediaType>,
) -> (r: CoreHeaders<E>)
    requires
        content_type matches Some(media) ==> is_spellable(media@),
    ensures
        is_fresh(r, date, shown(content_type)),
{
    CoreHeaders {
        record_id: generated_record_id(),
        date,
        content_length: None,
        block_digest: None,
        content_type,
        truncated: None,
        unrecognized: Vec::new(),
    }
}

/// The format that an algorithm's digests are written in.
pub open spec fn format_for(algorithm: Supported) -> Format {
    (algorithm.named(), encoding_for(algorithm.named()))
}

/// Whether a record is another with a block digest, where that declares none.
pub open spec fn adds_block_digest<E: Extension>(
    before: Record<E>,
    after: Record<E>,
    format: Format,
) -> bool {
    match before.core_headers().block_digest {
        Some(_) => after == before,
        None => exists|digest: LabelledDigest|
            digest@ == computed(format, before.block()) && is_readable(digest@) && after
                == #[trigger] with_block_digest(before, digest),
    }
}

/// Whether a record is another with a payload digest, where that takes one.
pub open spec fn adds_payload_digest<E: Extension>(
    before: Record<E>,
    after: Record<E>,
    format: Format,
) -> bool {
    if takes_added_payload_digest(before) {
        exists|digest: LabelledDigest|
            digest@ == computed(format, before.payload_content()->Ok_0->0) && is_readable(digest@)
                && after == #[trigger] with_payload_digest(before, digest)
    } else {
        after == before
    }
}

/// Whether a record is another with the digests of the chosen algorithm.
pub open spec fn is_digested<E: Extension>(
    before: Record<E>,
    after: Record<E>,
    chosen: Option<Supported>,
) -> bool {
    match chosen {
        None => after == before,
        Some(algorithm) => exists|middle: Record<E>|
            #[trigger] adds_block_digest(before, middle, format_for(algorithm))
                && adds_payload_digest(middle, after, format_for(algorithm)),
    }
}

/// Whether a result is the record that a header makes up with a block, with the digests of the
/// chosen algorithm, or why it makes up none.
pub open spec fn is_built<E: Extension>(
    result: Result<Record<E>, BlockError>,
    header: RecordHeader<E>,
    body: Seq<u8>,
    chosen: Option<Supported>,
) -> bool {
    match result {
        Ok(record) => header.body_fault(body) is None && exists|made: Record<E>|
            #[trigger] made.is_made_of(header, body) && is_digested(made, record, chosen),
        Err(error) => header.body_fault(body) == Some(error@),
    }
}

/// Add the requested digests.
fn add_digests<E: Extension>(record: Record<E>, digests: Option<Supported>) -> (r: Record<E>)
    ensures
        is_digested(record, r, digests),
{
    match digests {
        None => record,
        Some(algorithm) => {
            let format = DigestFormat::recommended(algorithm.algorithm());
            let middle = add_block_digest(record, &format);
            assert(adds_block_digest(record, middle, format_for(algorithm)));
            let ghost between = middle;
            let r = add_payload_digest(middle, &format);
            assert(adds_payload_digest(between, r, format_for(algorithm)));
            r
        },
    }
}

/// Where the specification a WARC file of the given version conforms to is published.
pub open spec fn specification(version: WarcVersion) -> Seq<char> {
    match version {
        WarcVersion::V1_0 => {
            "http://iipc.github.io/warc-specifications/specifications/warc-format/warc-1.0/"@
        },
        WarcVersion::V1_1 => {
            "http://iipc.github.io/warc-specifications/specifications/warc-format/warc-1.1/"@
        },
    }
}

/// Where the specification a WARC file of the given version conforms to is published.
pub fn specification_uri(version: WarcVersion) -> (r: &'static str)
    ensures
        r@ == specification(version),
{
    match version {
        WarcVersion::V1_0 => {
            "http://iipc.github.io/warc-specifications/specifications/warc-format/warc-1.0/"
        },
        WarcVersion::V1_1 => {
            "http://iipc.github.io/warc-specifications/specifications/warc-format/warc-1.1/"
        },
    }
}

/// Write a field of a record body from a value this crate rendered, which is always writable.
fn set_rendered<F: fields::Field>(body: &mut Body<F>, field: F, value: &str)
    requires
        unwritable::<F>(field@, value@) is None,
    ensures
        final(body)@.fields == replaced(old(body)@.fields, field@, value@),
        final(body)@.source is None,
{
    let written = body.set(field, value);
    assert(written is Ok);
}

/// The names of the fields that are written from rendered values are tokens.
proof fn lemma_names_are_tokens()
    ensures
        is_token(octets(DcmiTerm::Format.named())),
        is_token(octets(DcmiTerm::ConformsTo.named())),
        is_token(octets("ip"@)),
        is_token(octets("hopsFromSeed"@)),
        is_token(octets("fetchTimeMs"@)),
{
    reveal_strlit("format");
    reveal_strlit("conformsTo");
    reveal_strlit("ip");
    reveal_strlit("hopsFromSeed");
    reveal_strlit("fetchTimeMs");
    lemma_ascii_octets_of("format"@);
    lemma_ascii_octets_of("conformsTo"@);
    lemma_ascii_octets_of("ip"@);
    lemma_ascii_octets_of("hopsFromSeed"@);
    lemma_ascii_octets_of("fetchTimeMs"@);
}

/// What a `warcinfo` record says of the version of the file it opens.
pub open spec fn version_text(version: WarcVersion) -> Seq<char> {
    "WARC file version "@ + number(version)
}

/// Fields with those that describe a version.
pub open spec fn described(
    lines: Seq<(warcinfo::Named, Seq<char>)>,
    version: WarcVersion,
) -> Seq<(warcinfo::Named, Seq<char>)> {
    let format = replaced(lines, warcinfo::Named::Dcmi(DcmiTerm::Format), version_text(version));
    replaced(format, warcinfo::Named::Dcmi(DcmiTerm::ConformsTo), specification(version))
}

/// The fields that describe a version.
pub open spec fn description(version: WarcVersion) -> Seq<(warcinfo::Named, Seq<char>)> {
    seq![
        (warcinfo::Named::Dcmi(DcmiTerm::Format), version_text(version)),
        (warcinfo::Named::Dcmi(DcmiTerm::ConformsTo), specification(version)),
    ]
}

/// Describing a version in an empty body leaves the fields that describe it.
proof fn lemma_described(version: WarcVersion)
    ensures
        described(Seq::empty(), version) == description(version),
{
    reveal_with_fuel(first_appearance, 3);
    reveal_with_fuel(without, 3);
    let none = Seq::<(warcinfo::Named, Seq<char>)>::empty();
    let format = warcinfo::Named::Dcmi(DcmiTerm::Format);
    let one = replaced(none, format, version_text(version));
    assert(none.skip(0) =~= none);
    assert(one =~= seq![(format, version_text(version))]);
    assert(one.skip(1) =~= none);
    assert(described(none, version) =~= description(version));
}

/// Describing another version replaces the fields that describe the first.
pub proof fn lemma_redescribed(before: WarcVersion, version: WarcVersion)
    ensures
        described(description(before), version) == description(version),
{
    reveal_with_fuel(first_appearance, 4);
    reveal_with_fuel(without, 4);
    let format = warcinfo::Named::Dcmi(DcmiTerm::Format);
    let conforms = warcinfo::Named::Dcmi(DcmiTerm::ConformsTo);
    let all = description(before);
    let second = (conforms, specification(before));
    assert(all.skip(0) =~= all);
    assert(all.drop_last() =~= seq![(format, version_text(before))]);
    assert(all.drop_last().drop_last() =~= Seq::empty());
    assert(without(all, format) =~= seq![second]);
    let one = replaced(all, format, version_text(version));
    assert(one =~= seq![(format, version_text(version)), second]);
    assert(one.skip(1) =~= seq![second]);
    assert(one.skip(1).drop_last() =~= Seq::empty());
    assert(without(one.skip(1), conforms) =~= Seq::empty());
    assert(one.take(1) =~= seq![(format, version_text(version))]);
    assert(described(all, version) =~= description(version));
}

/// Texts of visible characters and spaces are text.
proof fn lemma_plain_text(text: Seq<char>)
    requires
        forall|i: int| 0 <= i < text.len() ==> 0x20 <= ((#[trigger] text[i]) as int) < 0x7f,
    ensures
        is_text(octets(text)),
{
    lemma_ascii_octets_of(text);
    assert forall|i: int| 0 <= i < octets(text).len() implies is_text_char(
        #[trigger] octets(text)[i],
    ) by {
        assert(octets(text)[i] == text[i] as u8);
        assert(0x20 <= (text[i] as int) < 0x7f);
        assert(text[i] as u8 == text[i] as int);
    }
}

/// Write what a `warcinfo` record says about the version of the file it opens, in the two fields
/// Annex B.1 of the standard writes it in.
fn describe_version(body: &mut WarcinfoBody, version: WarcVersion)
    ensures
        final(body)@.fields == described(old(body)@.fields, version),
        final(body)@.source is None,
{
    let mut text = "WARC file version ".to_string();
    text.append(version.as_str());
    proof {
        lemma_names_are_tokens();
        reveal_strlit("WARC file version ");
        reveal_strlit("1.0");
        reveal_strlit("1.1");
        reveal_strlit(
            "http://iipc.github.io/warc-specifications/specifications/warc-format/warc-1.0/",
        );
        reveal_strlit(
            "http://iipc.github.io/warc-specifications/specifications/warc-format/warc-1.1/",
        );
        lemma_plain_text(text@);
        lemma_plain_text(specification(version));
    }
    set_rendered(body, WarcinfoField::Dcmi(DcmiTerm::Format), text.as_str());
    set_rendered(body, WarcinfoField::Dcmi(DcmiTerm::ConformsTo), specification_uri(version));
}

/// A builder for a `warcinfo` record, which describes the records that follow it.
///
/// The setters write the record's `warc-fields` body, which starts by identifying the WARC version
/// of the file.
#[derive(Clone, Debug)]
pub struct WarcinfoBuilder<E: Extension = NoExtension> {
    header: WarcinfoHeader<E>,
    body: WarcinfoBody,
    digests: Option<Supported>,
}

impl<E: Extension> WarcinfoBuilder<E> {
    /// The header that is built.
    pub closed spec fn head(&self) -> WarcinfoHeader<E> {
        self.header
    }

    /// The body that is built.
    pub closed spec fn fields(&self) -> WarcinfoBody {
        self.body
    }

    /// The algorithm of the digests that are added.
    pub closed spec fn chosen(&self) -> Option<Supported> {
        self.digests
    }
}

impl<E: Extension> WarcinfoBuilder<E> where E::WarcinfoFields: Default {
    /// Whether the builder holds the mandatory fields of a `warcinfo` record, the fields that
    /// describe its version, and no others.
    pub open spec fn is_new(self, version: WarcVersion, date: WarcDate) -> bool {
        &&& self.head().version == version
        &&& is_fresh(self.head().core, date, Some(plain_media("application"@, "warc-fields"@)))
        &&& self.head().filename is None
        &&& !self.head().segment_origin
        &&& call_ensures(E::WarcinfoFields::default, (), self.head().other)
        &&& self.fields()@.fields == description(version)
        &&& self.fields()@.source is None
        &&& self.chosen() is None
    }

    /// Create a `warcinfo` builder with its required fields.
    ///
    /// The body starts with `format` and `conformsTo` fields for the declared WARC version.
    /// Their setters replace these defaults.
    #[must_use]
    pub fn new(date: WarcDate) -> (r: Self)
        ensures
            r.is_new(WarcVersion::V1_1, date),
    {
        let mut body = WarcinfoBody::new();
        describe_version(&mut body, WarcVersion::V1_1);
        proof {
            lemma_described(WarcVersion::V1_1);
        }
        WarcinfoBuilder {
            header: WarcinfoHeader {
                version: WarcVersion::V1_1,
                core: core_headers(date, Some(MediaType::warc_fields())),
                filename: None,
                segment_origin: false,
                other: E::WarcinfoFields::default(),
            },
            body,
            digests: None,
        }
    }
}

impl<E: Extension> WarcinfoBuilder<E> {
    /// Declare this record, and the file it describes, as WARC 1.0.
    #[must_use]
    pub(crate) fn into_v1_0(self) -> (r: Self)
        ensures
            r.head() == (WarcinfoHeader { version: WarcVersion::V1_0, ..self.head() }),
            r.fields()@.fields == described(self.fields()@.fields, WarcVersion::V1_0),
            r.fields()@.source is None,
            r.chosen() == self.chosen(),
    {
        let mut r = self;
        r.header.version = WarcVersion::V1_0;
        describe_version(&mut r.body, WarcVersion::V1_0);
        r
    }

    /// `WARC-Record-ID`: replace the generated identifier for this record.
    #[must_use]
    pub fn record_id(self, record_id: Uri) -> (r: Self)
        ensures
            r.head() == (
                WarcinfoHeader {
                    core: CoreHeaders { record_id, ..self.head().core },
                    ..self.head()
                }
            ),
            r.chosen() == self.chosen(),
            r.fields() == self.fields(),
    {
        let mut r = self;
        r.header.core.record_id = record_id;
        r
    }

    /// Add block and payload digests computed with the given algorithm.
    ///
    /// Digests use the algorithm's recommended label and encoding. Existing digests are preserved,
    /// and a header built without a block gets none.
    #[must_use]
    pub fn digests(self, algorithm: Supported) -> (r: Self)
        ensures
            r.head() == self.head(),
            r.chosen() == Some(algorithm),
            r.fields() == self.fields(),
    {
        let mut r = self;
        r.digests = Some(algorithm);
        r
    }

    /// Replace the extension fields for this record.
    #[must_use]
    pub fn extension(self, fields: E::WarcinfoFields) -> (r: Self)
        ensures
            r.head() == (WarcinfoHeader { other: fields, ..self.head() }),
            r.chosen() == self.chosen(),
            r.fields() == self.fields(),
    {
        let mut r = self;
        r.header.other = fields;
        r
    }

    /// Whether the builder gives a field one value, and is otherwise the same as another.
    pub open spec fn sets(self, before: Self, field: warcinfo::Named, value: Seq<char>) -> bool {
        &&& self.fields()@.fields == replaced(before.fields()@.fields, field, value)
        &&& self.fields()@.source is None
        &&& self.head() == before.head()
        &&& self.chosen() == before.chosen()
    }

    /// Write a field the setters here do not name, such as one outside the vocabulary the standard
    /// fixes for this record type.
    ///
    /// Each call appends a value. The named setters replace their field's existing value.
    ///
    /// # Errors
    ///
    /// Returns [`fields::Error::UnwritableField`] if the name is not a token or the value holds a
    /// control character, neither of which a field line can be written from.
    pub fn field(self, field: WarcinfoField, value: &str) -> (r: Result<Self, fields::Error>)
        ensures
            match r {
                Ok(r) => {
                    &&& unwritable::<WarcinfoField>(field@, value@) is None
                    &&& r.fields()@.fields == self.fields()@.fields.push((field@, value@))
                    &&& r.fields()@.source is None
                    &&& r.head() == self.head()
                    &&& r.chosen() == self.chosen()
                },
                Err(error) => unwritable::<WarcinfoField>(field@, value@) == Some(error@),
            },
    {
        let mut r = self;
        match r.body.push(field, value) {
            Ok(_) => Ok(r),
            Err(error) => Err(error),
        }
    }

    /// `robots`: the robots policy followed by the harvester creating this WARC resource.
    ///
    /// This replaces any value the field already carries.
    ///
    /// # Errors
    ///
    /// Returns [`fields::Error::UnwritableField`] if the value holds a control character, which the
    /// `TEXT` rule a field value is written under does not admit.
    pub fn robots(self, value: &str) -> (r: Result<Self, fields::Error>)
        ensures
            match r {
                Ok(r) => unwritable::<WarcinfoField>(warcinfo::Named::Robots, value@) is None
                    && r.sets(
                    self,
                    warcinfo::Named::Robots,
                    value@,
                ),
                Err(error) => unwritable::<WarcinfoField>(
                    warcinfo::Named::Robots,
                    value@,
                ) == Some(error@),
            },
    {
        let mut r = self;
        match r.body.set(WarcinfoField::Robots, value) {
            Ok(_) => Ok(r),
            Err(error) => Err(error),
        }
    }

    /// `hostname`: the hostname of the machine that created this WARC resource.
    ///
    /// This replaces any value the field already carries.
    ///
    /// # Errors
    ///
    /// Returns [`fields::Error::UnwritableField`] if the value holds a control character, which the
    /// `TEXT` rule a field value is written under does not admit.
    pub fn hostname(self, value: &str) -> (r: Result<Self, fields::Error>)
        ensures
            match r {
                Ok(r) => unwritable::<WarcinfoField>(warcinfo::Named::Hostname, value@) is None
                    && r.sets(
                    self,
                    warcinfo::Named::Hostname,
                    value@,
                ),
                Err(error) => unwritable::<WarcinfoField>(
                    warcinfo::Named::Hostname,
                    value@,
                ) == Some(error@),
            },
    {
        let mut r = self;
        match r.body.set(WarcinfoField::Hostname, value) {
            Ok(_) => Ok(r),
            Err(error) => Err(error),
        }
    }

    /// `http-header-user-agent`: the HTTP `user-agent` header the harvester usually sent.
    ///
    /// This replaces any value the field already carries.
    ///
    /// # Errors
    ///
    /// Returns [`fields::Error::UnwritableField`] if the value holds a control character, which the
    /// `TEXT` rule a field value is written under does not admit.
    pub fn http_header_user_agent(self, value: &str) -> (r: Result<Self, fields::Error>)
        ensures
            match r {
                Ok(r) => unwritable::<WarcinfoField>(
                    warcinfo::Named::HttpHeaderUserAgent,
                    value@,
                ) is None
                    && r.sets(
                    self,
                    warcinfo::Named::HttpHeaderUserAgent,
                    value@,
                ),
                Err(error) => unwritable::<WarcinfoField>(
                    warcinfo::Named::HttpHeaderUserAgent,
                    value@,
                ) == Some(error@),
            },
    {
        let mut r = self;
        match r.body.set(WarcinfoField::HttpHeaderUserAgent, value) {
            Ok(_) => Ok(r),
            Err(error) => Err(error),
        }
    }

    /// `http-header-from`: the HTTP `from` header the harvester usually sent.
    ///
    /// This replaces any value the field already carries.
    ///
    /// # Errors
    ///
    /// Returns [`fields::Error::UnwritableField`] if the value holds a control character, which the
    /// `TEXT` rule a field value is written under does not admit.
    pub fn http_header_from(self, value: &str) -> (r: Result<Self, fields::Error>)
        ensures
            match r {
                Ok(r) => unwritable::<WarcinfoField>(
                    warcinfo::Named::HttpHeaderFrom,
                    value@,
                ) is None
                    && r.sets(
                    self,
                    warcinfo::Named::HttpHeaderFrom,
                    value@,
                ),
                Err(error) => unwritable::<WarcinfoField>(
                    warcinfo::Named::HttpHeaderFrom,
                    value@,
                ) == Some(error@),
            },
    {
        let mut r = self;
        match r.body.set(WarcinfoField::HttpHeaderFrom, value) {
            Ok(_) => Ok(r),
            Err(error) => Err(error),
        }
    }

    /// `description`: an account of the crawl or the file this record describes.
    ///
    /// This replaces any value the field already carries.
    ///
    /// # Errors
    ///
    /// Returns [`fields::Error::UnwritableField`] if the value holds a control character, which the
    /// `TEXT` rule a field value is written under does not admit.
    pub fn description(self, value: &str) -> (r: Result<Self, fields::Error>)
        ensures
            match r {
                Ok(r) => unwritable::<WarcinfoField>(
                    warcinfo::Named::Dcmi(DcmiTerm::Description),
                    value@,
                ) is None
                    && r.sets(
                    self,
                    warcinfo::Named::Dcmi(DcmiTerm::Description),
                    value@,
                ),
                Err(error) => unwritable::<WarcinfoField>(
                    warcinfo::Named::Dcmi(DcmiTerm::Description),
                    value@,
                ) == Some(error@),
            },
    {
        let mut r = self;
        match r.body.set(WarcinfoField::Dcmi(DcmiTerm::Description), value) {
            Ok(_) => Ok(r),
            Err(error) => Err(error),
        }
    }

    /// `isPartOf`: the crawl or collection this file belongs to.
    ///
    /// This replaces any value the field already carries.
    ///
    /// # Errors
    ///
    /// Returns [`fields::Error::UnwritableField`] if the value holds a control character, which the
    /// `TEXT` rule a field value is written under does not admit.
    pub fn is_part_of(self, value: &str) -> (r: Result<Self, fields::Error>)
        ensures
            match r {
                Ok(r) => unwritable::<WarcinfoField>(
                    warcinfo::Named::Dcmi(DcmiTerm::IsPartOf),
                    value@,
                ) is None
                    && r.sets(
                    self,
                    warcinfo::Named::Dcmi(DcmiTerm::IsPartOf),
                    value@,
                ),
                Err(error) => unwritable::<WarcinfoField>(
                    warcinfo::Named::Dcmi(DcmiTerm::IsPartOf),
                    value@,
                ) == Some(error@),
            },
    {
        let mut r = self;
        match r.body.set(WarcinfoField::Dcmi(DcmiTerm::IsPartOf), value) {
            Ok(_) => Ok(r),
            Err(error) => Err(error),
        }
    }

    /// `format`: the format of the file this record opens.
    ///
    /// This replaces any value the field already carries.
    ///
    /// # Errors
    ///
    /// Returns [`fields::Error::UnwritableField`] if the value holds a control character, which the
    /// `TEXT` rule a field value is written under does not admit.
    pub fn format(self, value: &str) -> (r: Result<Self, fields::Error>)
        ensures
            match r {
                Ok(r) => unwritable::<WarcinfoField>(
                    warcinfo::Named::Dcmi(DcmiTerm::Format),
                    value@,
                ) is None
                    && r.sets(
                    self,
                    warcinfo::Named::Dcmi(DcmiTerm::Format),
                    value@,
                ),
                Err(error) => unwritable::<WarcinfoField>(
                    warcinfo::Named::Dcmi(DcmiTerm::Format),
                    value@,
                ) == Some(error@),
            },
    {
        let mut r = self;
        match r.body.set(WarcinfoField::Dcmi(DcmiTerm::Format), value) {
            Ok(_) => Ok(r),
            Err(error) => Err(error),
        }
    }

    /// `conformsTo`: the specification this file conforms to, named by its URI.
    ///
    /// This replaces any value the field already carries.
    ///
    /// # Errors
    ///
    /// Returns [`fields::Error::UnwritableField`] if the value holds a control character, which the
    /// `TEXT` rule a field value is written under does not admit.
    pub fn conforms_to(self, value: &str) -> (r: Result<Self, fields::Error>)
        ensures
            match r {
                Ok(r) => unwritable::<WarcinfoField>(
                    warcinfo::Named::Dcmi(DcmiTerm::ConformsTo),
                    value@,
                ) is None
                    && r.sets(
                    self,
                    warcinfo::Named::Dcmi(DcmiTerm::ConformsTo),
                    value@,
                ),
                Err(error) => unwritable::<WarcinfoField>(
                    warcinfo::Named::Dcmi(DcmiTerm::ConformsTo),
                    value@,
                ) == Some(error@),
            },
    {
        let mut r = self;
        match r.body.set(WarcinfoField::Dcmi(DcmiTerm::ConformsTo), value) {
            Ok(_) => Ok(r),
            Err(error) => Err(error),
        }
    }

    /// Set `operator` to the creator's `name` or, when given, `name <email>`.
    ///
    /// Replaces any existing value.
    ///
    /// # Errors
    ///
    /// Returns [`fields::Error::UnwritableField`] if `name` or `email` contains a control
    /// character, which the field-value grammar forbids.
    pub fn operator(self, name: &str, email: Option<&str>) -> (r: Result<Self, fields::Error>)
        ensures
            ({
                let value = match email {
                    Some(email) => name@ + " <"@ + email@ + ">"@,
                    None => name@,
                };
                match r {
                    Ok(r) => unwritable::<WarcinfoField>(warcinfo::Named::Operator, value) is None
                        && r.sets(self, warcinfo::Named::Operator, value),
                    Err(error) => unwritable::<WarcinfoField>(warcinfo::Named::Operator, value)
                        == Some(error@),
                }
            }),
    {
        let mut r = self;
        let mut value = name.to_string();
        match email {
            Some(email) => {
                value.append(" <");
                value.append(email);
                value.append(">");
            },
            None => {},
        }
        match r.body.set(WarcinfoField::Operator, value.as_str()) {
            Ok(_) => Ok(r),
            Err(error) => Err(error),
        }
    }

    /// Set `software` to the creating software's `name/version`.
    ///
    /// Replaces any existing value.
    ///
    /// # Errors
    ///
    /// Returns [`fields::Error::UnwritableField`] if `name` or `version` contains a control
    /// character, which the field-value grammar forbids.
    pub fn software(self, name: &str, version: &str) -> (r: Result<Self, fields::Error>)
        ensures
            ({
                let value = name@ + "/"@ + version@;
                match r {
                    Ok(r) => unwritable::<WarcinfoField>(warcinfo::Named::Software, value) is None
                        && r.sets(self, warcinfo::Named::Software, value),
                    Err(error) => unwritable::<WarcinfoField>(warcinfo::Named::Software, value)
                        == Some(error@),
                }
            }),
    {
        let mut r = self;
        let mut value = name.to_string();
        value.append("/");
        value.append(version);
        match r.body.set(WarcinfoField::Software, value.as_str()) {
            Ok(_) => Ok(r),
            Err(error) => Err(error),
        }
    }

    /// `ip`: the IP address of the machine that created this WARC resource.
    ///
    /// This replaces any value the field already carries.
    #[must_use]
    pub fn ip(self, ip_address: IpAddress) -> (r: Self)
        ensures
            r.sets(self, warcinfo::Named::Ip, ascii_text(address_text(ip_address))),
    {
        let mut r = self;
        let value = ip_address.to_string();
        proof {
            lemma_names_are_tokens();
            lemma_address_reads_back(ip_address);
            let s = address_text(ip_address);
            assert forall|i: int| 0 <= i < s.len() implies is_text_char(#[trigger] s[i]) by {
                assert(is_hex_digit(s[i]) || s[i] == 0x3a || s[i] == 0x2e);
            }
            assert(is_ascii(s)) by {
                assert forall|i: int| 0 <= i < s.len() implies #[trigger] s[i] < 0x80 by {
                    assert(is_hex_digit(s[i]) || s[i] == 0x3a || s[i] == 0x2e);
                }
            }
            lemma_ascii_octets(value@);
        }
        set_rendered(&mut r.body, WarcinfoField::Ip, value.as_str());
        r
    }

    /// `WARC-Filename`: the name of the file holding this record, which no other record type may
    /// carry.
    ///
    /// # Errors
    ///
    /// Returns an error if the name holds a control character, which the `TEXT` rule the field
    /// is written under does not admit.
    pub fn filename(self, filename: &str) -> (r: Result<Self, text::Error>)
        ensures
            match r {
                Ok(r) => {
                    &&& r.head().filename is Some
                    &&& text_value(octets(filename@)) == Ok::<Content, text::Fault>(
                        r.head().filename->0@,
                    )
                    &&& r.head() == (WarcinfoHeader { filename: r.head().filename, ..self.head() })
                    &&& r.fields() == self.fields()
                    &&& r.chosen() == self.chosen()
                },
                Err(error) => text_value(octets(filename@)) == Err::<
                    Content,
                    text::Fault,
                >(error@),
            },
    {
        let mut r = self;
        match Text::parse(filename.as_bytes()) {
            Ok(text) => {
                r.header.filename = Some(text);
                Ok(r)
            },
            Err(error) => Err(error),
        }
    }
}

impl<E: Extension> WarcinfoBuilder<E> {
    /// Build the record from the fields the builder was told.
    ///
    /// A block these fields cannot express is written by constructing the record directly.
    #[must_use]
    pub fn build(self) -> (r: Record<E>)
        ensures
            is_digested(
                Record::Warcinfo {
                    header: WarcinfoHeader {
                        core: with_length(
                            self.head().core,
                            block_octets(FieldsBlock::Fields(self.fields())).len() as u64,
                        ),
                        ..self.head()
                    },
                    body: FieldsBlock::Fields(self.fields()),
                },
                r,
                self.chosen(),
            ),
    {
        let digests = self.digests;
        let body = self.body;
        let mut header = self.header;
        // A block is held in memory, so its length is a `usize` that fits a `u64` on every platform
        // this crate builds for.
        header.core.content_length = Some(body.rendered_len() as u64);
        let record = Record::Warcinfo { header, body: FieldsBlock::Fields(body) };
        add_digests(record, digests)
    }
}

/// A builder for a `response` record, which holds a complete scheme-specific response.
#[derive(Clone, Debug)]
pub struct ResponseBuilder<E: Extension = NoExtension> {
    header: ResponseHeader<E>,
    digests: Option<Supported>,
}

impl<E: Extension> ResponseBuilder<E> {
    /// The header that is built.
    pub closed spec fn head(&self) -> ResponseHeader<E> {
        self.header
    }

    /// The algorithm of the digests that are added.
    pub closed spec fn chosen(&self) -> Option<Supported> {
        self.digests
    }
}

impl<E: Extension> ResponseBuilder<E> where E::ResponseFields: Default {
    /// Whether the builder holds the mandatory fields of a `response` record and no others.
    pub open spec fn is_new(
        self,
        version: WarcVersion,
        target_uri: Seq<char>,
        date: WarcDate,
    ) -> bool {
        &&& self.head().version == version
        &&& is_fresh(
            self.head().core,
            date,
            Some(media_with("application"@, "http"@, "msgtype"@, "response"@)),
        )
        &&& self.head().payload.is_none()
        &&& self.head().target_uri@ == target_uri
        &&& self.head().warcinfo_id is None
        &&& self.head().ip_address is None
        &&& self.head().concurrent_to@.len() == 0
        &&& !self.head().segment_origin
        &&& call_ensures(E::ResponseFields::default, (), self.head().other)
        &&& self.chosen() is None
    }

    /// A builder for a `response` record, given the fields the standard makes mandatory for one.
    ///
    /// # Errors
    ///
    /// Returns an error if the target URI is not a URI.
    pub fn new(target_uri: &str, date: WarcDate) -> (r: Result<Self, uri::Error>)
        ensures
            match r {
                Ok(builder) => is_uri(target_uri@) && builder.is_new(
                    WarcVersion::V1_1,
                    target_uri@,
                    date,
                ),
                Err(error) => uri_fault(target_uri@) == Some(error.0@),
            },
    {
        let target_uri = match Uri::parse(target_uri) {
            Ok(uri) => uri,
            Err(error) => {
                return Err(error);
            },
        };
        Ok(
            ResponseBuilder {
                header: ResponseHeader {
                    version: WarcVersion::V1_1,
                    core: core_headers(date, Some(MediaType::http_response())),
                    payload: PayloadHeaders::none(),
                    target_uri,
                    warcinfo_id: None,
                    ip_address: None,
                    concurrent_to: Vec::new(),
                    segment_origin: false,
                    other: E::ResponseFields::default(),
                },
                digests: None,
            },
        )
    }
}

impl<E: Extension> ResponseBuilder<E> {
    /// Declare this record as WARC 1.0.
    #[must_use]
    pub(crate) fn into_v1_0(self) -> (r: Self)
        ensures
            r.head() == (ResponseHeader { version: WarcVersion::V1_0, ..self.head() }),
            r.chosen() == self.chosen(),
    {
        let mut r = self;
        r.header.version = WarcVersion::V1_0;
        r
    }

    /// `WARC-Record-ID`: replace the generated identifier for this record.
    #[must_use]
    pub fn record_id(self, record_id: Uri) -> (r: Self)
        ensures
            r.head() == (
                ResponseHeader {
                    core: CoreHeaders { record_id, ..self.head().core },
                    ..self.head()
                }
            ),
            r.chosen() == self.chosen(),
    {
        let mut r = self;
        r.header.core.record_id = record_id;
        r
    }

    /// Add block and payload digests computed with the given algorithm.
    ///
    /// Digests use the algorithm's recommended label and encoding. Existing digests are preserved,
    /// and a header built without a block gets none.
    #[must_use]
    pub fn digests(self, algorithm: Supported) -> (r: Self)
        ensures
            r.head() == self.head(),
            r.chosen() == Some(algorithm),
    {
        let mut r = self;
        r.digests = Some(algorithm);
        r
    }

    /// `Content-Length`: declare the expected length of the content block.
    ///
    /// The declaration is checked against the block when one is attached, so it is
    /// [`body`](Self::body) that reports [`BlockError::ContentLengthMismatch`] when the block is of
    /// another length. Building only a header stores the declaration without checking it against a
    /// block.
    #[must_use]
    pub fn content_length(self, content_length: u64) -> (r: Self)
        ensures
            r.head() == (
                ResponseHeader {
                    core: CoreHeaders { content_length: Some(content_length), ..self.head().core },
                    ..self.head()
                }
            ),
            r.chosen() == self.chosen(),
    {
        let mut r = self;
        r.header.core.content_length = Some(content_length);
        r
    }

    /// `WARC-Block-Digest`: set a digest over the complete content block.
    ///
    /// The builder writes the provided digest but does not compute it.
    #[must_use]
    pub fn block_digest(self, digest: LabelledDigest) -> (r: Self)
        ensures
            r.head() == (
                ResponseHeader {
                    core: CoreHeaders { block_digest: Some(digest), ..self.head().core },
                    ..self.head()
                }
            ),
            r.chosen() == self.chosen(),
    {
        let mut r = self;
        r.header.core.block_digest = Some(digest);
        r
    }

    /// `Content-Type`: the media type of the record's block, which for an archived HTTP message is
    /// `application/http` rather than the type that message declares.
    ///
    /// This replaces the type the record type is built with.
    #[must_use]
    pub fn content_type(self, content_type: MediaType) -> (r: Self)
        ensures
            r.head() == (
                ResponseHeader {
                    core: CoreHeaders { content_type: Some(content_type), ..self.head().core },
                    ..self.head()
                }
            ),
            r.chosen() == self.chosen(),
    {
        let mut r = self;
        r.header.core.content_type = Some(content_type);
        r
    }

    /// `WARC-Truncated`: why the record's block holds less than what was captured.
    #[must_use]
    pub fn truncated(self, reason: TruncatedType<E::TruncatedReasons>) -> (r: Self)
        ensures
            r.head() == (
                ResponseHeader {
                    core: CoreHeaders { truncated: Some(reason), ..self.head().core },
                    ..self.head()
                }
            ),
            r.chosen() == self.chosen(),
    {
        let mut r = self;
        r.header.core.truncated = Some(reason);
        r
    }

    /// `WARC-Payload-Digest`: a digest over the record's payload, which need not be present in this
    /// record's block.
    #[must_use]
    pub fn payload_digest(self, digest: LabelledDigest) -> (r: Self)
        ensures
            r.head() == (
                ResponseHeader {
                    payload: PayloadHeaders { payload_digest: Some(digest), ..self.head().payload },
                    ..self.head()
                }
            ),
            r.chosen() == self.chosen(),
    {
        let mut r = self;
        r.header.payload.payload_digest = Some(digest);
        r
    }

    /// `WARC-Identified-Payload-Type`: the media type of the payload as determined by inspecting
    /// it, never by promoting a type declared inside the block.
    #[must_use]
    pub fn identified_payload_type(self, media_type: MediaType) -> (r: Self)
        ensures
            r.head() == (
                ResponseHeader {
                    payload: PayloadHeaders {
                        identified_payload_type: Some(media_type),
                        ..self.head().payload
                    },
                    ..self.head()
                }
            ),
            r.chosen() == self.chosen(),
    {
        let mut r = self;
        r.header.payload.identified_payload_type = Some(media_type);
        r
    }

    /// `WARC-Warcinfo-ID`: the `warcinfo` record describing this one, overriding whichever
    /// `warcinfo` record precedes it in the file.
    #[must_use]
    pub fn warcinfo_id(self, record_id: Uri) -> (r: Self)
        ensures
            r.head() == (ResponseHeader { warcinfo_id: Some(record_id), ..self.head() }),
            r.chosen() == self.chosen(),
    {
        let mut r = self;
        r.header.warcinfo_id = Some(record_id);
        r
    }

    /// `WARC-IP-Address`: the address the record's content was retrieved from.
    #[must_use]
    pub fn ip_address(self, ip_address: IpAddress) -> (r: Self)
        ensures
            r.head() == (ResponseHeader { ip_address: Some(ip_address), ..self.head() }),
            r.chosen() == self.chosen(),
    {
        let mut r = self;
        r.header.ip_address = Some(ip_address);
        r
    }

    /// `WARC-Concurrent-To`: another record produced by this record's capture event.
    ///
    /// Each call appends another value because this field may repeat.
    #[must_use]
    pub fn concurrent_to(self, record_id: Uri) -> (r: Self)
        ensures
            r.head().concurrent_to@ == self.head().concurrent_to@.push(record_id),
            r.head() == (ResponseHeader { concurrent_to: r.head().concurrent_to, ..self.head() }),
            r.chosen() == self.chosen(),
    {
        let mut r = self;
        r.header.concurrent_to.push(record_id);
        r
    }

    /// `WARC-Segment-Number` with the value `1`: mark this record as the first segment of a series
    /// continued by `continuation` records.
    ///
    /// It takes no value because `1` is the only value the standard permits the field on a record
    /// that is not itself a `continuation`.
    #[must_use]
    pub fn segment_origin(self) -> (r: Self)
        ensures
            r.head() == (ResponseHeader { segment_origin: true, ..self.head() }),
            r.chosen() == self.chosen(),
    {
        let mut r = self;
        r.header.segment_origin = true;
        r
    }

    /// Replace the extension fields for this record.
    #[must_use]
    pub fn extension(self, fields: E::ResponseFields) -> (r: Self)
        ensures
            r.head() == (ResponseHeader { other: fields, ..self.head() }),
            r.chosen() == self.chosen(),
    {
        let mut r = self;
        r.header.other = fields;
        r
    }
}

impl<E: Extension> ResponseBuilder<E> {
    /// Build the record header without a content block.
    #[must_use]
    pub fn build(self) -> (r: RecordHeader<E>)
        ensures
            r == RecordHeader::Response(self.head()),
    {
        RecordHeader::Response(self.header)
    }

    /// Build a record with the given content block.
    ///
    /// # Errors
    ///
    /// Returns [`BlockError::ContentLengthMismatch`] if the builder was told a `Content-Length`
    /// this block does not have. A `revisit` record under the identical payload digest profile that
    /// carries a block without declaring it truncated is refused when it is written.
    pub fn body(self, body: Vec<u8>) -> (r: Result<Record<E>, BlockError>)
        ensures
            is_built(r, RecordHeader::Response(self.head()), body@, self.chosen()),
    {
        let digests = self.digests;
        match RecordHeader::Response(self.header).with_body(body) {
            Ok(record) => Ok(add_digests(record, digests)),
            Err(error) => Err(error),
        }
    }
}

/// A builder for a `resource` record, which holds a resource without protocol information.
#[derive(Clone, Debug)]
pub struct ResourceBuilder<E: Extension = NoExtension> {
    header: ResourceHeader<E>,
    digests: Option<Supported>,
}

impl<E: Extension> ResourceBuilder<E> {
    /// The header that is built.
    pub closed spec fn head(&self) -> ResourceHeader<E> {
        self.header
    }

    /// The algorithm of the digests that are added.
    pub closed spec fn chosen(&self) -> Option<Supported> {
        self.digests
    }
}

impl<E: Extension> ResourceBuilder<E> where E::ResourceFields: Default {
    /// Whether the builder holds the mandatory fields of a `resource` record and no others.
    pub open spec fn is_new(
        self,
        version: WarcVersion,
        target_uri: Seq<char>,
        date: WarcDate,
    ) -> bool {
        &&& self.head().version == version
        &&& is_fresh(self.head().core, date, None)
        &&& self.head().payload.is_none()
        &&& self.head().target_uri@ == target_uri
        &&& self.head().warcinfo_id is None
        &&& self.head().ip_address is None
        &&& self.head().concurrent_to@.len() == 0
        &&& !self.head().segment_origin
        &&& call_ensures(E::ResourceFields::default, (), self.head().other)
        &&& self.chosen() is None
    }

    /// A builder for a `resource` record, given the fields the standard makes mandatory for one.
    ///
    /// # Errors
    ///
    /// Returns an error if the target URI is not a URI.
    pub fn new(target_uri: &str, date: WarcDate) -> (r: Result<Self, uri::Error>)
        ensures
            match r {
                Ok(builder) => is_uri(target_uri@) && builder.is_new(
                    WarcVersion::V1_1,
                    target_uri@,
                    date,
                ),
                Err(error) => uri_fault(target_uri@) == Some(error.0@),
            },
    {
        let target_uri = match Uri::parse(target_uri) {
            Ok(uri) => uri,
            Err(error) => {
                return Err(error);
            },
        };
        Ok(
            ResourceBuilder {
                header: ResourceHeader {
                    version: WarcVersion::V1_1,
                    core: core_headers(date, None),
                    payload: PayloadHeaders::none(),
                    target_uri,
                    warcinfo_id: None,
                    ip_address: None,
                    concurrent_to: Vec::new(),
                    segment_origin: false,
                    other: E::ResourceFields::default(),
                },
                digests: None,
            },
        )
    }
}

impl<E: Extension> ResourceBuilder<E> {
    /// Declare this record as WARC 1.0.
    #[must_use]
    pub(crate) fn into_v1_0(self) -> (r: Self)
        ensures
            r.head() == (ResourceHeader { version: WarcVersion::V1_0, ..self.head() }),
            r.chosen() == self.chosen(),
    {
        let mut r = self;
        r.header.version = WarcVersion::V1_0;
        r
    }

    /// `WARC-Record-ID`: replace the generated identifier for this record.
    #[must_use]
    pub fn record_id(self, record_id: Uri) -> (r: Self)
        ensures
            r.head() == (
                ResourceHeader {
                    core: CoreHeaders { record_id, ..self.head().core },
                    ..self.head()
                }
            ),
            r.chosen() == self.chosen(),
    {
        let mut r = self;
        r.header.core.record_id = record_id;
        r
    }

    /// Add block and payload digests computed with the given algorithm.
    ///
    /// Digests use the algorithm's recommended label and encoding. Existing digests are preserved,
    /// and a header built without a block gets none.
    #[must_use]
    pub fn digests(self, algorithm: Supported) -> (r: Self)
        ensures
            r.head() == self.head(),
            r.chosen() == Some(algorithm),
    {
        let mut r = self;
        r.digests = Some(algorithm);
        r
    }

    /// `Content-Length`: declare the expected length of the content block.
    ///
    /// The declaration is checked against the block when one is attached, so it is
    /// [`body`](Self::body) that reports [`BlockError::ContentLengthMismatch`] when the block is of
    /// another length. Building only a header stores the declaration without checking it against a
    /// block.
    #[must_use]
    pub fn content_length(self, content_length: u64) -> (r: Self)
        ensures
            r.head() == (
                ResourceHeader {
                    core: CoreHeaders { content_length: Some(content_length), ..self.head().core },
                    ..self.head()
                }
            ),
            r.chosen() == self.chosen(),
    {
        let mut r = self;
        r.header.core.content_length = Some(content_length);
        r
    }

    /// `WARC-Block-Digest`: set a digest over the complete content block.
    ///
    /// The builder writes the provided digest but does not compute it.
    #[must_use]
    pub fn block_digest(self, digest: LabelledDigest) -> (r: Self)
        ensures
            r.head() == (
                ResourceHeader {
                    core: CoreHeaders { block_digest: Some(digest), ..self.head().core },
                    ..self.head()
                }
            ),
            r.chosen() == self.chosen(),
    {
        let mut r = self;
        r.header.core.block_digest = Some(digest);
        r
    }

    /// `Content-Type`: the media type of the record's block, which for an archived HTTP message is
    /// `application/http` rather than the type that message declares.
    ///
    /// This replaces the type the record type is built with.
    #[must_use]
    pub fn content_type(self, content_type: MediaType) -> (r: Self)
        ensures
            r.head() == (
                ResourceHeader {
                    core: CoreHeaders { content_type: Some(content_type), ..self.head().core },
                    ..self.head()
                }
            ),
            r.chosen() == self.chosen(),
    {
        let mut r = self;
        r.header.core.content_type = Some(content_type);
        r
    }

    /// `WARC-Truncated`: why the record's block holds less than what was captured.
    #[must_use]
    pub fn truncated(self, reason: TruncatedType<E::TruncatedReasons>) -> (r: Self)
        ensures
            r.head() == (
                ResourceHeader {
                    core: CoreHeaders { truncated: Some(reason), ..self.head().core },
                    ..self.head()
                }
            ),
            r.chosen() == self.chosen(),
    {
        let mut r = self;
        r.header.core.truncated = Some(reason);
        r
    }

    /// `WARC-Payload-Digest`: a digest over the record's payload, which need not be present in this
    /// record's block.
    #[must_use]
    pub fn payload_digest(self, digest: LabelledDigest) -> (r: Self)
        ensures
            r.head() == (
                ResourceHeader {
                    payload: PayloadHeaders { payload_digest: Some(digest), ..self.head().payload },
                    ..self.head()
                }
            ),
            r.chosen() == self.chosen(),
    {
        let mut r = self;
        r.header.payload.payload_digest = Some(digest);
        r
    }

    /// `WARC-Identified-Payload-Type`: the media type of the payload as determined by inspecting
    /// it, never by promoting a type declared inside the block.
    #[must_use]
    pub fn identified_payload_type(self, media_type: MediaType) -> (r: Self)
        ensures
            r.head() == (
                ResourceHeader {
                    payload: PayloadHeaders {
                        identified_payload_type: Some(media_type),
                        ..self.head().payload
                    },
                    ..self.head()
                }
            ),
            r.chosen() == self.chosen(),
    {
        let mut r = self;
        r.header.payload.identified_payload_type = Some(media_type);
        r
    }

    /// `WARC-Warcinfo-ID`: the `warcinfo` record describing this one, overriding whichever
    /// `warcinfo` record precedes it in the file.
    #[must_use]
    pub fn warcinfo_id(self, record_id: Uri) -> (r: Self)
        ensures
            r.head() == (ResourceHeader { warcinfo_id: Some(record_id), ..self.head() }),
            r.chosen() == self.chosen(),
    {
        let mut r = self;
        r.header.warcinfo_id = Some(record_id);
        r
    }

    /// `WARC-IP-Address`: the address the record's content was retrieved from.
    #[must_use]
    pub fn ip_address(self, ip_address: IpAddress) -> (r: Self)
        ensures
            r.head() == (ResourceHeader { ip_address: Some(ip_address), ..self.head() }),
            r.chosen() == self.chosen(),
    {
        let mut r = self;
        r.header.ip_address = Some(ip_address);
        r
    }

    /// `WARC-Concurrent-To`: another record produced by this record's capture event.
    ///
    /// Each call appends another value because this field may repeat.
    #[must_use]
    pub fn concurrent_to(self, record_id: Uri) -> (r: Self)
        ensures
            r.head().concurrent_to@ == self.head().concurrent_to@.push(record_id),
            r.head() == (ResourceHeader { concurrent_to: r.head().concurrent_to, ..self.head() }),
            r.chosen() == self.chosen(),
    {
        let mut r = self;
        r.header.concurrent_to.push(record_id);
        r
    }

    /// `WARC-Segment-Number` with the value `1`: mark this record as the first segment of a series
    /// continued by `continuation` records.
    ///
    /// It takes no value because `1` is the only value the standard permits the field on a record
    /// that is not itself a `continuation`.
    #[must_use]
    pub fn segment_origin(self) -> (r: Self)
        ensures
            r.head() == (ResourceHeader { segment_origin: true, ..self.head() }),
            r.chosen() == self.chosen(),
    {
        let mut r = self;
        r.header.segment_origin = true;
        r
    }

    /// Replace the extension fields for this record.
    #[must_use]
    pub fn extension(self, fields: E::ResourceFields) -> (r: Self)
        ensures
            r.head() == (ResourceHeader { other: fields, ..self.head() }),
            r.chosen() == self.chosen(),
    {
        let mut r = self;
        r.header.other = fields;
        r
    }
}

impl<E: Extension> ResourceBuilder<E> {
    /// Build the record header without a content block.
    #[must_use]
    pub fn build(self) -> (r: RecordHeader<E>)
        ensures
            r == RecordHeader::Resource(self.head()),
    {
        RecordHeader::Resource(self.header)
    }

    /// Build a record with the given content block.
    ///
    /// # Errors
    ///
    /// Returns [`BlockError::ContentLengthMismatch`] if the builder was told a `Content-Length`
    /// this block does not have. A `revisit` record under the identical payload digest profile that
    /// carries a block without declaring it truncated is refused when it is written.
    pub fn body(self, body: Vec<u8>) -> (r: Result<Record<E>, BlockError>)
        ensures
            is_built(r, RecordHeader::Resource(self.head()), body@, self.chosen()),
    {
        let digests = self.digests;
        match RecordHeader::Resource(self.header).with_body(body) {
            Ok(record) => Ok(add_digests(record, digests)),
            Err(error) => Err(error),
        }
    }
}

/// A builder for a `request` record, which holds a complete scheme-specific request.
#[derive(Clone, Debug)]
pub struct RequestBuilder<E: Extension = NoExtension> {
    header: RequestHeader<E>,
    digests: Option<Supported>,
}

impl<E: Extension> RequestBuilder<E> {
    /// The header that is built.
    pub closed spec fn head(&self) -> RequestHeader<E> {
        self.header
    }

    /// The algorithm of the digests that are added.
    pub closed spec fn chosen(&self) -> Option<Supported> {
        self.digests
    }
}

impl<E: Extension> RequestBuilder<E> where E::RequestFields: Default {
    /// Whether the builder holds the mandatory fields of a `request` record and no others.
    pub open spec fn is_new(
        self,
        version: WarcVersion,
        target_uri: Seq<char>,
        date: WarcDate,
    ) -> bool {
        &&& self.head().version == version
        &&& is_fresh(
            self.head().core,
            date,
            Some(media_with("application"@, "http"@, "msgtype"@, "request"@)),
        )
        &&& self.head().payload.is_none()
        &&& self.head().target_uri@ == target_uri
        &&& self.head().warcinfo_id is None
        &&& self.head().ip_address is None
        &&& self.head().concurrent_to@.len() == 0
        &&& !self.head().segment_origin
        &&& call_ensures(E::RequestFields::default, (), self.head().other)
        &&& self.chosen() is None
    }

    /// A builder for a `request` record, given the fields the standard makes mandatory for one.
    ///
    /// # Errors
    ///
    /// Returns an error if the target URI is not a URI.
    pub fn new(target_uri: &str, date: WarcDate) -> (r: Result<Self, uri::Error>)
        ensures
            match r {
                Ok(builder) => is_uri(target_uri@) && builder.is_new(
                    WarcVersion::V1_1,
                    target_uri@,
                    date,
                ),
                Err(error) => uri_fault(target_uri@) == Some(error.0@),
            },
    {
        let target_uri = match Uri::parse(target_uri) {
            Ok(uri) => uri,
            Err(error) => {
                return Err(error);
            },
        };
        Ok(
            RequestBuilder {
                header: RequestHeader {
                    version: WarcVersion::V1_1,
                    core: core_headers(date, Some(MediaType::http_request())),
                    payload: PayloadHeaders::none(),
                    target_uri,
                    warcinfo_id: None,
                    ip_address: None,
                    concurrent_to: Vec::new(),
                    segment_origin: false,
                    other: E::RequestFields::default(),
                },
                digests: None,
            },
        )
    }
}

impl<E: Extension> RequestBuilder<E> {
    /// Declare this record as WARC 1.0.
    #[must_use]
    pub(crate) fn into_v1_0(self) -> (r: Self)
        ensures
            r.head() == (RequestHeader { version: WarcVersion::V1_0, ..self.head() }),
            r.chosen() == self.chosen(),
    {
        let mut r = self;
        r.header.version = WarcVersion::V1_0;
        r
    }

    /// `WARC-Record-ID`: replace the generated identifier for this record.
    #[must_use]
    pub fn record_id(self, record_id: Uri) -> (r: Self)
        ensures
            r.head() == (
                RequestHeader { core: CoreHeaders { record_id, ..self.head().core }, ..self.head() }
            ),
            r.chosen() == self.chosen(),
    {
        let mut r = self;
        r.header.core.record_id = record_id;
        r
    }

    /// Add block and payload digests computed with the given algorithm.
    ///
    /// Digests use the algorithm's recommended label and encoding. Existing digests are preserved,
    /// and a header built without a block gets none.
    #[must_use]
    pub fn digests(self, algorithm: Supported) -> (r: Self)
        ensures
            r.head() == self.head(),
            r.chosen() == Some(algorithm),
    {
        let mut r = self;
        r.digests = Some(algorithm);
        r
    }

    /// `Content-Length`: declare the expected length of the content block.
    ///
    /// The declaration is checked against the block when one is attached, so it is
    /// [`body`](Self::body) that reports [`BlockError::ContentLengthMismatch`] when the block is of
    /// another length. Building only a header stores the declaration without checking it against a
    /// block.
    #[must_use]
    pub fn content_length(self, content_length: u64) -> (r: Self)
        ensures
            r.head() == (
                RequestHeader {
                    core: CoreHeaders { content_length: Some(content_length), ..self.head().core },
                    ..self.head()
                }
            ),
            r.chosen() == self.chosen(),
    {
        let mut r = self;
        r.header.core.content_length = Some(content_length);
        r
    }

    /// `WARC-Block-Digest`: set a digest over the complete content block.
    ///
    /// The builder writes the provided digest but does not compute it.
    #[must_use]
    pub fn block_digest(self, digest: LabelledDigest) -> (r: Self)
        ensures
            r.head() == (
                RequestHeader {
                    core: CoreHeaders { block_digest: Some(digest), ..self.head().core },
                    ..self.head()
                }
            ),
            r.chosen() == self.chosen(),
    {
        let mut r = self;
        r.header.core.block_digest = Some(digest);
        r
    }

    /// `Content-Type`: the media type of the record's block, which for an archived HTTP message is
    /// `application/http` rather than the type that message declares.
    ///
    /// This replaces the type the record type is built with.
    #[must_use]
    pub fn content_type(self, content_type: MediaType) -> (r: Self)
        ensures
            r.head() == (
                RequestHeader {
                    core: CoreHeaders { content_type: Some(content_type), ..self.head().core },
                    ..self.head()
                }
            ),
            r.chosen() == self.chosen(),
    {
        let mut r = self;
        r.header.core.content_type = Some(content_type);
        r
    }

    /// `WARC-Truncated`: why the record's block holds less than what was captured.
    #[must_use]
    pub fn truncated(self, reason: TruncatedType<E::TruncatedReasons>) -> (r: Self)
        ensures
            r.head() == (
                RequestHeader {
                    core: CoreHeaders { truncated: Some(reason), ..self.head().core },
                    ..self.head()
                }
            ),
            r.chosen() == self.chosen(),
    {
        let mut r = self;
        r.header.core.truncated = Some(reason);
        r
    }

    /// `WARC-Payload-Digest`: a digest over the record's payload, which need not be present in this
    /// record's block.
    #[must_use]
    pub fn payload_digest(self, digest: LabelledDigest) -> (r: Self)
        ensures
            r.head() == (
                RequestHeader {
                    payload: PayloadHeaders { payload_digest: Some(digest), ..self.head().payload },
                    ..self.head()
                }
            ),
            r.chosen() == self.chosen(),
    {
        let mut r = self;
        r.header.payload.payload_digest = Some(digest);
        r
    }

    /// `WARC-Identified-Payload-Type`: the media type of the payload as determined by inspecting
    /// it, never by promoting a type declared inside the block.
    #[must_use]
    pub fn identified_payload_type(self, media_type: MediaType) -> (r: Self)
        ensures
            r.head() == (
                RequestHeader {
                    payload: PayloadHeaders {
                        identified_payload_type: Some(media_type),
                        ..self.head().payload
                    },
                    ..self.head()
                }
            ),
            r.chosen() == self.chosen(),
    {
        let mut r = self;
        r.header.payload.identified_payload_type = Some(media_type);
        r
    }

    /// `WARC-Warcinfo-ID`: the `warcinfo` record describing this one, overriding whichever
    /// `warcinfo` record precedes it in the file.
    #[must_use]
    pub fn warcinfo_id(self, record_id: Uri) -> (r: Self)
        ensures
            r.head() == (RequestHeader { warcinfo_id: Some(record_id), ..self.head() }),
            r.chosen() == self.chosen(),
    {
        let mut r = self;
        r.header.warcinfo_id = Some(record_id);
        r
    }

    /// `WARC-IP-Address`: the address the record's content was retrieved from.
    #[must_use]
    pub fn ip_address(self, ip_address: IpAddress) -> (r: Self)
        ensures
            r.head() == (RequestHeader { ip_address: Some(ip_address), ..self.head() }),
            r.chosen() == self.chosen(),
    {
        let mut r = self;
        r.header.ip_address = Some(ip_address);
        r
    }

    /// `WARC-Concurrent-To`: another record produced by this record's capture event.
    ///
    /// Each call appends another value because this field may repeat.
    #[must_use]
    pub fn concurrent_to(self, record_id: Uri) -> (r: Self)
        ensures
            r.head().concurrent_to@ == self.head().concurrent_to@.push(record_id),
            r.head() == (RequestHeader { concurrent_to: r.head().concurrent_to, ..self.head() }),
            r.chosen() == self.chosen(),
    {
        let mut r = self;
        r.header.concurrent_to.push(record_id);
        r
    }

    /// `WARC-Segment-Number` with the value `1`: mark this record as the first segment of a series
    /// continued by `continuation` records.
    ///
    /// It takes no value because `1` is the only value the standard permits the field on a record
    /// that is not itself a `continuation`.
    #[must_use]
    pub fn segment_origin(self) -> (r: Self)
        ensures
            r.head() == (RequestHeader { segment_origin: true, ..self.head() }),
            r.chosen() == self.chosen(),
    {
        let mut r = self;
        r.header.segment_origin = true;
        r
    }

    /// Replace the extension fields for this record.
    #[must_use]
    pub fn extension(self, fields: E::RequestFields) -> (r: Self)
        ensures
            r.head() == (RequestHeader { other: fields, ..self.head() }),
            r.chosen() == self.chosen(),
    {
        let mut r = self;
        r.header.other = fields;
        r
    }
}

impl<E: Extension> RequestBuilder<E> {
    /// Build the record header without a content block.
    #[must_use]
    pub fn build(self) -> (r: RecordHeader<E>)
        ensures
            r == RecordHeader::Request(self.head()),
    {
        RecordHeader::Request(self.header)
    }

    /// Build a record with the given content block.
    ///
    /// # Errors
    ///
    /// Returns [`BlockError::ContentLengthMismatch`] if the builder was told a `Content-Length`
    /// this block does not have. A `revisit` record under the identical payload digest profile that
    /// carries a block without declaring it truncated is refused when it is written.
    pub fn body(self, body: Vec<u8>) -> (r: Result<Record<E>, BlockError>)
        ensures
            is_built(r, RecordHeader::Request(self.head()), body@, self.chosen()),
    {
        let digests = self.digests;
        match RecordHeader::Request(self.header).with_body(body) {
            Ok(record) => Ok(add_digests(record, digests)),
            Err(error) => Err(error),
        }
    }
}

/// A builder for a `metadata` record, which describes another record.
///
/// The setters here write the record's `warc-fields` body, which starts empty.
#[derive(Clone, Debug)]
pub struct MetadataBuilder<E: Extension = NoExtension> {
    header: MetadataHeader<E>,
    body: MetadataBody,
    digests: Option<Supported>,
}

impl<E: Extension> MetadataBuilder<E> {
    /// The header that is built.
    pub closed spec fn head(&self) -> MetadataHeader<E> {
        self.header
    }

    /// The body that is built.
    pub closed spec fn fields(&self) -> MetadataBody {
        self.body
    }

    /// The algorithm of the digests that are added.
    pub closed spec fn chosen(&self) -> Option<Supported> {
        self.digests
    }
}

impl<E: Extension> MetadataBuilder<E> where E::MetadataFields: Default {
    /// Whether the builder holds the mandatory fields of a `metadata` record and no others.
    pub open spec fn is_new(self, version: WarcVersion, date: WarcDate) -> bool {
        &&& self.head().version == version
        &&& is_fresh(self.head().core, date, Some(plain_media("application"@, "warc-fields"@)))
        &&& self.head().target_uri is None
        &&& self.head().warcinfo_id is None
        &&& self.head().ip_address is None
        &&& self.head().concurrent_to@.len() == 0
        &&& self.head().refers_to is None
        &&& !self.head().segment_origin
        &&& call_ensures(E::MetadataFields::default, (), self.head().other)
        &&& self.fields()@.fields.len() == 0
        &&& self.fields()@.source is None
        &&& self.chosen() is None
    }

    /// Create a `metadata` builder with its required fields.
    #[must_use]
    pub fn new(date: WarcDate) -> (r: Self)
        ensures
            r.is_new(WarcVersion::V1_1, date),
    {
        MetadataBuilder {
            header: MetadataHeader {
                version: WarcVersion::V1_1,
                core: core_headers(date, Some(MediaType::warc_fields())),
                target_uri: None,
                warcinfo_id: None,
                ip_address: None,
                concurrent_to: Vec::new(),
                refers_to: None,
                segment_origin: false,
                other: E::MetadataFields::default(),
            },
            body: MetadataBody::new(),
            digests: None,
        }
    }
}

impl<E: Extension> MetadataBuilder<E> {
    /// Declare this record as WARC 1.0.
    #[must_use]
    pub(crate) fn into_v1_0(self) -> (r: Self)
        ensures
            r.head() == (MetadataHeader { version: WarcVersion::V1_0, ..self.head() }),
            r.chosen() == self.chosen(),
            r.fields() == self.fields(),
    {
        let mut r = self;
        r.header.version = WarcVersion::V1_0;
        r
    }

    /// `WARC-Record-ID`: replace the generated identifier for this record.
    #[must_use]
    pub fn record_id(self, record_id: Uri) -> (r: Self)
        ensures
            r.head() == (
                MetadataHeader {
                    core: CoreHeaders { record_id, ..self.head().core },
                    ..self.head()
                }
            ),
            r.chosen() == self.chosen(),
            r.fields() == self.fields(),
    {
        let mut r = self;
        r.header.core.record_id = record_id;
        r
    }

    /// Add block and payload digests computed with the given algorithm.
    ///
    /// Digests use the algorithm's recommended label and encoding. Existing digests are preserved,
    /// and a header built without a block gets none.
    #[must_use]
    pub fn digests(self, algorithm: Supported) -> (r: Self)
        ensures
            r.head() == self.head(),
            r.chosen() == Some(algorithm),
            r.fields() == self.fields(),
    {
        let mut r = self;
        r.digests = Some(algorithm);
        r
    }

    /// `WARC-Target-URI`: a copy of the target URI of the record this one describes.
    #[must_use]
    pub fn target_uri(self, target_uri: Uri) -> (r: Self)
        ensures
            r.head() == (MetadataHeader { target_uri: Some(target_uri), ..self.head() }),
            r.chosen() == self.chosen(),
            r.fields() == self.fields(),
    {
        let mut r = self;
        r.header.target_uri = Some(target_uri);
        r
    }

    /// `WARC-Warcinfo-ID`: the `warcinfo` record describing this one, overriding whichever
    /// `warcinfo` record precedes it in the file.
    #[must_use]
    pub fn warcinfo_id(self, record_id: Uri) -> (r: Self)
        ensures
            r.head() == (MetadataHeader { warcinfo_id: Some(record_id), ..self.head() }),
            r.chosen() == self.chosen(),
            r.fields() == self.fields(),
    {
        let mut r = self;
        r.header.warcinfo_id = Some(record_id);
        r
    }

    /// `WARC-IP-Address`: the address the record's content was retrieved from.
    #[must_use]
    pub fn ip_address(self, ip_address: IpAddress) -> (r: Self)
        ensures
            r.head() == (MetadataHeader { ip_address: Some(ip_address), ..self.head() }),
            r.chosen() == self.chosen(),
            r.fields() == self.fields(),
    {
        let mut r = self;
        r.header.ip_address = Some(ip_address);
        r
    }

    /// `WARC-Concurrent-To`: another record produced by this record's capture event.
    ///
    /// Each call appends another value because this field may repeat.
    #[must_use]
    pub fn concurrent_to(self, record_id: Uri) -> (r: Self)
        ensures
            r.head().concurrent_to@ == self.head().concurrent_to@.push(record_id),
            r.head() == (MetadataHeader { concurrent_to: r.head().concurrent_to, ..self.head() }),
            r.chosen() == self.chosen(),
            r.fields() == self.fields(),
    {
        let mut r = self;
        r.header.concurrent_to.push(record_id);
        r
    }

    /// `WARC-Refers-To`: the record this one describes or was derived from.
    #[must_use]
    pub fn refers_to(self, record_id: Uri) -> (r: Self)
        ensures
            r.head() == (MetadataHeader { refers_to: Some(record_id), ..self.head() }),
            r.chosen() == self.chosen(),
            r.fields() == self.fields(),
    {
        let mut r = self;
        r.header.refers_to = Some(record_id);
        r
    }

    /// Replace the extension fields for this record.
    #[must_use]
    pub fn extension(self, fields: E::MetadataFields) -> (r: Self)
        ensures
            r.head() == (MetadataHeader { other: fields, ..self.head() }),
            r.chosen() == self.chosen(),
            r.fields() == self.fields(),
    {
        let mut r = self;
        r.header.other = fields;
        r
    }

    /// Whether the builder gives a field one value, and is otherwise the same as another.
    pub open spec fn sets(self, before: Self, field: metadata::Named, value: Seq<char>) -> bool {
        &&& self.fields()@.fields == replaced(before.fields()@.fields, field, value)
        &&& self.fields()@.source is None
        &&& self.head() == before.head()
        &&& self.chosen() == before.chosen()
    }

    /// Write a field the setters here do not name, such as one outside the vocabulary the standard
    /// fixes for this record type.
    ///
    /// Each call appends a value. The named setters replace their field's existing value.
    ///
    /// # Errors
    ///
    /// Returns [`fields::Error::UnwritableField`] if the name is not a token or the value holds a
    /// control character, neither of which a field line can be written from.
    pub fn field(self, field: MetadataField, value: &str) -> (r: Result<Self, fields::Error>)
        ensures
            match r {
                Ok(r) => {
                    &&& unwritable::<MetadataField>(field@, value@) is None
                    &&& r.fields()@.fields == self.fields()@.fields.push((field@, value@))
                    &&& r.fields()@.source is None
                    &&& r.head() == self.head()
                    &&& r.chosen() == self.chosen()
                },
                Err(error) => unwritable::<MetadataField>(field@, value@) == Some(error@),
            },
    {
        let mut r = self;
        match r.body.push(field, value) {
            Ok(_) => Ok(r),
            Err(error) => Err(error),
        }
    }

    /// `via`: the referring URI from which the archived URI was discovered.
    ///
    /// This replaces any value the field already carries.
    ///
    /// # Errors
    ///
    /// Returns [`fields::Error::UnwritableField`] if the value holds a control character, which the
    /// `TEXT` rule a field value is written under does not admit.
    pub fn via(self, value: &str) -> (r: Result<Self, fields::Error>)
        ensures
            match r {
                Ok(r) => unwritable::<MetadataField>(metadata::Named::Via, value@) is None
                    && r.sets(
                    self,
                    metadata::Named::Via,
                    value@,
                ),
                Err(error) => unwritable::<MetadataField>(
                    metadata::Named::Via,
                    value@,
                ) == Some(error@),
            },
    {
        let mut r = self;
        match r.body.set(MetadataField::Via, value) {
            Ok(_) => Ok(r),
            Err(error) => Err(error),
        }
    }

    /// `hopsFromSeed`: the type of each hop from a starting seed URI to the archived one, which is
    /// the empty path for a seed itself.
    ///
    /// This replaces any value the field already carries. The standard fixes no alphabet for the
    /// value, so a path spelled outside the one [`Hop`](metadata::Hop) recommends is written through
    /// [`field`](Self::field).
    #[must_use]
    pub fn hops_from_seed(self, hops: &HopsFromSeed) -> (r: Self)
        ensures
            r.sets(self, metadata::Named::HopsFromSeed, hop_letters(hops.hops@)),
    {
        let mut r = self;
        let value = hops.to_string();
        proof {
            lemma_names_are_tokens();
            assert forall|i: int| 0 <= i < value@.len() implies 0x20 <= ((
            #[trigger] value@[i]) as int) < 0x7f by {
                assert(value@[i] == hop_letter(hops.hops@[i]));
            }
            lemma_plain_text(value@);
        }
        set_rendered(&mut r.body, MetadataField::HopsFromSeed, value.as_str());
        r
    }

    /// `fetchTimeMs`: the time from initiating network traffic to completing the capture, in whole
    /// milliseconds.
    ///
    /// This replaces any existing value.
    #[must_use]
    pub fn fetch_time_ms(self, milliseconds: u128) -> (r: Self)
        ensures
            r.sets(self, metadata::Named::FetchTimeMs, decimal_text(milliseconds as nat)),
    {
        let mut r = self;
        let value = wide_decimal_string(milliseconds);
        proof {
            lemma_names_are_tokens();
            let n = milliseconds as nat;
            lemma_decimal(n);
            assert forall|i: int| 0 <= i < value@.len() implies 0x20 <= ((
            #[trigger] value@[i]) as int) < 0x7f by {
                assert(is_digit(decimal(n)[i]));
            }
            lemma_plain_text(value@);
        }
        set_rendered(&mut r.body, MetadataField::FetchTimeMs, value.as_str());
        r
    }
}

impl<E: Extension> MetadataBuilder<E> {
    /// Build the record from the fields the builder was told.
    ///
    /// A block these fields cannot express is written by constructing the record directly.
    #[must_use]
    pub fn build(self) -> (r: Record<E>)
        ensures
            is_digested(
                Record::Metadata {
                    header: MetadataHeader {
                        core: with_length(
                            self.head().core,
                            block_octets(FieldsBlock::Fields(self.fields())).len() as u64,
                        ),
                        ..self.head()
                    },
                    body: FieldsBlock::Fields(self.fields()),
                },
                r,
                self.chosen(),
            ),
    {
        let digests = self.digests;
        let body = self.body;
        let mut header = self.header;
        // A block is held in memory, so its length is a `usize` that fits a `u64` on every platform
        // this crate builds for.
        header.core.content_length = Some(body.rendered_len() as u64);
        let record = Record::Metadata { header, body: FieldsBlock::Fields(body) };
        add_digests(record, digests)
    }
}

/// A builder for a `revisit` record, which stands in for content already archived.
///
/// [`v1_0::RevisitBuilder`] is the same builder for a WARC 1.0 record.
#[derive(Clone, Debug)]
pub struct RevisitBuilder<E: Extension = NoExtension> {
    header: RevisitHeader<E>,
    digests: Option<Supported>,
}

impl<E: Extension> RevisitBuilder<E> {
    /// The header that is built.
    pub closed spec fn head(&self) -> RevisitHeader<E> {
        self.header
    }

    /// The algorithm of the digests that are added.
    pub closed spec fn chosen(&self) -> Option<Supported> {
        self.digests
    }
}

impl<E: Extension> RevisitBuilder<E> where E::RevisitFields: Default {
    /// Whether the builder holds the mandatory fields of a `revisit` record and no others.
    pub open spec fn is_new(
        self,
        target_uri: Seq<char>,
        date: WarcDate,
        profile: RevisitProfile,
    ) -> bool {
        &&& self.head().version == WarcVersion::V1_1
        &&& is_fresh(self.head().core, date, None)
        &&& self.head().payload.is_none()
        &&& self.head().target_uri@ == target_uri
        &&& self.head().warcinfo_id is None
        &&& self.head().profile == profile
        &&& self.head().ip_address is None
        &&& self.head().concurrent_to@.len() == 0
        &&& self.head().refers_to is None
        &&& self.head().refers_to_target_uri is None
        &&& self.head().refers_to_date is None
        &&& !self.head().segment_origin
        &&& call_ensures(E::RevisitFields::default, (), self.head().other)
        &&& self.chosen() is None
    }

    /// Create a WARC 1.1 `revisit` builder with its required fields.
    ///
    /// The profile describes how the record should be interpreted. The version its URI names may
    /// differ from the version declared by the record.
    ///
    /// # Errors
    ///
    /// Returns an error if the target URI is not a URI.
    pub fn new(target_uri: &str, date: WarcDate, profile: RevisitProfile) -> (r: Result<
        Self,
        uri::Error,
    >)
        ensures
            match r {
                Ok(builder) => is_uri(target_uri@) && builder.is_new(target_uri@, date, profile),
                Err(error) => uri_fault(target_uri@) == Some(error.0@),
            },
    {
        let target_uri = match Uri::parse(target_uri) {
            Ok(uri) => uri,
            Err(error) => {
                return Err(error);
            },
        };
        Ok(
            RevisitBuilder {
                header: RevisitHeader {
                    version: WarcVersion::V1_1,
                    core: core_headers(date, None),
                    payload: PayloadHeaders::none(),
                    target_uri,
                    warcinfo_id: None,
                    profile,
                    ip_address: None,
                    concurrent_to: Vec::new(),
                    refers_to: None,
                    refers_to_target_uri: None,
                    refers_to_date: None,
                    segment_origin: false,
                    other: E::RevisitFields::default(),
                },
                digests: None,
            },
        )
    }
}

impl<E: Extension> RevisitBuilder<E> {
    /// `WARC-Record-ID`: replace the generated identifier for this record.
    #[must_use]
    pub fn record_id(self, record_id: Uri) -> (r: Self)
        ensures
            r.head() == (
                RevisitHeader { core: CoreHeaders { record_id, ..self.head().core }, ..self.head() }
            ),
            r.chosen() == self.chosen(),
    {
        let mut r = self;
        r.header.core.record_id = record_id;
        r
    }

    /// Add block and payload digests computed with the given algorithm.
    ///
    /// Digests use the algorithm's recommended label and encoding. Existing digests are preserved,
    /// and a header built without a block gets none.
    #[must_use]
    pub fn digests(self, algorithm: Supported) -> (r: Self)
        ensures
            r.head() == self.head(),
            r.chosen() == Some(algorithm),
    {
        let mut r = self;
        r.digests = Some(algorithm);
        r
    }

    /// `Content-Length`: declare the expected length of the content block.
    ///
    /// The declaration is checked against the block when one is attached, so it is
    /// [`body`](Self::body) that reports [`BlockError::ContentLengthMismatch`] when the block is of
    /// another length. Building only a header stores the declaration without checking it against a
    /// block.
    #[must_use]
    pub fn content_length(self, content_length: u64) -> (r: Self)
        ensures
            r.head() == (
                RevisitHeader {
                    core: CoreHeaders { content_length: Some(content_length), ..self.head().core },
                    ..self.head()
                }
            ),
            r.chosen() == self.chosen(),
    {
        let mut r = self;
        r.header.core.content_length = Some(content_length);
        r
    }

    /// `WARC-Block-Digest`: set a digest over the complete content block.
    ///
    /// The builder writes the provided digest but does not compute it.
    #[must_use]
    pub fn block_digest(self, digest: LabelledDigest) -> (r: Self)
        ensures
            r.head() == (
                RevisitHeader {
                    core: CoreHeaders { block_digest: Some(digest), ..self.head().core },
                    ..self.head()
                }
            ),
            r.chosen() == self.chosen(),
    {
        let mut r = self;
        r.header.core.block_digest = Some(digest);
        r
    }

    /// `Content-Type`: the media type of the record's block, which for an archived HTTP message is
    /// `application/http` rather than the type that message declares.
    ///
    /// This replaces the type the record type is built with.
    #[must_use]
    pub fn content_type(self, content_type: MediaType) -> (r: Self)
        ensures
            r.head() == (
                RevisitHeader {
                    core: CoreHeaders { content_type: Some(content_type), ..self.head().core },
                    ..self.head()
                }
            ),
            r.chosen() == self.chosen(),
    {
        let mut r = self;
        r.header.core.content_type = Some(content_type);
        r
    }

    /// `WARC-Truncated`: why the record's block holds less than what was captured.
    #[must_use]
    pub fn truncated(self, reason: TruncatedType<E::TruncatedReasons>) -> (r: Self)
        ensures
            r.head() == (
                RevisitHeader {
                    core: CoreHeaders { truncated: Some(reason), ..self.head().core },
                    ..self.head()
                }
            ),
            r.chosen() == self.chosen(),
    {
        let mut r = self;
        r.header.core.truncated = Some(reason);
        r
    }

    /// `WARC-Payload-Digest`: a digest over the record's payload, which need not be present in this
    /// record's block.
    #[must_use]
    pub fn payload_digest(self, digest: LabelledDigest) -> (r: Self)
        ensures
            r.head() == (
                RevisitHeader {
                    payload: PayloadHeaders { payload_digest: Some(digest), ..self.head().payload },
                    ..self.head()
                }
            ),
            r.chosen() == self.chosen(),
    {
        let mut r = self;
        r.header.payload.payload_digest = Some(digest);
        r
    }

    /// `WARC-Identified-Payload-Type`: the media type of the payload as determined by inspecting
    /// it, never by promoting a type declared inside the block.
    #[must_use]
    pub fn identified_payload_type(self, media_type: MediaType) -> (r: Self)
        ensures
            r.head() == (
                RevisitHeader {
                    payload: PayloadHeaders {
                        identified_payload_type: Some(media_type),
                        ..self.head().payload
                    },
                    ..self.head()
                }
            ),
            r.chosen() == self.chosen(),
    {
        let mut r = self;
        r.header.payload.identified_payload_type = Some(media_type);
        r
    }

    /// `WARC-Warcinfo-ID`: the `warcinfo` record describing this one, overriding whichever
    /// `warcinfo` record precedes it in the file.
    #[must_use]
    pub fn warcinfo_id(self, record_id: Uri) -> (r: Self)
        ensures
            r.head() == (RevisitHeader { warcinfo_id: Some(record_id), ..self.head() }),
            r.chosen() == self.chosen(),
    {
        let mut r = self;
        r.header.warcinfo_id = Some(record_id);
        r
    }

    /// `WARC-IP-Address`: the address the record's content was retrieved from.
    #[must_use]
    pub fn ip_address(self, ip_address: IpAddress) -> (r: Self)
        ensures
            r.head() == (RevisitHeader { ip_address: Some(ip_address), ..self.head() }),
            r.chosen() == self.chosen(),
    {
        let mut r = self;
        r.header.ip_address = Some(ip_address);
        r
    }

    /// `WARC-Concurrent-To`: another record produced by this record's capture event.
    ///
    /// Each call appends another value because this field may repeat.
    #[must_use]
    pub fn concurrent_to(self, record_id: Uri) -> (r: Self)
        ensures
            r.head().concurrent_to@ == self.head().concurrent_to@.push(record_id),
            r.head() == (RevisitHeader { concurrent_to: r.head().concurrent_to, ..self.head() }),
            r.chosen() == self.chosen(),
    {
        let mut r = self;
        r.header.concurrent_to.push(record_id);
        r
    }

    /// `WARC-Refers-To`: the record this one describes or was derived from.
    #[must_use]
    pub fn refers_to(self, record_id: Uri) -> (r: Self)
        ensures
            r.head() == (RevisitHeader { refers_to: Some(record_id), ..self.head() }),
            r.chosen() == self.chosen(),
    {
        let mut r = self;
        r.header.refers_to = Some(record_id);
        r
    }

    /// `WARC-Segment-Number` with the value `1`: mark this record as the first segment of a series
    /// continued by `continuation` records.
    ///
    /// It takes no value because `1` is the only value the standard permits the field on a record
    /// that is not itself a `continuation`.
    #[must_use]
    pub fn segment_origin(self) -> (r: Self)
        ensures
            r.head() == (RevisitHeader { segment_origin: true, ..self.head() }),
            r.chosen() == self.chosen(),
    {
        let mut r = self;
        r.header.segment_origin = true;
        r
    }

    /// Replace the extension fields for this record.
    #[must_use]
    pub fn extension(self, fields: E::RevisitFields) -> (r: Self)
        ensures
            r.head() == (RevisitHeader { other: fields, ..self.head() }),
            r.chosen() == self.chosen(),
    {
        let mut r = self;
        r.header.other = fields;
        r
    }

    /// `WARC-Refers-To-Target-URI`: the target URI of the record this one revisits, which need not
    /// be this record's own. Named by WARC 1.1.
    #[must_use]
    pub fn refers_to_target_uri(self, target_uri: Uri) -> (r: Self)
        ensures
            r.head() == (RevisitHeader { refers_to_target_uri: Some(target_uri), ..self.head() }),
            r.chosen() == self.chosen(),
    {
        let mut r = self;
        r.header.refers_to_target_uri = Some(target_uri);
        r
    }

    /// `WARC-Refers-To-Date`: the date of the record this one revisits. Named by WARC 1.1.
    #[must_use]
    pub fn refers_to_date(self, date: WarcDate) -> (r: Self)
        ensures
            r.head() == (RevisitHeader { refers_to_date: Some(date), ..self.head() }),
            r.chosen() == self.chosen(),
    {
        let mut r = self;
        r.header.refers_to_date = Some(date);
        r
    }
}

impl<E: Extension> RevisitBuilder<E> {
    /// Build the record header without a content block.
    #[must_use]
    pub fn build(self) -> (r: RecordHeader<E>)
        ensures
            r == RecordHeader::Revisit(self.head()),
    {
        RecordHeader::Revisit(self.header)
    }

    /// Build a record with the given content block.
    ///
    /// # Errors
    ///
    /// Returns [`BlockError::ContentLengthMismatch`] if the builder was told a `Content-Length`
    /// this block does not have. A `revisit` record under the identical payload digest profile that
    /// carries a block without declaring it truncated is refused when it is written.
    pub fn body(self, body: Vec<u8>) -> (r: Result<Record<E>, BlockError>)
        ensures
            is_built(r, RecordHeader::Revisit(self.head()), body@, self.chosen()),
    {
        let digests = self.digests;
        match RecordHeader::Revisit(self.header).with_body(body) {
            Ok(record) => Ok(add_digests(record, digests)),
            Err(error) => Err(error),
        }
    }
}

/// A builder for a `conversion` record, which holds another record's content converted.
#[derive(Clone, Debug)]
pub struct ConversionBuilder<E: Extension = NoExtension> {
    header: ConversionHeader<E>,
    digests: Option<Supported>,
}

impl<E: Extension> ConversionBuilder<E> {
    /// The header that is built.
    pub closed spec fn head(&self) -> ConversionHeader<E> {
        self.header
    }

    /// The algorithm of the digests that are added.
    pub closed spec fn chosen(&self) -> Option<Supported> {
        self.digests
    }
}

impl<E: Extension> ConversionBuilder<E> where E::ConversionFields: Default {
    /// Whether the builder holds the mandatory fields of a `conversion` record and no others.
    pub open spec fn is_new(
        self,
        version: WarcVersion,
        target_uri: Seq<char>,
        date: WarcDate,
    ) -> bool {
        &&& self.head().version == version
        &&& is_fresh(self.head().core, date, None)
        &&& self.head().payload.is_none()
        &&& self.head().target_uri@ == target_uri
        &&& self.head().warcinfo_id is None
        &&& self.head().refers_to is None
        &&& !self.head().segment_origin
        &&& call_ensures(E::ConversionFields::default, (), self.head().other)
        &&& self.chosen() is None
    }

    /// Create a `conversion` builder with its required fields.
    ///
    /// # Errors
    ///
    /// Returns an error if the target URI is not a URI.
    pub fn new(target_uri: &str, date: WarcDate) -> (r: Result<Self, uri::Error>)
        ensures
            match r {
                Ok(builder) => is_uri(target_uri@) && builder.is_new(
                    WarcVersion::V1_1,
                    target_uri@,
                    date,
                ),
                Err(error) => uri_fault(target_uri@) == Some(error.0@),
            },
    {
        let target_uri = match Uri::parse(target_uri) {
            Ok(uri) => uri,
            Err(error) => {
                return Err(error);
            },
        };
        Ok(
            ConversionBuilder {
                header: ConversionHeader {
                    version: WarcVersion::V1_1,
                    core: core_headers(date, None),
                    payload: PayloadHeaders::none(),
                    target_uri,
                    warcinfo_id: None,
                    refers_to: None,
                    segment_origin: false,
                    other: E::ConversionFields::default(),
                },
                digests: None,
            },
        )
    }
}

impl<E: Extension> ConversionBuilder<E> {
    /// Declare this record as WARC 1.0.
    #[must_use]
    pub(crate) fn into_v1_0(self) -> (r: Self)
        ensures
            r.head() == (ConversionHeader { version: WarcVersion::V1_0, ..self.head() }),
            r.chosen() == self.chosen(),
    {
        let mut r = self;
        r.header.version = WarcVersion::V1_0;
        r
    }

    /// `WARC-Record-ID`: replace the generated identifier for this record.
    #[must_use]
    pub fn record_id(self, record_id: Uri) -> (r: Self)
        ensures
            r.head() == (
                ConversionHeader {
                    core: CoreHeaders { record_id, ..self.head().core },
                    ..self.head()
                }
            ),
            r.chosen() == self.chosen(),
    {
        let mut r = self;
        r.header.core.record_id = record_id;
        r
    }

    /// Add block and payload digests computed with the given algorithm.
    ///
    /// Digests use the algorithm's recommended label and encoding. Existing digests are preserved,
    /// and a header built without a block gets none.
    #[must_use]
    pub fn digests(self, algorithm: Supported) -> (r: Self)
        ensures
            r.head() == self.head(),
            r.chosen() == Some(algorithm),
    {
        let mut r = self;
        r.digests = Some(algorithm);
        r
    }

    /// `Content-Length`: declare the expected length of the content block.
    ///
    /// The declaration is checked against the block when one is attached, so it is
    /// [`body`](Self::body) that reports [`BlockError::ContentLengthMismatch`] when the block is of
    /// another length. Building only a header stores the declaration without checking it against a
    /// block.
    #[must_use]
    pub fn content_length(self, content_length: u64) -> (r: Self)
        ensures
            r.head() == (
                ConversionHeader {
                    core: CoreHeaders { content_length: Some(content_length), ..self.head().core },
                    ..self.head()
                }
            ),
            r.chosen() == self.chosen(),
    {
        let mut r = self;
        r.header.core.content_length = Some(content_length);
        r
    }

    /// `WARC-Block-Digest`: set a digest over the complete content block.
    ///
    /// The builder writes the provided digest but does not compute it.
    #[must_use]
    pub fn block_digest(self, digest: LabelledDigest) -> (r: Self)
        ensures
            r.head() == (
                ConversionHeader {
                    core: CoreHeaders { block_digest: Some(digest), ..self.head().core },
                    ..self.head()
                }
            ),
            r.chosen() == self.chosen(),
    {
        let mut r = self;
        r.header.core.block_digest = Some(digest);
        r
    }

    /// `Content-Type`: the media type of the record's block, which for an archived HTTP message is
    /// `application/http` rather than the type that message declares.
    ///
    /// This replaces the type the record type is built with.
    #[must_use]
    pub fn content_type(self, content_type: MediaType) -> (r: Self)
        ensures
            r.head() == (
                ConversionHeader {
                    core: CoreHeaders { content_type: Some(content_type), ..self.head().core },
                    ..self.head()
                }
            ),
            r.chosen() == self.chosen(),
    {
        let mut r = self;
        r.header.core.content_type = Some(content_type);
        r
    }

    /// `WARC-Truncated`: why the record's block holds less than what was captured.
    #[must_use]
    pub fn truncated(self, reason: TruncatedType<E::TruncatedReasons>) -> (r: Self)
        ensures
            r.head() == (
                ConversionHeader {
                    core: CoreHeaders { truncated: Some(reason), ..self.head().core },
                    ..self.head()
                }
            ),
            r.chosen() == self.chosen(),
    {
        let mut r = self;
        r.header.core.truncated = Some(reason);
        r
    }

    /// `WARC-Payload-Digest`: a digest over the record's payload, which need not be present in this
    /// record's block.
    #[must_use]
    pub fn payload_digest(self, digest: LabelledDigest) -> (r: Self)
        ensures
            r.head() == (
                ConversionHeader {
                    payload: PayloadHeaders { payload_digest: Some(digest), ..self.head().payload },
                    ..self.head()
                }
            ),
            r.chosen() == self.chosen(),
    {
        let mut r = self;
        r.header.payload.payload_digest = Some(digest);
        r
    }

    /// `WARC-Identified-Payload-Type`: the media type of the payload as determined by inspecting
    /// it, never by promoting a type declared inside the block.
    #[must_use]
    pub fn identified_payload_type(self, media_type: MediaType) -> (r: Self)
        ensures
            r.head() == (
                ConversionHeader {
                    payload: PayloadHeaders {
                        identified_payload_type: Some(media_type),
                        ..self.head().payload
                    },
                    ..self.head()
                }
            ),
            r.chosen() == self.chosen(),
    {
        let mut r = self;
        r.header.payload.identified_payload_type = Some(media_type);
        r
    }

    /// `WARC-Warcinfo-ID`: the `warcinfo` record describing this one, overriding whichever
    /// `warcinfo` record precedes it in the file.
    #[must_use]
    pub fn warcinfo_id(self, record_id: Uri) -> (r: Self)
        ensures
            r.head() == (ConversionHeader { warcinfo_id: Some(record_id), ..self.head() }),
            r.chosen() == self.chosen(),
    {
        let mut r = self;
        r.header.warcinfo_id = Some(record_id);
        r
    }

    /// `WARC-Refers-To`: the record this one describes or was derived from.
    #[must_use]
    pub fn refers_to(self, record_id: Uri) -> (r: Self)
        ensures
            r.head() == (ConversionHeader { refers_to: Some(record_id), ..self.head() }),
            r.chosen() == self.chosen(),
    {
        let mut r = self;
        r.header.refers_to = Some(record_id);
        r
    }

    /// `WARC-Segment-Number` with the value `1`: mark this record as the first segment of a series
    /// continued by `continuation` records.
    ///
    /// It takes no value because `1` is the only value the standard permits the field on a record
    /// that is not itself a `continuation`.
    #[must_use]
    pub fn segment_origin(self) -> (r: Self)
        ensures
            r.head() == (ConversionHeader { segment_origin: true, ..self.head() }),
            r.chosen() == self.chosen(),
    {
        let mut r = self;
        r.header.segment_origin = true;
        r
    }

    /// Replace the extension fields for this record.
    #[must_use]
    pub fn extension(self, fields: E::ConversionFields) -> (r: Self)
        ensures
            r.head() == (ConversionHeader { other: fields, ..self.head() }),
            r.chosen() == self.chosen(),
    {
        let mut r = self;
        r.header.other = fields;
        r
    }
}

impl<E: Extension> ConversionBuilder<E> {
    /// Build the record header without a content block.
    #[must_use]
    pub fn build(self) -> (r: RecordHeader<E>)
        ensures
            r == RecordHeader::Conversion(self.head()),
    {
        RecordHeader::Conversion(self.header)
    }

    /// Build a record with the given content block.
    ///
    /// # Errors
    ///
    /// Returns [`BlockError::ContentLengthMismatch`] if the builder was told a `Content-Length`
    /// this block does not have. A `revisit` record under the identical payload digest profile that
    /// carries a block without declaring it truncated is refused when it is written.
    pub fn body(self, body: Vec<u8>) -> (r: Result<Record<E>, BlockError>)
        ensures
            is_built(r, RecordHeader::Conversion(self.head()), body@, self.chosen()),
    {
        let digests = self.digests;
        match RecordHeader::Conversion(self.header).with_body(body) {
            Ok(record) => Ok(add_digests(record, digests)),
            Err(error) => Err(error),
        }
    }
}

/// A builder for a `continuation` record, which holds a later segment of a block.
#[derive(Clone, Debug)]
pub struct ContinuationBuilder<E: Extension = NoExtension> {
    header: ContinuationHeader<E>,
    digests: Option<Supported>,
}

impl<E: Extension> ContinuationBuilder<E> {
    /// The header that is built.
    pub closed spec fn head(&self) -> ContinuationHeader<E> {
        self.header
    }

    /// The algorithm of the digests that are added.
    pub closed spec fn chosen(&self) -> Option<Supported> {
        self.digests
    }
}

/// What keeps a `continuation` record from being numbered and naming its target as given.
pub open spec fn continuation_fault(target_uri: Seq<char>, segment_number: u64) -> Option<Fault> {
    match uri_fault(target_uri) {
        Some(fault) => Some(Fault::NotAUri(Field::TargetURI, fault)),
        None => if segment_number < 2 {
            Some(
                Fault::MalformedField(Field::SegmentNumber, decimal_text(segment_number as nat)),
            )
        } else {
            None
        },
    }
}

impl<E: Extension> ContinuationBuilder<E> where E::ContinuationFields: Default {
    /// Whether the builder holds the mandatory fields of a `continuation` record and no others.
    pub open spec fn is_new(
        self,
        version: WarcVersion,
        target_uri: Seq<char>,
        date: WarcDate,
        segment_number: u64,
        segment_origin_id: Uri,
    ) -> bool {
        &&& self.head().version == version
        &&& is_fresh(self.head().core, date, None)
        &&& self.head().payload.is_none()
        &&& self.head().target_uri@ == target_uri
        &&& self.head().warcinfo_id is None
        &&& self.head().segment_number@ == segment_number
        &&& self.head().segment_origin_id == segment_origin_id
        &&& self.head().segment_total_length is None
        &&& call_ensures(E::ContinuationFields::default, (), self.head().other)
        &&& self.chosen() is None
    }

    /// Create a `continuation` builder with its required fields.
    ///
    /// The origin record is segment `1`, so the first continuation is segment `2`.
    ///
    /// # Errors
    ///
    /// Returns [`Error::NotAUri`] if the target URI is not a URI, and [`Error::MalformedField`] when
    /// the segment number is below `2`.
    pub fn new(
        target_uri: &str,
        date: WarcDate,
        segment_number: u64,
        segment_origin_id: Uri,
    ) -> (r: Result<Self, Error>)
        ensures
            match r {
                Ok(builder) => {
                    &&& continuation_fault(target_uri@, segment_number) is None
                    &&& builder.is_new(
                        WarcVersion::V1_1,
                        target_uri@,
                        date,
                        segment_number,
                        segment_origin_id,
                    )
                },
                Err(error) => continuation_fault(target_uri@, segment_number) == Some(error@),
            },
    {
        let target_uri = match Uri::parse(target_uri) {
            Ok(uri) => uri,
            Err(source) => {
                return Err(Error::NotAUri { field: Field::TargetURI, source });
            },
        };
        let number = match SegmentNumber::new(segment_number) {
            Some(number) => number,
            None => {
                return Err(
                    Error::MalformedField {
                        field: Field::SegmentNumber,
                        value: decimal_string(segment_number),
                    },
                );
            },
        };
        Ok(
            ContinuationBuilder {
                header: ContinuationHeader {
                    version: WarcVersion::V1_1,
                    core: core_headers(date, None),
                    payload: PayloadHeaders::none(),
                    target_uri,
                    warcinfo_id: None,
                    segment_number: number,
                    segment_origin_id,
                    segment_total_length: None,
                    other: E::ContinuationFields::default(),
                },
                digests: None,
            },
        )
    }
}

impl<E: Extension> ContinuationBuilder<E> {
    /// Declare this record as WARC 1.0.
    #[must_use]
    pub(crate) fn into_v1_0(self) -> (r: Self)
        ensures
            r.head() == (ContinuationHeader { version: WarcVersion::V1_0, ..self.head() }),
            r.chosen() == self.chosen(),
    {
        let mut r = self;
        r.header.version = WarcVersion::V1_0;
        r
    }

    /// `WARC-Record-ID`: replace the generated identifier for this record.
    #[must_use]
    pub fn record_id(self, record_id: Uri) -> (r: Self)
        ensures
            r.head() == (
                ContinuationHeader {
                    core: CoreHeaders { record_id, ..self.head().core },
                    ..self.head()
                }
            ),
            r.chosen() == self.chosen(),
    {
        let mut r = self;
        r.header.core.record_id = record_id;
        r
    }

    /// Add block and payload digests computed with the given algorithm.
    ///
    /// Digests use the algorithm's recommended label and encoding. Existing digests are preserved,
    /// and a header built without a block gets none.
    #[must_use]
    pub fn digests(self, algorithm: Supported) -> (r: Self)
        ensures
            r.head() == self.head(),
            r.chosen() == Some(algorithm),
    {
        let mut r = self;
        r.digests = Some(algorithm);
        r
    }

    /// `Content-Length`: declare the expected length of the content block.
    ///
    /// The declaration is checked against the block when one is attached, so it is
    /// [`body`](Self::body) that reports [`BlockError::ContentLengthMismatch`] when the block is of
    /// another length. Building only a header stores the declaration without checking it against a
    /// block.
    #[must_use]
    pub fn content_length(self, content_length: u64) -> (r: Self)
        ensures
            r.head() == (
                ContinuationHeader {
                    core: CoreHeaders { content_length: Some(content_length), ..self.head().core },
                    ..self.head()
                }
            ),
            r.chosen() == self.chosen(),
    {
        let mut r = self;
        r.header.core.content_length = Some(content_length);
        r
    }

    /// `WARC-Block-Digest`: set a digest over the complete content block.
    ///
    /// The builder writes the provided digest but does not compute it.
    #[must_use]
    pub fn block_digest(self, digest: LabelledDigest) -> (r: Self)
        ensures
            r.head() == (
                ContinuationHeader {
                    core: CoreHeaders { block_digest: Some(digest), ..self.head().core },
                    ..self.head()
                }
            ),
            r.chosen() == self.chosen(),
    {
        let mut r = self;
        r.header.core.block_digest = Some(digest);
        r
    }

    /// `Content-Type`: the media type of the record's block, which for an archived HTTP message is
    /// `application/http` rather than the type that message declares.
    ///
    /// This replaces the type the record type is built with.
    #[must_use]
    pub fn content_type(self, content_type: MediaType) -> (r: Self)
        ensures
            r.head() == (
                ContinuationHeader {
                    core: CoreHeaders { content_type: Some(content_type), ..self.head().core },
                    ..self.head()
                }
            ),
            r.chosen() == self.chosen(),
    {
        let mut r = self;
        r.header.core.content_type = Some(content_type);
        r
    }

    /// `WARC-Truncated`: why the record's block holds less than what was captured.
    #[must_use]
    pub fn truncated(self, reason: TruncatedType<E::TruncatedReasons>) -> (r: Self)
        ensures
            r.head() == (
                ContinuationHeader {
                    core: CoreHeaders { truncated: Some(reason), ..self.head().core },
                    ..self.head()
                }
            ),
            r.chosen() == self.chosen(),
    {
        let mut r = self;
        r.header.core.truncated = Some(reason);
        r
    }

    /// `WARC-Payload-Digest`: a digest over the record's payload, which need not be present in this
    /// record's block.
    #[must_use]
    pub fn payload_digest(self, digest: LabelledDigest) -> (r: Self)
        ensures
            r.head() == (
                ContinuationHeader {
                    payload: PayloadHeaders { payload_digest: Some(digest), ..self.head().payload },
                    ..self.head()
                }
            ),
            r.chosen() == self.chosen(),
    {
        let mut r = self;
        r.header.payload.payload_digest = Some(digest);
        r
    }

    /// `WARC-Identified-Payload-Type`: the media type of the payload as determined by inspecting
    /// it, never by promoting a type declared inside the block.
    #[must_use]
    pub fn identified_payload_type(self, media_type: MediaType) -> (r: Self)
        ensures
            r.head() == (
                ContinuationHeader {
                    payload: PayloadHeaders {
                        identified_payload_type: Some(media_type),
                        ..self.head().payload
                    },
                    ..self.head()
                }
            ),
            r.chosen() == self.chosen(),
    {
        let mut r = self;
        r.header.payload.identified_payload_type = Some(media_type);
        r
    }

    /// `WARC-Warcinfo-ID`: the `warcinfo` record describing this one, overriding whichever
    /// `warcinfo` record precedes it in the file.
    #[must_use]
    pub fn warcinfo_id(self, record_id: Uri) -> (r: Self)
        ensures
            r.head() == (ContinuationHeader { warcinfo_id: Some(record_id), ..self.head() }),
            r.chosen() == self.chosen(),
    {
        let mut r = self;
        r.header.warcinfo_id = Some(record_id);
        r
    }

    /// Replace the extension fields for this record.
    #[must_use]
    pub fn extension(self, fields: E::ContinuationFields) -> (r: Self)
        ensures
            r.head() == (ContinuationHeader { other: fields, ..self.head() }),
            r.chosen() == self.chosen(),
    {
        let mut r = self;
        r.header.other = fields;
        r
    }

    /// `WARC-Segment-Total-Length`: the length of every segment's block once reassembled, which the
    /// last `continuation` of a series carries and no other record does.
    #[must_use]
    pub fn segment_total_length(self, length: u64) -> (r: Self)
        ensures
            r.head() == (ContinuationHeader { segment_total_length: Some(length), ..self.head() }),
            r.chosen() == self.chosen(),
    {
        let mut r = self;
        r.header.segment_total_length = Some(length);
        r
    }
}

impl<E: Extension> ContinuationBuilder<E> {
    /// Build the record header without a content block.
    #[must_use]
    pub fn build(self) -> (r: RecordHeader<E>)
        ensures
            r == RecordHeader::Continuation(self.head()),
    {
        RecordHeader::Continuation(self.header)
    }

    /// Build a record with the given content block.
    ///
    /// # Errors
    ///
    /// Returns [`BlockError::ContentLengthMismatch`] if the builder was told a `Content-Length`
    /// this block does not have. A `revisit` record under the identical payload digest profile that
    /// carries a block without declaring it truncated is refused when it is written.
    pub fn body(self, body: Vec<u8>) -> (r: Result<Record<E>, BlockError>)
        ensures
            is_built(r, RecordHeader::Continuation(self.head()), body@, self.chosen()),
    {
        let digests = self.digests;
        match RecordHeader::Continuation(self.header).with_body(body) {
            Ok(record) => Ok(add_digests(record, digests)),
            Err(error) => Err(error),
        }
    }
}

/// A builder for a record of a type the extension in force defines.
#[derive(Clone, Debug)]
pub struct OtherBuilder<E: Extension = NoExtension> {
    header: OtherHeader<E>,
    digests: Option<Supported>,
}

impl<E: Extension> OtherBuilder<E> {
    /// The header that is built.
    pub closed spec fn head(&self) -> OtherHeader<E> {
        self.header
    }

    /// The algorithm of the digests that are added.
    pub closed spec fn chosen(&self) -> Option<Supported> {
        self.digests
    }
}

impl<E: Extension> OtherBuilder<E> {
    /// Whether the builder holds the mandatory fields of every record and no others.
    pub open spec fn is_new(
        self,
        version: WarcVersion,
        date: WarcDate,
        extension: E::Types,
    ) -> bool {
        &&& self.head().version == version
        &&& is_fresh(self.head().core, date, None)
        &&& !self.head().segment_origin
        &&& self.head().extension == extension
        &&& self.chosen() is None
    }

    /// Create a builder for the given extension record type.
    ///
    /// Only the fields required for every record are populated.
    #[must_use]
    pub fn new(date: WarcDate, extension: E::Types) -> (r: Self)
        ensures
            r.is_new(WarcVersion::V1_1, date, extension),
    {
        OtherBuilder {
            header: OtherHeader {
                version: WarcVersion::V1_1,
                core: core_headers(date, None),
                segment_origin: false,
                extension,
            },
            digests: None,
        }
    }

    /// Declare this record as WARC 1.0.
    #[must_use]
    pub(crate) fn into_v1_0(self) -> (r: Self)
        ensures
            r.head() == (OtherHeader { version: WarcVersion::V1_0, ..self.head() }),
            r.chosen() == self.chosen(),
    {
        let mut r = self;
        r.header.version = WarcVersion::V1_0;
        r
    }

    /// `WARC-Record-ID`: replace the generated identifier for this record.
    #[must_use]
    pub fn record_id(self, record_id: Uri) -> (r: Self)
        ensures
            r.head() == (
                OtherHeader { core: CoreHeaders { record_id, ..self.head().core }, ..self.head() }
            ),
            r.chosen() == self.chosen(),
    {
        let mut r = self;
        r.header.core.record_id = record_id;
        r
    }

    /// Add block and payload digests computed with the given algorithm.
    ///
    /// Digests use the algorithm's recommended label and encoding. Existing digests are preserved,
    /// and a header built without a block gets none.
    #[must_use]
    pub fn digests(self, algorithm: Supported) -> (r: Self)
        ensures
            r.head() == self.head(),
            r.chosen() == Some(algorithm),
    {
        let mut r = self;
        r.digests = Some(algorithm);
        r
    }

    /// `Content-Length`: declare the expected length of the content block.
    ///
    /// The declaration is checked against the block when one is attached, so it is
    /// [`body`](Self::body) that reports [`BlockError::ContentLengthMismatch`] when the block is of
    /// another length. Building only a header stores the declaration without checking it against a
    /// block.
    #[must_use]
    pub fn content_length(self, content_length: u64) -> (r: Self)
        ensures
            r.head() == (
                OtherHeader {
                    core: CoreHeaders { content_length: Some(content_length), ..self.head().core },
                    ..self.head()
                }
            ),
            r.chosen() == self.chosen(),
    {
        let mut r = self;
        r.header.core.content_length = Some(content_length);
        r
    }

    /// `WARC-Block-Digest`: set a digest over the complete content block.
    ///
    /// The builder writes the provided digest but does not compute it.
    #[must_use]
    pub fn block_digest(self, digest: LabelledDigest) -> (r: Self)
        ensures
            r.head() == (
                OtherHeader {
                    core: CoreHeaders { block_digest: Some(digest), ..self.head().core },
                    ..self.head()
                }
            ),
            r.chosen() == self.chosen(),
    {
        let mut r = self;
        r.header.core.block_digest = Some(digest);
        r
    }

    /// `Content-Type`: the media type of the record's block, which for an archived HTTP message is
    /// `application/http` rather than the type that message declares.
    ///
    /// This replaces the type the record type is built with.
    #[must_use]
    pub fn content_type(self, content_type: MediaType) -> (r: Self)
        ensures
            r.head() == (
                OtherHeader {
                    core: CoreHeaders { content_type: Some(content_type), ..self.head().core },
                    ..self.head()
                }
            ),
            r.chosen() == self.chosen(),
    {
        let mut r = self;
        r.header.core.content_type = Some(content_type);
        r
    }

    /// `WARC-Truncated`: why the record's block holds less than what was captured.
    #[must_use]
    pub fn truncated(self, reason: TruncatedType<E::TruncatedReasons>) -> (r: Self)
        ensures
            r.head() == (
                OtherHeader {
                    core: CoreHeaders { truncated: Some(reason), ..self.head().core },
                    ..self.head()
                }
            ),
            r.chosen() == self.chosen(),
    {
        let mut r = self;
        r.header.core.truncated = Some(reason);
        r
    }

    /// `WARC-Segment-Number` with the value `1`: mark this record as the first segment of a series
    /// continued by `continuation` records.
    ///
    /// It takes no value because `1` is the only value the standard permits the field on a record
    /// that is not itself a `continuation`.
    #[must_use]
    pub fn segment_origin(self) -> (r: Self)
        ensures
            r.head() == (OtherHeader { segment_origin: true, ..self.head() }),
            r.chosen() == self.chosen(),
    {
        let mut r = self;
        r.header.segment_origin = true;
        r
    }
}

impl<E: Extension> OtherBuilder<E> {
    /// Build the record header without a content block.
    #[must_use]
    pub fn build(self) -> (r: RecordHeader<E>)
        ensures
            r == RecordHeader::Other(self.head()),
    {
        RecordHeader::Other(self.header)
    }

    /// Build a record with the given content block.
    ///
    /// # Errors
    ///
    /// Returns [`BlockError::ContentLengthMismatch`] if the builder was told a `Content-Length`
    /// this block does not have. A `revisit` record under the identical payload digest profile that
    /// carries a block without declaring it truncated is refused when it is written.
    pub fn body(self, body: Vec<u8>) -> (r: Result<Record<E>, BlockError>)
        ensures
            is_built(r, RecordHeader::Other(self.head()), body@, self.chosen()),
    {
        let digests = self.digests;
        match RecordHeader::Other(self.header).with_body(body) {
            Ok(record) => Ok(add_digests(record, digests)),
            Err(error) => Err(error),
        }
    }
}

/// Entry points for building each record type.
impl<E: Extension> Record<E> {
    /// A builder for a `warcinfo` record, which describes the records that follow it.
    #[must_use]
    pub fn warcinfo(date: WarcDate) -> (r: WarcinfoBuilder<E>) where E::WarcinfoFields: Default
        ensures
            r.is_new(WarcVersion::V1_1, date),
    {
        WarcinfoBuilder::new(date)
    }

    /// A builder for a `metadata` record, which describes another record.
    #[must_use]
    pub fn metadata(date: WarcDate) -> (r: MetadataBuilder<E>) where E::MetadataFields: Default
        ensures
            r.is_new(WarcVersion::V1_1, date),
    {
        MetadataBuilder::new(date)
    }

    /// A builder for a `response` record, which holds a complete scheme-specific response.
    ///
    /// # Errors
    ///
    /// Returns an error if the target URI is not a URI.
    pub fn response(target_uri: &str, date: WarcDate) -> (
        r: Result<ResponseBuilder<E>, uri::Error>
    ) where
        E::ResponseFields: Default,

        ensures
            match r {
                Ok(builder) => is_uri(target_uri@) && builder.is_new(
                    WarcVersion::V1_1,
                    target_uri@,
                    date,
                ),
                Err(error) => uri_fault(target_uri@) == Some(error.0@),
            },
    {
        ResponseBuilder::new(target_uri, date)
    }

    /// A builder for a `resource` record, which holds a resource without protocol information.
    ///
    /// # Errors
    ///
    /// Returns an error if the target URI is not a URI.
    pub fn resource(target_uri: &str, date: WarcDate) -> (
        r: Result<ResourceBuilder<E>, uri::Error>
    ) where
        E::ResourceFields: Default,

        ensures
            match r {
                Ok(builder) => is_uri(target_uri@) && builder.is_new(
                    WarcVersion::V1_1,
                    target_uri@,
                    date,
                ),
                Err(error) => uri_fault(target_uri@) == Some(error.0@),
            },
    {
        ResourceBuilder::new(target_uri, date)
    }

    /// A builder for a `request` record, which holds a complete scheme-specific request.
    ///
    /// # Errors
    ///
    /// Returns an error if the target URI is not a URI.
    pub fn request(target_uri: &str, date: WarcDate) -> (
        r: Result<RequestBuilder<E>, uri::Error>
    ) where
        E::RequestFields: Default,

        ensures
            match r {
                Ok(builder) => is_uri(target_uri@) && builder.is_new(
                    WarcVersion::V1_1,
                    target_uri@,
                    date,
                ),
                Err(error) => uri_fault(target_uri@) == Some(error.0@),
            },
    {
        RequestBuilder::new(target_uri, date)
    }

    /// A builder for a `conversion` record, which holds another record's content converted.
    ///
    /// # Errors
    ///
    /// Returns an error if the target URI is not a URI.
    pub fn conversion(target_uri: &str, date: WarcDate) -> (
        r: Result<ConversionBuilder<E>, uri::Error>
    ) where
        E::ConversionFields: Default,

        ensures
            match r {
                Ok(builder) => is_uri(target_uri@) && builder.is_new(
                    WarcVersion::V1_1,
                    target_uri@,
                    date,
                ),
                Err(error) => uri_fault(target_uri@) == Some(error.0@),
            },
    {
        ConversionBuilder::new(target_uri, date)
    }

    /// A builder for a `revisit` record, which stands in for content already archived.
    ///
    /// # Errors
    ///
    /// Returns an error if the target URI is not a URI.
    pub fn revisit(target_uri: &str, date: WarcDate, profile: RevisitProfile) -> (r: Result<
        RevisitBuilder<E>,
        uri::Error,
    >) where E::RevisitFields: Default
        ensures
            match r {
                Ok(builder) => is_uri(target_uri@) && builder.is_new(target_uri@, date, profile),
                Err(error) => uri_fault(target_uri@) == Some(error.0@),
            },
    {
        RevisitBuilder::new(target_uri, date, profile)
    }

    /// A builder for a `continuation` record, which holds a later segment of a block.
    ///
    /// # Errors
    ///
    /// Returns [`Error::NotAUri`] if the target URI is not a URI, and [`Error::MalformedField`] when
    /// the segment number is below `2`.
    pub fn continuation(
        target_uri: &str,
        date: WarcDate,
        segment_number: u64,
        segment_origin_id: Uri,
    ) -> (r: Result<ContinuationBuilder<E>, Error>) where E::ContinuationFields: Default
        ensures
            match r {
                Ok(builder) => {
                    &&& continuation_fault(target_uri@, segment_number) is None
                    &&& builder.is_new(
                        WarcVersion::V1_1,
                        target_uri@,
                        date,
                        segment_number,
                        segment_origin_id,
                    )
                },
                Err(error) => continuation_fault(target_uri@, segment_number) == Some(error@),
            },
    {
        ContinuationBuilder::new(target_uri, date, segment_number, segment_origin_id)
    }

    /// A builder for a record type defined by the extension.
    ///
    /// This is unavailable under [`NoExtension`] because its
    /// [`Never`](crate::record::extension::Never) type has no values.
    #[must_use]
    pub fn other(date: WarcDate, extension: E::Types) -> (r: OtherBuilder<E>)
        ensures
            r.is_new(WarcVersion::V1_1, date, extension),
    {
        OtherBuilder::new(date, extension)
    }
}

} // verus!
