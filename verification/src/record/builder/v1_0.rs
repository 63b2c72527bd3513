//! Builders for WARC 1.0 records.
//!
//! Each function here mirrors the entry point of the same name on [`Record`] and declares the
//! record it builds as WARC 1.0. A `revisit` record has its own [`RevisitBuilder`], since a
//! WARC 1.0 record cannot carry the two fields WARC 1.1 named for that type.

use super::{
    add_digests, continuation_fault, core_headers, is_built, is_fresh, lemma_redescribed,
    ContinuationBuilder, ConversionBuilder, MetadataBuilder, OtherBuilder, RequestBuilder,
    ResourceBuilder, ResponseBuilder, WarcinfoBuilder,
};
use crate::record::extension::{Extension, NoExtension};
use crate::record::header::truncated_type::TruncatedType;
use crate::record::header::{CoreHeaders, PayloadHeaders, RevisitHeader, RevisitProfile};
use crate::record::{BlockError, Error, Record, RecordHeader};
use crate::value::hash::Supported;
use crate::value::uri::{self, is_uri, uri_fault};
use crate::value::{IpAddress, LabelledDigest, MediaType, Uri, WarcDate};
use crate::version::WarcVersion;
use vstd::prelude::*;

verus! {

/// A builder for a `revisit` record, which stands in for content already archived.
///
/// It is [`super::RevisitBuilder`] without `WARC-Refers-To-Target-URI` and `WARC-Refers-To-Date`,
/// which WARC 1.1 named and a WARC 1.0 record cannot carry.
#[derive(Clone, Debug)]
pub struct RevisitBuilder<E: Extension = NoExtension> {
    header: RevisitHeader<E>,
    digests: Option<Supported>,
}

impl<E: Extension> RevisitBuilder<E> {
    /// The header that is built.
    pub closed spec fn head(&self) -> RevisitHeader<E> {
        self.header
    }

    /// The algorithm of the digests that are added.
    pub closed spec fn chosen(&self) -> Option<Supported> {
        self.digests
    }
}

impl<E: Extension> RevisitBuilder<E> where E::RevisitFields: Default {
    /// Whether the builder holds the mandatory fields of a `revisit` record and no others.
    pub open spec fn is_new(
        self,
        target_uri: Seq<char>,
        date: WarcDate,
        profile: RevisitProfile,
    ) -> bool {
        &&& self.head().version == WarcVersion::V1_0
        &&& is_fresh(self.head().core, date, None)
        &&& self.head().payload.is_none()
        &&& self.head().target_uri@ == target_uri
        &&& self.head().warcinfo_id is None
        &&& self.head().profile == profile
        &&& self.head().ip_address is None
        &&& self.head().concurrent_to@.len() == 0
        &&& self.head().refers_to is None
        &&& self.head().refers_to_target_uri is None
        &&& self.head().refers_to_date is None
        &&& !self.head().segment_origin
        &&& call_ensures(E::RevisitFields::default, (), self.head().other)
        &&& self.chosen() is None
    }

    /// Create a WARC 1.0 `revisit` builder with its required fields.
    ///
    /// The profile describes how the record should be interpreted. The version its URI names may
    /// differ from the version declared by the record.
    ///
    /// # Errors
    ///
    /// Returns an error if the target URI is not a URI.
    pub fn new(target_uri: &str, date: WarcDate, profile: RevisitProfile) -> (r: Result<
        Self,
        uri::Error,
    >)
        ensures
            match r {
                Ok(builder) => is_uri(target_uri@) && builder.is_new(target_uri@, date, profile),
                Err(error) => uri_fault(target_uri@) == Some(error.0@),
            },
    {
        let target_uri = match Uri::parse(target_uri) {
            Ok(uri) => uri,
            Err(error) => {
                return Err(error);
            },
        };
        Ok(
            RevisitBuilder {
                header: RevisitHeader {
                    version: WarcVersion::V1_0,
                    core: core_headers(date, None),
                    payload: PayloadHeaders::none(),
                    target_uri,
                    warcinfo_id: None,
                    profile,
                    ip_address: None,
                    concurrent_to: Vec::new(),
                    refers_to: None,
                    refers_to_target_uri: None,
                    refers_to_date: None,
                    segment_origin: false,
                    other: E::RevisitFields::default(),
                },
                digests: None,
            },
        )
    }
}

impl<E: Extension> RevisitBuilder<E> {
    /// `WARC-Record-ID`: replace the generated identifier for this record.
    #[must_use]
    pub fn record_id(self, record_id: Uri) -> (r: Self)
        ensures
            r.head() == (
                RevisitHeader { core: CoreHeaders { record_id, ..self.head().core }, ..self.head() }
            ),
            r.chosen() == self.chosen(),
    {
        let mut r = self;
        r.header.core.record_id = record_id;
        r
    }

    /// Add block and payload digests computed with the given algorithm.
    ///
    /// Digests use the algorithm's recommended label and encoding. Existing digests are preserved,
    /// and a header built without a block gets none.
    #[must_use]
    pub fn digests(self, algorithm: Supported) -> (r: Self)
        ensures
            r.head() == self.head(),
            r.chosen() == Some(algorithm),
    {
        let mut r = self;
        r.digests = Some(algorithm);
        r
    }

    /// `Content-Length`: declare the expected length of the content block.
    ///
    /// The declaration is checked against the block when one is attached, so it is
    /// [`body`](Self::body) that reports [`BlockError::ContentLengthMismatch`] when the block is of
    /// another length. Building only a header stores the declaration without checking it against a
    /// block.
    #[must_use]
    pub fn content_length(self, content_length: u64) -> (r: Self)
        ensures
            r.head() == (
                RevisitHeader {
                    core: CoreHeaders { content_length: Some(content_length), ..self.head().core },
                    ..self.head()
                }
            ),
            r.chosen() == self.chosen(),
    {
        let mut r = self;
        r.header.core.content_length = Some(content_length);
        r
    }

    /// `WARC-Block-Digest`: set a digest over the complete content block.
    ///
    /// The builder writes the provided digest but does not compute it.
    #[must_use]
    pub fn block_digest(self, digest: LabelledDigest) -> (r: Self)
        ensures
            r.head() == (
                RevisitHeader {
                    core: CoreHeaders { block_digest: Some(digest), ..self.head().core },
                    ..self.head()
                }
            ),
            r.chosen() == self.chosen(),
    {
        let mut r = self;
        r.header.core.block_digest = Some(digest);
        r
    }

    /// `Content-Type`: the media type of the record's block, which for an archived HTTP message is
    /// `application/http` rather than the type that message declares.
    ///
    /// This replaces the type the record type is built with.
    #[must_use]
    pub fn content_type(self, content_type: MediaType) -> (r: Self)
        ensures
            r.head() == (
                RevisitHeader {
                    core: CoreHeaders { content_type: Some(content_type), ..self.head().core },
                    ..self.head()
                }
            ),
            r.chosen() == self.chosen(),
    {
        let mut r = self;
        r.header.core.content_type = Some(content_type);
        r
    }

    /// `WARC-Truncated`: why the record's block holds less than what was captured.
    #[must_use]
    pub fn truncated(self, reason: TruncatedType<E::TruncatedReasons>) -> (r: Self)
        ensures
            r.head() == (
                RevisitHeader {
                    core: CoreHeaders { truncated: Some(reason), ..self.head().core },
                    ..self.head()
                }
            ),
            r.chosen() == self.chosen(),
    {
        let mut r = self;
        r.header.core.truncated = Some(reason);
        r
    }

    /// `WARC-Payload-Digest`: a digest over the record's payload, which need not be present in this
    /// record's block.
    #[must_use]
    pub fn payload_digest(self, digest: LabelledDigest) -> (r: Self)
        ensures
            r.head() == (
                RevisitHeader {
                    payload: PayloadHeaders { payload_digest: Some(digest), ..self.head().payload },
                    ..self.head()
                }
            ),
            r.chosen() == self.chosen(),
    {
        let mut r = self;
        r.header.payload.payload_digest = Some(digest);
        r
    }

    /// `WARC-Identified-Payload-Type`: the media type of the payload as determined by inspecting
    /// it, never by promoting a type declared inside the block.
    #[must_use]
    pub fn identified_payload_type(self, media_type: MediaType) -> (r: Self)
        ensures
            r.head() == (
                RevisitHeader {
                    payload: PayloadHeaders {
                        identified_payload_type: Some(media_type),
                        ..self.head().payload
                    },
                    ..self.head()
                }
            ),
            r.chosen() == self.chosen(),
    {
        let mut r = self;
        r.header.payload.identified_payload_type = Some(media_type);
        r
    }

    /// `WARC-Warcinfo-ID`: the `warcinfo` record describing this one, overriding whichever
    /// `warcinfo` record precedes it in the file.
    #[must_use]
    pub fn warcinfo_id(self, record_id: Uri) -> (r: Self)
        ensures
            r.head() == (RevisitHeader { warcinfo_id: Some(record_id), ..self.head() }),
            r.chosen() == self.chosen(),
    {
        let mut r = self;
        r.header.warcinfo_id = Some(record_id);
        r
    }

    /// `WARC-IP-Address`: the address the record's content was retrieved from.
    #[must_use]
    pub fn ip_address(self, ip_address: IpAddress) -> (r: Self)
        ensures
            r.head() == (RevisitHeader { ip_address: Some(ip_address), ..self.head() }),
            r.chosen() == self.chosen(),
    {
        let mut r = self;
        r.header.ip_address = Some(ip_address);
        r
    }

    /// `WARC-Concurrent-To`: another record produced by this record's capture event.
    ///
    /// Each call appends another value because this field may repeat.
    #[must_use]
    pub fn concurrent_to(self, record_id: Uri) -> (r: Self)
        ensures
            r.head().concurrent_to@ == self.head().concurrent_to@.push(record_id),
            r.head() == (RevisitHeader { concurrent_to: r.head().concurrent_to, ..self.head() }),
            r.chosen() == self.chosen(),
    {
        let mut r = self;
        r.header.concurrent_to.push(record_id);
        r
    }

    /// `WARC-Refers-To`: the record this one describes or was derived from.
    #[must_use]
    pub fn refers_to(self, record_id: Uri) -> (r: Self)
        ensures
            r.head() == (RevisitHeader { refers_to: Some(record_id), ..self.head() }),
            r.chosen() == self.chosen(),
    {
        let mut r = self;
        r.header.refers_to = Some(record_id);
        r
    }

    /// `WARC-Segment-Number` with the value `1`: mark this record as the first segment of a series
    /// continued by `continuation` records.
    ///
    /// It takes no value because `1` is the only value the standard permits the field on a record
    /// that is not itself a `continuation`.
    #[must_use]
    pub fn segment_origin(self) -> (r: Self)
        ensures
            r.head() == (RevisitHeader { segment_origin: true, ..self.head() }),
            r.chosen() == self.chosen(),
    {
        let mut r = self;
        r.header.segment_origin = true;
        r
    }

    /// Replace the extension fields for this record.
    #[must_use]
    pub fn extension(self, fields: E::RevisitFields) -> (r: Self)
        ensures
            r.head() == (RevisitHeader { other: fields, ..self.head() }),
            r.chosen() == self.chosen(),
    {
        let mut r = self;
        r.header.other = fields;
        r
    }
}

impl<E: Extension> RevisitBuilder<E> {
    /// Build the record header without a content block.
    #[must_use]
    pub fn build(self) -> (r: RecordHeader<E>)
        ensures
            r == RecordHeader::Revisit(self.head()),
    {
        RecordHeader::Revisit(self.header)
    }

    /// Build a record with the given content block.
    ///
    /// # Errors
    ///
    /// Returns [`BlockError::ContentLengthMismatch`] if the builder was told a `Content-Length`
    /// this block does not have. A `revisit` record under the identical payload digest profile that
    /// carries a block without declaring it truncated is refused when it is written.
    pub fn body(self, body: Vec<u8>) -> (r: Result<Record<E>, BlockError>)
        ensures
            is_built(r, RecordHeader::Revisit(self.head()), body@, self.chosen()),
    {
        let digests = self.digests;
        match RecordHeader::Revisit(self.header).with_body(body) {
            Ok(record) => Ok(add_digests(record, digests)),
            Err(error) => Err(error),
        }
    }
}

/// A builder for a `warcinfo` record, which describes the records that follow it.
#[must_use]
pub fn warcinfo<E: Extension>(date: WarcDate) -> (
    r: WarcinfoBuilder<E>
) where E::WarcinfoFields: Default
    ensures
        r.is_new(WarcVersion::V1_0, date),
{
    proof {
        lemma_redescribed(WarcVersion::V1_1, WarcVersion::V1_0);
    }
    WarcinfoBuilder::new(date).into_v1_0()
}

/// A builder for a `metadata` record, which describes another record.
#[must_use]
pub fn metadata<E: Extension>(date: WarcDate) -> (
    r: MetadataBuilder<E>
) where E::MetadataFields: Default
    ensures
        r.is_new(WarcVersion::V1_0, date),
{
    MetadataBuilder::new(date).into_v1_0()
}

/// A builder for a `response` record, which holds a complete scheme-specific response.
///
/// # Errors
///
/// Returns an error if the target URI is not a URI.
pub fn response<E: Extension>(target_uri: &str, date: WarcDate) -> (
    r: Result<ResponseBuilder<E>, uri::Error>
) where
    E::ResponseFields: Default,

    ensures
        match r {
            Ok(builder) => is_uri(target_uri@) && builder.is_new(
                WarcVersion::V1_0,
                target_uri@,
                date,
            ),
            Err(error) => uri_fault(target_uri@) == Some(error.0@),
        },
{
    match ResponseBuilder::new(target_uri, date) {
        Ok(builder) => Ok(builder.into_v1_0()),
        Err(error) => Err(error),
    }
}

/// A builder for a `resource` record, which holds a resource without protocol information.
///
/// # Errors
///
/// Returns an error if the target URI is not a URI.
pub fn resource<E: Extension>(target_uri: &str, date: WarcDate) -> (
    r: Result<ResourceBuilder<E>, uri::Error>
) where
    E::ResourceFields: Default,

    ensures
        match r {
            Ok(builder) => is_uri(target_uri@) && builder.is_new(
                WarcVersion::V1_0,
                target_uri@,
                date,
            ),
            Err(error) => uri_fault(target_uri@) == Some(error.0@),
        },
{
    match ResourceBuilder::new(target_uri, date) {
        Ok(builder) => Ok(builder.into_v1_0()),
        Err(error) => Err(error),
    }
}

/// A builder for a `request` record, which holds a complete scheme-specific request.
///
/// # Errors
///
/// Returns an error if the target URI is not a URI.
pub fn request<E: Extension>(target_uri: &str, date: WarcDate) -> (
    r: Result<RequestBuilder<E>, uri::Error>
) where
    E::RequestFields: Default,

    ensures
        match r {
            Ok(builder) => is_uri(target_uri@) && builder.is_new(
                WarcVersion::V1_0,
                target_uri@,
                date,
            ),
            Err(error) => uri_fault(target_uri@) == Some(error.0@),
        },
{
    match RequestBuilder::new(target_uri, date) {
        Ok(builder) => Ok(builder.into_v1_0()),
        Err(error) => Err(error),
    }
}

/// A builder for a `conversion` record, which holds another record's content converted.
///
/// # Errors
///
/// Returns an error if the target URI is not a URI.
pub fn conversion<E: Extension>(target_uri: &str, date: WarcDate) -> (
    r: Result<ConversionBuilder<E>, uri::Error>
) where
    E::ConversionFields: Default,

    ensures
        match r {
            Ok(builder) => is_uri(target_uri@) && builder.is_new(
                WarcVersion::V1_0,
                target_uri@,
                date,
            ),
            Err(error) => uri_fault(target_uri@) == Some(error.0@),
        },
{
    match ConversionBuilder::new(target_uri, date) {
        Ok(builder) => Ok(builder.into_v1_0()),
        Err(error) => Err(error),
    }
}

/// A builder for a `revisit` record, which stands in for content already archived.
///
/// # Errors
///
/// Returns an error if the target URI is not a URI.
pub fn revisit<E: Extension>(target_uri: &str, date: WarcDate, profile: RevisitProfile) -> (r: Result<
    RevisitBuilder<E>,
    uri::Error,
>) where E::RevisitFields: Default
    ensures
        match r {
            Ok(builder) => is_uri(target_uri@) && builder.is_new(target_uri@, date, profile),
            Err(error) => uri_fault(target_uri@) == Some(error.0@),
        },
{
    RevisitBuilder::new(target_uri, date, profile)
}

/// A builder for a `continuation` record, which holds a later segment of a block.
///
/// # Errors
///
/// Returns [`Error::NotAUri`] if the target URI is not a URI, and [`Error::MalformedField`] when
/// the segment number is below `2`.
pub fn continuation<E: Extension>(
    target_uri: &str,
    date: WarcDate,
    segment_number: u64,
    segment_origin_id: Uri,
) -> (r: Result<ContinuationBuilder<E>, Error>) where E::ContinuationFields: Default
    ensures
        match r {
            Ok(builder) => {
                &&& continuation_fault(target_uri@, segment_number) is None
                &&& builder.is_new(
                    WarcVersion::V1_0,
                    target_uri@,
                    date,
                    segment_number,
                    segment_origin_id,
                )
            },
            Err(error) => continuation_fault(target_uri@, segment_number) == Some(error@),
        },
{
    match ContinuationBuilder::new(target_uri, date, segment_number, segment_origin_id) {
        Ok(builder) => Ok(builder.into_v1_0()),
        Err(error) => Err(error),
    }
}

/// A builder for a record type defined by the extension.
///
/// This is unavailable under [`NoExtension`] because its
/// [`Never`](crate::record::extension::Never) type has no values.
#[must_use]
pub fn other<E: Extension>(date: WarcDate, extension: E::Types) -> (r: OtherBuilder<E>)
    ensures
        r.is_new(WarcVersion::V1_0, date, extension),
{
    OtherBuilder::new(date, extension).into_v1_0()
}

} // verus!
