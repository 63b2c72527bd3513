//! Records of a single capture event.
//!
//! A capture produces linked `request` and `response` records and, when a fetch time is set, a
//! `metadata` record. [`CaptureEvent`] holds their shared fields, and
//! [`exchange`](CaptureEvent::exchange) returns the records in write order.
//! [`revisit_exchange`](CaptureEvent::revisit_exchange) substitutes a `revisit` record that refers
//! to previously archived content.

use crate::parsing::decimal_text;
use crate::record::block::block_octets;
use crate::record::builder::{is_fresh, is_uuid_urn};
use crate::record::builder::{MetadataBuilder, RequestBuilder};
use crate::record::extension::{Extension, NoExtension};
use crate::record::fields::metadata;
use crate::record::header::truncated_type::TruncatedType;
use crate::record::header::{
    CoreHeaders, RequestHeader, ResponseHeader, RevisitHeader, RevisitProfile,
};
use crate::record::identify::{http_identified, http_payload_type};
use crate::record::lift::{shown, uri_texts};
use crate::record::write::revisit_fault;
use crate::record::{BlockError, FieldsBlock, Record, RecordHeader};
use crate::value::media_type::{media_with, plain_media, Media};
use crate::value::{IpAddress, LabelledDigest, MediaType, Uri, WarcDate};
use crate::version::WarcVersion;
use vstd::prelude::*;

verus! {

/// Fields shared by the records of one target capture.
///
/// Set optional fields, then call [`exchange`](Self::exchange) or
/// [`revisit_exchange`](Self::revisit_exchange) with the captured messages.
#[derive(Clone, Debug)]
pub struct CaptureEvent<E: Extension = NoExtension> {
    target_uri: Uri,
    date: WarcDate,
    warcinfo_id: Option<Uri>,
    ip_address: Option<IpAddress>,
    payload_digest: Option<LabelledDigest>,
    truncated: Option<TruncatedType<E::TruncatedReasons>>,
    fetch_time: Option<u128>,
    identify_payload_type: bool,
}

/// What a [`CaptureEvent`] holds.
#[verifier::reject_recursive_types(E)]
pub ghost struct Event<E: Extension> {
    /// The target URI.
    pub target_uri: Seq<char>,
    /// The date.
    pub date: WarcDate,
    /// The `warcinfo` record that describes the capture records.
    pub warcinfo_id: Option<Seq<char>>,
    /// The address that the response came from.
    pub ip_address: Option<IpAddress>,
    /// The digest of the captured or revisited payload.
    pub payload_digest: Option<LabelledDigest>,
    /// Why the response is truncated.
    pub truncated: Option<TruncatedType<E::TruncatedReasons>>,
    /// How many milliseconds the capture took.
    pub fetch_time: Option<u128>,
    /// Whether the payload of the response is identified.
    pub identify_payload_type: bool,
}

impl<E: Extension> View for CaptureEvent<E> {
    type V = Event<E>;

    closed spec fn view(&self) -> Event<E> {
        Event {
            target_uri: self.target_uri@,
            date: self.date,
            warcinfo_id: shown(self.warcinfo_id),
            ip_address: self.ip_address,
            payload_digest: self.payload_digest,
            truncated: self.truncated,
            fetch_time: self.fetch_time,
            identify_payload_type: self.identify_payload_type,
        }
    }
}

/// The media type of an archived HTTP request.
pub open spec fn request_media() -> Media {
    media_with("application"@, "http"@, "msgtype"@, "request"@)
}

/// The media type of an archived HTTP response.
pub open spec fn response_media() -> Media {
    media_with("application"@, "http"@, "msgtype"@, "response"@)
}

/// Whether core fields are those of a capture record: a fresh identifier, the date of the event,
/// the media type of the block, and a truncation reason.
pub open spec fn is_captured<E: Extension>(
    core: CoreHeaders<E>,
    event: Event<E>,
    content_type: Option<Media>,
    truncated: Option<TruncatedType<E::TruncatedReasons>>,
) -> bool {
    &&& is_uuid_urn(core.record_id@)
    &&& core.date == event.date
    &&& core.content_length is None
    &&& core.block_digest is None
    &&& shown(core.content_type) == content_type
    &&& core.truncated == truncated
    &&& core.unrecognized@.len() == 0
}

/// Whether a header is that of the `request` record of an event.
pub open spec fn is_request_header<E: Extension>(
    header: RequestHeader<E>,
    event: Event<E>,
) -> bool where
    E::RequestFields: Default,
 {
    &&& header.version == WarcVersion::V1_1
    &&& is_captured(header.core, event, Some(request_media()), None)
    &&& header.payload.is_none()
    &&& header.target_uri@ == event.target_uri
    &&& shown(header.warcinfo_id) == event.warcinfo_id
    &&& header.ip_address is None
    &&& header.concurrent_to@.len() == 0
    &&& !header.segment_origin
    &&& call_ensures(E::RequestFields::default, (), header.other)
}

/// Whether a header is that of the `response` record of an event, for the response that was
/// received and the identifier of the `request` record.
pub open spec fn is_response_header<E: Extension>(
    header: ResponseHeader<E>,
    event: Event<E>,
    response: Seq<u8>,
    request_id: Seq<char>,
) -> bool where E::ResponseFields: Default {
    &&& header.version == WarcVersion::V1_1
    &&& is_captured(header.core, event, Some(response_media()), event.truncated)
    &&& header.payload.payload_digest == event.payload_digest
    &&& shown(header.payload.identified_payload_type) == if event.identify_payload_type {
        http_identified(response)
    } else {
        None
    }
    &&& header.target_uri@ == event.target_uri
    &&& shown(header.warcinfo_id) == event.warcinfo_id
    &&& header.ip_address == event.ip_address
    &&& uri_texts(header.concurrent_to@) == seq![request_id]
    &&& !header.segment_origin
    &&& call_ensures(E::ResponseFields::default, (), header.other)
}

/// Why the block of a `revisit` record is truncated.
///
/// A non-empty response head under the `identical-payload-digest` profile is truncated to a length,
/// and an empty one not at all. Any other block is truncated as the event is.
pub open spec fn revisit_truncation<E: Extension>(
    event: Event<E>,
    response: Seq<u8>,
    identical: bool,
) -> Option<TruncatedType<E::TruncatedReasons>> {
    if !identical {
        event.truncated
    } else if response.len() > 0 {
        Some(TruncatedType::Length)
    } else {
        None
    }
}

/// Whether a header is that of the `revisit` record of an event, for the response that was received,
/// the identifier of the `request` record, the profile, and the record that is revisited.
pub open spec fn is_revisit_header<E: Extension>(
    header: RevisitHeader<E>,
    event: Event<E>,
    response: Seq<u8>,
    request_id: Seq<char>,
    profile: RevisitProfile,
    original: RevisitOriginal,
) -> bool where E::RevisitFields: Default {
    &&& header.version == WarcVersion::V1_1
    &&& is_captured(
        header.core,
        event,
        if response.len() > 0 {
            Some(response_media())
        } else {
            None
        },
        revisit_truncation(event, response, profile@ is IdenticalPayloadDigest),
    )
    &&& header.payload.payload_digest == event.payload_digest
    &&& header.payload.identified_payload_type == original.identified_payload_type
    &&& header.target_uri@ == event.target_uri
    &&& shown(header.warcinfo_id) == event.warcinfo_id
    &&& header.profile == profile
    &&& header.ip_address == event.ip_address
    &&& uri_texts(header.concurrent_to@) == seq![request_id]
    &&& header.refers_to == Some(original.record_id)
    &&& header.refers_to_target_uri == Some(original.target_uri)
    &&& header.refers_to_date == Some(original.date)
    &&& !header.segment_origin
    &&& call_ensures(E::RevisitFields::default, (), header.other)
}

/// Whether a record is the `metadata` record of an event that took so many milliseconds, for the
/// record that it describes.
pub open spec fn is_metadata_record<E: Extension>(
    record: Record<E>,
    event: Event<E>,
    milliseconds: u128,
    record_id: Seq<char>,
) -> bool where E::MetadataFields: Default {
    record matches Record::Metadata { header, body } && body matches FieldsBlock::Fields(fields)
        && {
        &&& fields@.fields == seq![
            (metadata::Named::FetchTimeMs, decimal_text(milliseconds as nat)),
        ]
        &&& fields@.source is None
        &&& header.version == WarcVersion::V1_1
        &&& header.core.content_length == Some(block_octets(body).len() as u64)
        &&& is_fresh(
            CoreHeaders { content_length: None, ..header.core },
            event.date,
            Some(plain_media("application"@, "warc-fields"@)),
        )
        &&& shown(header.target_uri) == Some(event.target_uri)
        &&& shown(header.warcinfo_id) == event.warcinfo_id
        &&& header.ip_address is None
        &&& uri_texts(header.concurrent_to@) == seq![record_id]
        &&& header.refers_to is None
        &&& !header.segment_origin
        &&& call_ensures(E::MetadataFields::default, (), header.other)
    }
}

/// Whether an optional record is the `metadata` record of an event, which there is where a fetch
/// time is set.
pub open spec fn is_metadata<E: Extension>(
    record: Option<Record<E>>,
    event: Event<E>,
    record_id: Seq<char>,
) -> bool where E::MetadataFields: Default {
    match (event.fetch_time, record) {
        (Some(milliseconds), Some(record)) => is_metadata_record(
            record,
            event,
            milliseconds,
            record_id,
        ),
        (None, None) => true,
        _ => false,
    }
}

/// A list of one URI.
proof fn lemma_one_uri(uris: Seq<Uri>, uri: Seq<char>)
    requires
        uris.len() == 1,
        uris[0]@ == uri,
    ensures
        uri_texts(uris) == seq![uri],
{
    assert(uri_texts(uris) =~= seq![uri]);
}

impl<E: Extension> CaptureEvent<E> {
    /// Create a capture event for a target URI and date.
    #[must_use]
    pub fn new(target_uri: Uri, date: WarcDate) -> (r: Self)
        ensures
            r@ == (Event::<E> {
                target_uri: target_uri@,
                date,
                warcinfo_id: None,
                ip_address: None,
                payload_digest: None,
                truncated: None,
                fetch_time: None,
                identify_payload_type: false,
            }),
    {
        CaptureEvent {
            target_uri,
            date,
            warcinfo_id: None,
            ip_address: None,
            payload_digest: None,
            truncated: None,
            fetch_time: None,
            identify_payload_type: false,
        }
    }

    /// Set the `WARC-Warcinfo-ID` shared by the capture records.
    #[must_use]
    pub fn warcinfo_id(self, record_id: Uri) -> (r: Self)
        ensures
            r@ == (Event { warcinfo_id: Some(record_id@), ..self@ }),
    {
        let mut r = self;
        r.warcinfo_id = Some(record_id);
        r
    }

    /// Set the response record's `WARC-IP-Address`.
    #[must_use]
    pub fn ip_address(self, ip_address: IpAddress) -> (r: Self)
        ensures
            r@ == (Event { ip_address: Some(ip_address), ..self@ }),
    {
        let mut r = self;
        r.ip_address = Some(ip_address);
        r
    }

    /// Set `WARC-Payload-Digest` for the captured or revisited payload.
    ///
    /// A response record checks the digest when rendered. A `revisit` record uses it to identify
    /// the payload of the original record.
    #[must_use]
    pub fn payload_digest(self, digest: LabelledDigest) -> (r: Self)
        ensures
            r@ == (Event { payload_digest: Some(digest), ..self@ }),
    {
        let mut r = self;
        r.payload_digest = Some(digest);
        r
    }

    /// Set the response or `revisit` record's `WARC-Truncated` reason.
    ///
    /// An `identical-payload-digest` revisit ignores this reason; a non-empty response head uses
    /// `length`. A truncated record's payload digest is not checked when rendered.
    #[must_use]
    pub fn truncated(self, reason: TruncatedType<E::TruncatedReasons>) -> (r: Self)
        ensures
            r@ == (Event { truncated: Some(reason), ..self@ }),
    {
        let mut r = self;
        r.truncated = Some(reason);
        r
    }

    /// Set the time from initiating network traffic to completing the capture, in whole
    /// milliseconds.
    ///
    /// Setting a fetch time adds a `metadata` record containing `fetchTimeMs`.
    #[must_use]
    pub fn fetch_time(self, milliseconds: u128) -> (r: Self)
        ensures
            r@ == (Event { fetch_time: Some(milliseconds), ..self@ }),
    {
        let mut r = self;
        r.fetch_time = Some(milliseconds);
        r
    }

    /// Identify the response payload and set `WARC-Identified-Payload-Type`.
    ///
    /// Uses [`http_payload_type`], which examines the payload instead of copying the response's
    /// `Content-Type`. The field is omitted when no type can be determined.
    #[must_use]
    pub fn identify_payload_type(self) -> (r: Self)
        ensures
            r@ == (Event { identify_payload_type: true, ..self@ }),
    {
        let mut r = self;
        r.identify_payload_type = true;
        r
    }

    /// Build the capture records in write order from the captured messages.
    ///
    /// Any declared payload digest is checked later, when the response record is rendered.
    ///
    /// # Errors
    ///
    /// Returns [`BlockError`] if a message cannot be paired with its record header, which no message
    /// fails to be here, since neither record declares a length of its own.
    pub fn exchange(self, request: Vec<u8>, response: Vec<u8>) -> (r: Result<
        CaptureRecords<E>,
        BlockError,
    >) where E::RequestFields: Default, E::ResponseFields: Default, E::MetadataFields: Default
        ensures
            r is Ok,
            is_request(r->Ok_0.request, self@, request@),
            is_response(
                r->Ok_0.response,
                self@,
                response@,
                r->Ok_0.request.core_headers().record_id@,
            ),
            is_metadata(
                r->Ok_0.metadata,
                self@,
                r->Ok_0.response.core_headers().record_id@,
            ),
    {
        let request = match self.request_record(request) {
            Ok(request) => request,
            Err(error) => {
                return Err(error);
            },
        };
        let request_id = request.core_fields().record_id.clone();
        let ghost named = request_id@;
        let mut builder = Record::<E>::response(self.target_uri.as_str(), self.date).unwrap();
        builder = builder.concurrent_to(request_id);
        proof {
            lemma_one_uri(builder.head().concurrent_to@, named);
        }
        if self.identify_payload_type {
            match http_payload_type(response.as_slice()) {
                Some(media_type) => {
                    builder = builder.identified_payload_type(media_type);
                },
                None => {},
            }
        }
        let ghost event = self@;
        let CaptureEvent {
            target_uri,
            date,
            warcinfo_id,
            ip_address,
            payload_digest,
            truncated,
            fetch_time,
            identify_payload_type: _,
        } = self;
        match payload_digest {
            Some(digest) => {
                builder = builder.payload_digest(digest);
            },
            None => {},
        }
        match &warcinfo_id {
            Some(warcinfo_id) => {
                builder = builder.warcinfo_id(warcinfo_id.clone());
            },
            None => {},
        }
        match ip_address {
            Some(ip_address) => {
                builder = builder.ip_address(ip_address);
            },
            None => {},
        }
        match truncated {
            Some(reason) => {
                builder = builder.truncated(reason);
            },
            None => {},
        }
        let ghost header = builder.head();
        let ghost block = response@;
        assert(is_response_header(header, event, block, named));
        let response = match builder.body(response) {
            Ok(response) => response,
            Err(error) => {
                return Err(error);
            },
        };
        assert(response.is_made_of(RecordHeader::Response(header), block));
        let response_id = response.core_fields().record_id.clone();
        let metadata = metadata_record(target_uri, date, warcinfo_id, fetch_time, response_id);
        Ok(CaptureRecords { request, response, metadata })
    }

    /// Build capture records with a `revisit` record in place of the response.
    ///
    /// `profile` determines what `response` contains. For `identical-payload-digest`, it is an
    /// optional response head. A non-empty head is marked `WARC-Truncated: length`, as WARC 1.1
    /// clause 6.7.2 requires; this profile ignores any truncation reason set on the event. For
    /// `server-not-modified`, it is the received `304 Not Modified` response and keeps the event's
    /// truncation reason. Any non-empty block is typed `application/http; msgtype=response`.
    ///
    /// The event's payload digest describes the revisited payload. The `identical-payload-digest`
    /// profile requires it. Payload identification is skipped because a revisit has no payload of
    /// its own; the original's identified payload type is repeated instead.
    ///
    /// # Errors
    ///
    /// Returns [`BlockError`] if a message cannot be paired with its record header, which no message
    /// fails to be here, since neither record declares a length of its own.
    pub fn revisit_exchange(
        self,
        request: Vec<u8>,
        response: Vec<u8>,
        profile: RevisitProfile,
        original: RevisitOriginal,
    ) -> (r: Result<CaptureRecords<E>, BlockError>) where
        E::RequestFields: Default,
        E::RevisitFields: Default,
        E::MetadataFields: Default,

        ensures
            r is Ok,
            is_request(r->Ok_0.request, self@, request@),
            is_revisit(
                r->Ok_0.response,
                self@,
                response@,
                r->Ok_0.request.core_headers().record_id@,
                profile,
                original,
            ),
            is_metadata(
                r->Ok_0.metadata,
                self@,
                r->Ok_0.response.core_headers().record_id@,
            ),
    {
        let request = match self.request_record(request) {
            Ok(request) => request,
            Err(error) => {
                return Err(error);
            },
        };
        let request_id = request.core_fields().record_id.clone();
        let ghost named = request_id@;
        let ghost event = self@;
        let identical = match &profile {
            RevisitProfile::IdenticalPayloadDigest(_) => true,
            _ => false,
        };
        let ghost stated = profile;
        let mut builder = Record::<E>::revisit(
            self.target_uri.as_str(),
            self.date,
            profile,
        ).unwrap();
        builder = builder.concurrent_to(request_id);
        proof {
            lemma_one_uri(builder.head().concurrent_to@, named);
        }
        let ghost revisited = original;
        let RevisitOriginal {
            record_id: original_id,
            target_uri: original_uri,
            date: original_date,
            identified_payload_type,
        } = original;
        builder = builder.refers_to(original_id).refers_to_target_uri(original_uri).refers_to_date(
            original_date,
        );
        let CaptureEvent {
            target_uri,
            date,
            warcinfo_id,
            ip_address,
            payload_digest,
            truncated: event_truncated,
            fetch_time,
            identify_payload_type: _,
        } = self;
        let truncated = if identical {
            if response.len() > 0 {
                Some(TruncatedType::Length)
            } else {
                None
            }
        } else {
            event_truncated
        };
        if response.len() > 0 {
            builder = builder.content_type(MediaType::http_response());
        }
        match payload_digest {
            Some(digest) => {
                builder = builder.payload_digest(digest);
            },
            None => {},
        }
        match identified_payload_type {
            Some(media_type) => {
                builder = builder.identified_payload_type(media_type);
            },
            None => {},
        }
        match &warcinfo_id {
            Some(warcinfo_id) => {
                builder = builder.warcinfo_id(warcinfo_id.clone());
            },
            None => {},
        }
        match ip_address {
            Some(ip_address) => {
                builder = builder.ip_address(ip_address);
            },
            None => {},
        }
        match truncated {
            Some(reason) => {
                builder = builder.truncated(reason);
            },
            None => {},
        }
        let ghost header = builder.head();
        let ghost block = response@;
        assert(is_revisit_header(header, event, block, named, stated, revisited));
        let revisit = match builder.body(response) {
            Ok(revisit) => revisit,
            Err(error) => {
                return Err(error);
            },
        };
        assert(revisit.is_made_of(RecordHeader::Revisit(header), block));
        let revisit_id = revisit.core_fields().record_id.clone();
        let metadata = metadata_record(target_uri, date, warcinfo_id, fetch_time, revisit_id);
        Ok(CaptureRecords { request, response: revisit, metadata })
    }

    /// Build the `request` record with the capture's shared fields.
    fn request_record(&self, request: Vec<u8>) -> (r: Result<Record<E>, BlockError>) where
        E::RequestFields: Default,

        ensures
            r is Ok,
            is_request(r->Ok_0, self@, request@),
    {
        let builder = self.request_builder();
        let ghost header = builder.head();
        let ghost block = request@;
        let r = builder.body(request);
        assert(r is Ok);
        assert(r->Ok_0.is_made_of(RecordHeader::Request(header), block));
        r
    }

    /// Build the `request` record's header with the capture's shared fields.
    fn request_builder(&self) -> (r: RequestBuilder<E>) where E::RequestFields: Default
        ensures
            is_request_header(r.head(), self@),
            r.chosen() is None,
    {
        // The target URI has already been parsed, so parsing it again cannot fail.
        let mut builder = Record::<E>::request(self.target_uri.as_str(), self.date).unwrap();
        match &self.warcinfo_id {
            Some(warcinfo_id) => {
                builder = builder.warcinfo_id(warcinfo_id.clone());
            },
            None => {},
        }
        builder
    }
}

/// Build metadata for a record when a fetch time is set.
fn metadata_record<E: Extension>(
    target_uri: Uri,
    date: WarcDate,
    warcinfo_id: Option<Uri>,
    fetch_time: Option<u128>,
    record_id: Uri,
) -> (r: Option<Record<E>>) where E::MetadataFields: Default
    ensures
        forall|event: Event<E>|
            event.target_uri == target_uri@ && event.date == date && event.warcinfo_id == shown(
                warcinfo_id,
            ) && event.fetch_time == fetch_time ==> #[trigger] is_metadata(r, event, record_id@),
{
    match fetch_time {
        None => None,
        Some(fetch_time) => {
            let ghost named = record_id@;
            let mut builder: MetadataBuilder<E> = Record::<E>::metadata(date);
            builder = builder.target_uri(target_uri).concurrent_to(record_id);
            proof {
                lemma_one_uri(builder.head().concurrent_to@, named);
                lemma_first_field(
                    builder.fields()@.fields,
                    metadata::Named::FetchTimeMs,
                    decimal_text(fetch_time as nat),
                );
            }
            builder = builder.fetch_time_ms(fetch_time);
            match warcinfo_id {
                Some(warcinfo_id) => {
                    builder = builder.warcinfo_id(warcinfo_id);
                },
                None => {},
            }
            Some(builder.build())
        },
    }
}

/// Setting a field of an empty body leaves that field alone.
proof fn lemma_first_field(
    fields: Seq<(metadata::Named, Seq<char>)>,
    field: metadata::Named,
    value: Seq<char>,
)
    requires
        fields.len() == 0,
    ensures
        crate::record::fields::replaced(fields, field, value) == seq![(field, value)],
{
    assert(fields.skip(0) =~= fields);
    assert(crate::record::fields::replaced(fields, field, value) =~= seq![(field, value)]);
}

/// Whether a record is the `request` record of an event.
pub open spec fn is_request<E: Extension>(
    record: Record<E>,
    event: Event<E>,
    request: Seq<u8>,
) -> bool where
    E::RequestFields: Default,
 {
    exists|header: RequestHeader<E>|
        is_request_header(header, event) && #[trigger] record.is_made_of(
            RecordHeader::Request(header),
            request,
        )
}

/// Whether a record is the `response` record of an event.
pub open spec fn is_response<E: Extension>(
    record: Record<E>,
    event: Event<E>,
    response: Seq<u8>,
    request_id: Seq<char>,
) -> bool where E::ResponseFields: Default {
    exists|header: ResponseHeader<E>|
        is_response_header(header, event, response, request_id) && #[trigger] record.is_made_of(
            RecordHeader::Response(header),
            response,
        )
}

/// Whether a record is the `revisit` record of an event.
pub open spec fn is_revisit<E: Extension>(
    record: Record<E>,
    event: Event<E>,
    response: Seq<u8>,
    request_id: Seq<char>,
    profile: RevisitProfile,
    original: RevisitOriginal,
) -> bool where E::RevisitFields: Default {
    exists|header: RevisitHeader<E>|
        is_revisit_header(header, event, response, request_id, profile, original)
            && #[trigger] record.is_made_of(RecordHeader::Revisit(header), response)
}

/// The records of one capture, in write order.
///
/// The response names the request with `WARC-Concurrent-To`, and the optional metadata record
/// names the response. Thus every reference points backward when the fields are written in order.
#[derive(Clone, Debug, Eq, PartialEq)]
pub struct CaptureRecords<E: Extension = NoExtension> {
    /// The captured request.
    pub request: Record<E>,
    /// The captured response, or its `revisit` substitute, linked to [`request`](Self::request).
    pub response: Record<E>,
    /// Optional fetch metadata linked to [`response`](Self::response).
    pub metadata: Option<Record<E>>,
}

impl<E: Extension> CaptureRecords<E> {
    /// Return the response identity needed by
    /// [`revisit_exchange`](CaptureEvent::revisit_exchange).
    #[must_use]
    pub fn revisit_original(&self) -> (r: RevisitOriginal)
        requires
            self.response.target() is Some,
        ensures
            r.record_id@ == self.response.core_headers().record_id@,
            Some(r.target_uri@) == self.response.target(),
            r.date == self.response.core_headers().date,
            shown(r.identified_payload_type) == match self.response.payload_headers() {
                Some(headers) => shown(headers.identified_payload_type),
                None => None,
            },
    {
        RevisitOriginal {
            record_id: self.response.core_fields().record_id.clone(),
            target_uri: self.response.target_uri().unwrap().clone(),
            date: self.response.core_fields().date,
            identified_payload_type: match self.response.payload() {
                Some(headers) => match &headers.identified_payload_type {
                    Some(media_type) => Some(media_type.clone()),
                    None => None,
                },
                None => None,
            },
        }
    }
}

/// The identity of the record a `revisit` refers to.
#[derive(Clone, Debug, Eq, PartialEq)]
pub struct RevisitOriginal {
    /// The original record's `WARC-Record-ID`, named by `WARC-Refers-To`.
    pub record_id: Uri,
    /// The original record's target URI, named by `WARC-Refers-To-Target-URI`.
    pub target_uri: Uri,
    /// The original record's `WARC-Date`, named by `WARC-Refers-To-Date`.
    pub date: WarcDate,
    /// The original record's `WARC-Identified-Payload-Type`, which the revisit repeats since it
    /// stands for the same payload.
    pub identified_payload_type: Option<MediaType>,
}

/// A `revisit` record of an event that has a payload digest meets what its profile asks of a writer:
/// it declares the digest, and that its block is truncated where it holds one.
pub proof fn lemma_revisit_meets_its_profile<E: Extension>(
    header: RevisitHeader<E>,
    event: Event<E>,
    response: Seq<u8>,
    request_id: Seq<char>,
    profile: RevisitProfile,
    original: RevisitOriginal,
) where E::RevisitFields: Default
    requires
        is_revisit_header(header, event, response, request_id, profile, original),
        event.payload_digest is Some,
    ensures
        revisit_fault(header, shown(header.payload.payload_digest), response.len()) is None,
{
}

/// Whether a record is a WARC 1.1 record of an event: it is about the target of the event, at its
/// date, described by the same `warcinfo` record, and no segment of another.
pub open spec fn is_of_event<E: Extension>(record: Record<E>, event: Event<E>) -> bool {
    &&& record.declared_version() == WarcVersion::V1_1
    &&& record.target() == Some(event.target_uri)
    &&& record.core_headers().date == event.date
    &&& record.describing() == event.warcinfo_id
    &&& record.segment() is None
    &&& record.core_headers().block_digest is None
}

/// The records of a capture hold the messages as they were captured, share what the event says, and
/// refer backward: the response names the request alone, and the metadata names the response alone.
/// The response alone is truncated, has the address and the payload digest of the event, and the
/// payload type that it is identified as where that is asked for. There is metadata exactly where a
/// fetch time is set.
pub proof fn lemma_capture_records_are_linked<E: Extension>(
    request: Record<E>,
    response: Record<E>,
    metadata: Option<Record<E>>,
    event: Event<E>,
    sent: Seq<u8>,
    received: Seq<u8>,
) where E::RequestFields: Default, E::ResponseFields: Default, E::MetadataFields: Default
    requires
        is_request(request, event, sent),
        is_response(response, event, received, request.core_headers().record_id@),
        is_metadata(metadata, event, response.core_headers().record_id@),
    ensures
        request is Request && is_of_event(request, event),
        request.block() == sent,
        request.concurrent() == Seq::<Seq<char>>::empty(),
        request.address() is None,
        request.core_headers().truncated is None,
        request.payload_headers()->0.payload_digest is None,
        shown(request.core_headers().content_type) == Some(
            media_with("application"@, "http"@, "msgtype"@, "request"@),
        ),
        response is Response && is_of_event(response, event),
        response.block() == received,
        response.concurrent() == seq![request.core_headers().record_id@],
        response.address() == event.ip_address,
        response.core_headers().truncated == event.truncated,
        response.payload_headers()->0.payload_digest == event.payload_digest,
        event.identify_payload_type ==> shown(
            response.payload_headers()->0.identified_payload_type,
        ) == http_identified(received),
        !event.identify_payload_type
            ==> response.payload_headers()->0.identified_payload_type is None,
        shown(response.core_headers().content_type) == Some(
            media_with("application"@, "http"@, "msgtype"@, "response"@),
        ),
        metadata is Some <==> event.fetch_time is Some,
        metadata matches Some(record) ==> {
            &&& record is Metadata && is_of_event(record, event)
            &&& record.concurrent() == seq![response.core_headers().record_id@]
            &&& record.address() is None
            &&& record.core_headers().truncated is None
            &&& record->Metadata_body matches FieldsBlock::Fields(fields)
            &&& fields@.fields == seq![
                (metadata::Named::FetchTimeMs, decimal_text(event.fetch_time->0 as nat)),
            ]
        },
{
    let header = choose|header: RequestHeader<E>|
        is_request_header(header, event) && #[trigger] request.is_made_of(
            RecordHeader::Request(header),
            sent,
        );
    assert(request.is_made_of(RecordHeader::Request(header), sent));
    assert(request.concurrent() =~= Seq::<Seq<char>>::empty());
    let other = choose|header: ResponseHeader<E>|
        is_response_header(header, event, received, request.core_headers().record_id@)
            && #[trigger] response.is_made_of(RecordHeader::Response(header), received);
    assert(response.is_made_of(RecordHeader::Response(other), received));
}

/// The records of a revisit hold the messages as they were captured, share what the event says, and
/// refer backward as those of a capture do. The revisit names its original in all three ways, and
/// repeats the type that its payload was identified as. Under the profile of an identical payload
/// digest its block is truncated to a length where it holds one, whatever the event says.
pub proof fn lemma_revisit_records_are_linked<E: Extension>(
    request: Record<E>,
    revisit: Record<E>,
    event: Event<E>,
    sent: Seq<u8>,
    received: Seq<u8>,
    profile: RevisitProfile,
    original: RevisitOriginal,
) where E::RequestFields: Default, E::RevisitFields: Default
    requires
        is_request(request, event, sent),
        is_revisit(
            revisit,
            event,
            received,
            request.core_headers().record_id@,
            profile,
            original,
        ),
    ensures
        request is Request && is_of_event(request, event),
        request.block() == sent,
        request.concurrent() == Seq::<Seq<char>>::empty(),
        revisit is Revisit && is_of_event(revisit, event),
        revisit.block() == received,
        revisit.concurrent() == seq![request.core_headers().record_id@],
        revisit.address() == event.ip_address,
        revisit.referred() == Some(original.record_id@),
        shown(revisit->Revisit_header.refers_to_target_uri) == Some(original.target_uri@),
        shown(revisit->Revisit_header.refers_to_date) == Some(original.date@),
        revisit->Revisit_header.profile == profile,
        revisit.payload_headers()->0.payload_digest == event.payload_digest,
        revisit.payload_headers()->0.identified_payload_type == original.identified_payload_type,
        profile@ is IdenticalPayloadDigest && received.len() > 0
            ==> revisit.core_headers().truncated == Some(
            TruncatedType::<E::TruncatedReasons>::Length,
        ),
        profile@ is IdenticalPayloadDigest && received.len() == 0
            ==> revisit.core_headers().truncated is None,
        !(profile@ is IdenticalPayloadDigest) ==> revisit.core_headers().truncated
            == event.truncated,
{
    let header = choose|header: RequestHeader<E>|
        is_request_header(header, event) && #[trigger] request.is_made_of(
            RecordHeader::Request(header),
            sent,
        );
    assert(request.is_made_of(RecordHeader::Request(header), sent));
    assert(request.concurrent() =~= Seq::<Seq<char>>::empty());
    let other = choose|header: RevisitHeader<E>|
        is_revisit_header(
            header,
            event,
            received,
            request.core_headers().record_id@,
            profile,
            original,
        ) && #[trigger] revisit.is_made_of(RecordHeader::Revisit(header), received);
    assert(revisit.is_made_of(RecordHeader::Revisit(other), received));
}

} // verus!
