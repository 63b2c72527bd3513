//! Records of a capture.

use archivindex_warc::record::capture::{CaptureEvent, CaptureRecords, RevisitOriginal};
use archivindex_warc::record::digest::added_digest;
use archivindex_warc::record::error::{BlockError, RenderError};
use archivindex_warc::record::header::truncated_type::TruncatedType;
use archivindex_warc::record::header::{RevisitHeader, RevisitProfile};
use archivindex_warc::record::Record;
use archivindex_warc::value::date::{UtcDateTime, WarcDate};
use archivindex_warc::value::digest::{DigestAlgorithm, DigestFormat, LabelledDigest};
use archivindex_warc::value::ip::IpAddress;
use archivindex_warc::value::media_type::MediaType;
use archivindex_warc::value::uri::Uri;
use archivindex_warc::version::WarcVersion;

/// When the captures start.
fn date() -> WarcDate {
    WarcDate::from(UtcDateTime::new(2026, 7, 26, 1, 2, 3, 456_000_000).expect("an instant"))
}

/// The profile of a revisit to a payload that was archived already.
fn identical_payload_digest() -> RevisitProfile {
    RevisitProfile::IdenticalPayloadDigest(WarcVersion::V1_1)
}

/// The profile of a revisit that the server says is not modified.
fn server_not_modified() -> RevisitProfile {
    RevisitProfile::ServerNotModified(WarcVersion::V1_1)
}

const REQUEST_BLOCK: &[u8] = b"GET / HTTP/1.1\r\nhost: example.com\r\n\r\n";
const RESPONSE_BLOCK: &[u8] = b"HTTP/1.1 200 OK\r\ncontent-length: 5\r\n\r\nhello";

fn target_uri() -> Uri {
    Uri::parse("https://example.com/").expect("a URI")
}

fn warcinfo_id() -> Uri {
    Uri::parse("urn:uuid:5d472f79-4d95-4bcd-9b7f-b06d9ff68e33").expect("a URI")
}

fn entity_body_digest(entity_body: &[u8]) -> LabelledDigest {
    added_digest(
        &DigestFormat::recommended(DigestAlgorithm::Sha256),
        entity_body,
    )
}

#[test]
fn the_records_share_the_capture_fields_and_link_in_write_order() {
    let ip_address = IpAddress::parse(b"127.0.0.1").expect("an address");
    let records: CaptureRecords = CaptureEvent::new(target_uri(), date())
        .warcinfo_id(warcinfo_id())
        .ip_address(ip_address)
        .payload_digest(entity_body_digest(b"hello"))
        .fetch_time(1500)
        .exchange(REQUEST_BLOCK.to_vec(), RESPONSE_BLOCK.to_vec())
        .expect("a capture");

    let Record::Request {
        header: request,
        body: request_body,
    } = &records.request
    else {
        panic!("not a request record");
    };
    let Record::Response {
        header: response,
        body: response_body,
    } = &records.response
    else {
        panic!("not a response record");
    };
    let Record::Metadata {
        header: metadata, ..
    } = records.metadata.as_ref().expect("a metadata record")
    else {
        panic!("not a metadata record");
    };

    assert_eq!(request_body, REQUEST_BLOCK);
    assert_eq!(response_body, RESPONSE_BLOCK);

    assert_eq!(request.core.date, response.core.date);
    assert_eq!(request.core.date, metadata.core.date);
    assert_eq!(request.target_uri, target_uri());
    assert_eq!(response.target_uri, target_uri());
    assert_eq!(metadata.target_uri, Some(target_uri()));

    assert!(request.concurrent_to.is_empty());
    assert_eq!(
        response.concurrent_to,
        std::slice::from_ref(&request.core.record_id)
    );
    assert_eq!(
        metadata.concurrent_to,
        std::slice::from_ref(&response.core.record_id)
    );
    assert_ne!(request.core.record_id, response.core.record_id);

    assert_eq!(request.warcinfo_id, Some(warcinfo_id()));
    assert_eq!(response.warcinfo_id, Some(warcinfo_id()));
    assert_eq!(metadata.warcinfo_id, Some(warcinfo_id()));

    assert_eq!(request.ip_address, None);
    assert_eq!(response.ip_address, Some(ip_address));
    assert_eq!(
        response.payload.payload_digest,
        Some(entity_body_digest(b"hello"))
    );

    records.request.into_raw().expect("a renderable request");
    records.response.into_raw().expect("a renderable response");
}

/// Identification is opt-in and applies only to the response record.
#[test]
fn a_capture_identifies_the_response_payload_only_when_told_to() {
    let response_block: &[u8] = b"HTTP/1.1 200 OK\r\n\
        content-type: application/json\r\n\
        content-length: 15\r\n\
        \r\n\
        {\"key\": [1, 2]}";
    let identified_type = |record: &Record| {
        record
            .payload()
            .and_then(|headers| headers.identified_payload_type.clone())
    };

    let records: CaptureRecords = CaptureEvent::new(target_uri(), date())
        .identify_payload_type()
        .exchange(REQUEST_BLOCK.to_vec(), response_block.to_vec())
        .expect("a capture");

    assert_eq!(identified_type(&records.response), Some(MediaType::json()));
    assert_eq!(identified_type(&records.request), None);
    assert_eq!(
        records.revisit_original().identified_payload_type,
        Some(MediaType::json())
    );
    records.response.into_raw().expect("a renderable response");

    let records: CaptureRecords = CaptureEvent::new(target_uri(), date())
        .exchange(REQUEST_BLOCK.to_vec(), response_block.to_vec())
        .expect("a capture");

    assert_eq!(identified_type(&records.response), None);
}

/// An unidentified payload leaves the field off rather than failing the capture.
#[test]
fn a_capture_told_to_identify_omits_the_field_it_cannot_fill() {
    let records: CaptureRecords = CaptureEvent::new(target_uri(), date())
        .identify_payload_type()
        .exchange(
            REQUEST_BLOCK.to_vec(),
            b"HTTP/1.1 200 OK\r\ncontent-length: 4\r\n\r\n\0\0\0\0".to_vec(),
        )
        .expect("a capture");

    assert_eq!(
        records
            .response
            .payload()
            .and_then(|headers| headers.identified_payload_type.clone()),
        None
    );
}

#[test]
fn a_capture_without_a_fetch_time_has_no_metadata_record() {
    let records: CaptureRecords = CaptureEvent::new(target_uri(), date())
        .exchange(REQUEST_BLOCK.to_vec(), RESPONSE_BLOCK.to_vec())
        .expect("a capture");

    assert!(records.metadata.is_none());
}

#[test]
fn a_truncation_reason_lands_on_the_response_record_alone() {
    let records: CaptureRecords = CaptureEvent::new(target_uri(), date())
        .payload_digest(entity_body_digest(b"other"))
        .truncated(TruncatedType::Length)
        .exchange(REQUEST_BLOCK.to_vec(), RESPONSE_BLOCK.to_vec())
        .expect("a capture");

    assert_eq!(records.request.core_fields().truncated, None);
    assert_eq!(
        records.response.core_fields().truncated,
        Some(TruncatedType::Length)
    );

    records
        .response
        .into_raw()
        .expect("a renderable truncated response despite the mismatched digest");
}

const NOT_MODIFIED_BLOCK: &[u8] = b"HTTP/1.1 304 Not Modified\r\netag: \"1\"\r\n\r\n";

fn original() -> CaptureRecords {
    CaptureEvent::new(target_uri(), date())
        .payload_digest(entity_body_digest(b"hello"))
        .exchange(REQUEST_BLOCK.to_vec(), RESPONSE_BLOCK.to_vec())
        .expect("a capture")
}

fn revisit_header(records: &CaptureRecords) -> &RevisitHeader {
    let Record::Revisit { header, .. } = &records.response else {
        panic!("not a revisit record");
    };

    header
}

#[test]
fn a_capture_names_the_original_later_revisits_refer_to() {
    let records = original();

    assert_eq!(
        records.revisit_original(),
        RevisitOriginal {
            record_id: records.response.core_fields().record_id.clone(),
            target_uri: target_uri(),
            date: records.response.core_fields().date,
            identified_payload_type: None,
        }
    );
}

#[test]
fn a_revisit_repeats_the_identified_payload_type_of_its_original() {
    let mut original = original().revisit_original();
    original.identified_payload_type = Some(MediaType::text_plain());
    let records: CaptureRecords = CaptureEvent::new(target_uri(), date())
        .payload_digest(entity_body_digest(b"hello"))
        .revisit_exchange(
            REQUEST_BLOCK.to_vec(),
            Vec::new(),
            identical_payload_digest(),
            original,
        )
        .expect("a revisit capture");

    assert_eq!(
        revisit_header(&records).payload.identified_payload_type,
        Some(MediaType::text_plain())
    );
    records.response.into_raw().expect("a renderable revisit");
}

#[test]
fn an_identical_payload_revisit_stores_a_truncated_head_referring_to_the_original() {
    let original = original();
    let ip_address = IpAddress::parse(b"127.0.0.1").expect("an address");
    let head = &RESPONSE_BLOCK[..RESPONSE_BLOCK.len() - b"hello".len()];
    let records: CaptureRecords = CaptureEvent::new(target_uri(), date())
        .warcinfo_id(warcinfo_id())
        .ip_address(ip_address)
        .payload_digest(entity_body_digest(b"hello"))
        .truncated(TruncatedType::Disconnect)
        .fetch_time(20)
        .revisit_exchange(
            REQUEST_BLOCK.to_vec(),
            head.to_vec(),
            identical_payload_digest(),
            original.revisit_original(),
        )
        .expect("a revisit capture");

    let revisit = revisit_header(&records);
    let Record::Metadata {
        header: metadata, ..
    } = records.metadata.as_ref().expect("a metadata record")
    else {
        panic!("not a metadata record");
    };

    assert_eq!(revisit.profile, identical_payload_digest());
    assert_eq!(revisit.target_uri, target_uri());
    assert_eq!(
        revisit.refers_to.as_ref(),
        Some(&original.response.core_fields().record_id)
    );
    assert_eq!(revisit.refers_to_target_uri, Some(target_uri()));
    assert_eq!(revisit.refers_to_date, Some(original.response.core_fields().date));
    assert_eq!(
        revisit.payload.payload_digest,
        Some(entity_body_digest(b"hello"))
    );
    assert_eq!(revisit.core.content_type, Some(MediaType::http_response()));
    assert_eq!(revisit.core.truncated, Some(TruncatedType::Length));
    assert_eq!(revisit.warcinfo_id, Some(warcinfo_id()));
    assert_eq!(revisit.ip_address, Some(ip_address));
    assert_eq!(
        revisit.concurrent_to,
        std::slice::from_ref(&records.request.core_fields().record_id)
    );
    assert_eq!(
        metadata.concurrent_to,
        std::slice::from_ref(&revisit.core.record_id)
    );
    assert_eq!(records.response.body_bytes().as_ref(), head);

    records.request.into_raw().expect("a renderable request");
    records.response.into_raw().expect("a renderable revisit");
}

#[test]
fn an_identical_payload_revisit_without_a_block_is_not_truncated() {
    let records: CaptureRecords = CaptureEvent::new(target_uri(), date())
        .payload_digest(entity_body_digest(b"hello"))
        .truncated(TruncatedType::Disconnect)
        .revisit_exchange(
            REQUEST_BLOCK.to_vec(),
            Vec::new(),
            identical_payload_digest(),
            original().revisit_original(),
        )
        .expect("a revisit capture");

    let revisit = revisit_header(&records);
    assert_eq!(revisit.core.truncated, None);
    assert_eq!(revisit.core.content_type, None);
    records.response.into_raw().expect("a renderable revisit");
}

#[test]
fn a_server_not_modified_revisit_stores_the_response_as_received() {
    let records: CaptureRecords = CaptureEvent::new(target_uri(), date())
        .payload_digest(entity_body_digest(b"hello"))
        .revisit_exchange(
            REQUEST_BLOCK.to_vec(),
            NOT_MODIFIED_BLOCK.to_vec(),
            server_not_modified(),
            original().revisit_original(),
        )
        .expect("a revisit capture");

    let revisit = revisit_header(&records);
    assert_eq!(revisit.profile, server_not_modified());
    assert_eq!(revisit.core.truncated, None);
    assert_eq!(revisit.core.content_type, Some(MediaType::http_response()));
    assert_eq!(
        revisit.payload.payload_digest,
        Some(entity_body_digest(b"hello"))
    );
    assert_eq!(records.response.body_bytes().as_ref(), NOT_MODIFIED_BLOCK);
    assert!(records.metadata.is_none());

    records.response.into_raw().expect("a renderable revisit");
}

#[test]
fn a_server_not_modified_revisit_keeps_the_event_truncation_reason() {
    let records: CaptureRecords = CaptureEvent::new(target_uri(), date())
        .truncated(TruncatedType::Disconnect)
        .revisit_exchange(
            REQUEST_BLOCK.to_vec(),
            NOT_MODIFIED_BLOCK.to_vec(),
            server_not_modified(),
            original().revisit_original(),
        )
        .expect("a revisit capture");

    assert_eq!(
        revisit_header(&records).core.truncated,
        Some(TruncatedType::Disconnect)
    );
}

#[test]
fn an_identical_payload_revisit_without_a_digest_fails_rendering() {
    let records: CaptureRecords = CaptureEvent::new(target_uri(), date())
        .revisit_exchange(
            REQUEST_BLOCK.to_vec(),
            Vec::new(),
            identical_payload_digest(),
            original().revisit_original(),
        )
        .expect("a revisit capture");

    assert!(matches!(
        records.response.into_raw(),
        Err(RenderError::MissingProfileField(_))
    ));
}

#[test]
fn a_mismatched_payload_digest_fails_rendering_the_response() {
    let records: CaptureRecords = CaptureEvent::new(target_uri(), date())
        .payload_digest(entity_body_digest(b"other"))
        .exchange(REQUEST_BLOCK.to_vec(), RESPONSE_BLOCK.to_vec())
        .expect("a capture");

    assert!(matches!(
        records.response.into_raw(),
        Err(RenderError::Block(BlockError::PayloadDigestMismatch { .. }))
    ));
}
