//! Records that are built rather than read.

use archivindex_warc::parse::{raw, untyped};
use archivindex_warc::parse::untyped::name::Field;
use archivindex_warc::record::block::FieldsBlock;
use archivindex_warc::record::builder::{specification_uri, v1_0};
use archivindex_warc::record::digest::{added_digest, verify_block_digest};
use archivindex_warc::record::error::{BlockError, Error};
use archivindex_warc::record::extension::{
    Extension, ExtensionRecordType, Never, NoExtension, NoFields, Spelling,
};
use archivindex_warc::record::fields;
use archivindex_warc::record::fields::metadata::MetadataField;
use archivindex_warc::record::header::truncated_type::TruncatedType;
use archivindex_warc::record::header::RevisitProfile;
use archivindex_warc::record::{Record, RecordHeader};
use archivindex_warc::value::date::WarcDate;
use archivindex_warc::value::digest::{
    DigestAlgorithm, DigestEncoding, DigestFormat, LabelledDigest,
};
use archivindex_warc::value::hash::Supported;
use archivindex_warc::value::ip::IpAddress;
use archivindex_warc::value::media_type::MediaType;
use archivindex_warc::value::text::Error as TextError;
use archivindex_warc::value::uri::Uri;
use archivindex_warc::version::WarcVersion;

/// The profile of a revisit to a payload that was archived already.
fn identical_payload_digest() -> RevisitProfile {
    RevisitProfile::IdenticalPayloadDigest(WarcVersion::V1_1)
}

/// A record with the length that its rendering declares.
fn as_rendered<E: Extension>(mut record: Record<E>) -> Record<E> {
    let length = record.content_length();
    record.core_mut().content_length = Some(length);
    record
}

const RECORD_ID: &str = "urn:uuid:00000000-0000-0000-0000-000000000001";
const OTHER_ID: &str = "urn:uuid:00000000-0000-0000-0000-000000000002";
const TARGET_URI: &str = "https://example.com/index.html";
const DATE: &str = "2020-07-08T02:52:55Z";

fn uri(value: &str) -> Uri {
    Uri::parse(value).expect("well-formed URI")
}

fn date() -> WarcDate {
    WarcDate::parse(DATE, WarcVersion::V1_1).expect("a date at the second precision")
}

/// The HTTP block used by the digest tests.
const RESPONSE_BLOCK: &str = "HTTP/1.1 200 OK\r\n\r\nhello";

/// The entity-body of [`RESPONSE_BLOCK`].
const RESPONSE_PAYLOAD: &str = "hello";

fn digest() -> LabelledDigest {
    LabelledDigest::new("sha1", "3I42H3S6NNFQ2MSVX7XZKYAYSCX5QBYJ").expect("a labelled digest")
}

/// The value a written record carries for the named field, as text.
fn written(record: &raw::Record, name: &str) -> Option<String> {
    record
        .header
        .get(name)
        .map(|value| String::from_utf8_lossy(value).trim().to_owned())
}

/// Write a built record and read it back, which is the check that every field the builder
/// set is a field the standard permits the record type and that the record says the same
/// thing at either end.
fn round_trip(record: &Record) -> Record {
    let raw = record
        .clone()
        .into_raw()
        .expect("a record built here is writable");
    let grammar = untyped::Record::try_from(raw).expect("a written record reads as grammar");

    Record::try_from(grammar).expect("a written record reads as itself")
}

/// One record of each type the standard defines, built with the fields its builder offers.
fn records() -> Vec<Record> {
    vec![
        Record::warcinfo(date())
            .filename("example.warc")
            .expect("a file name")
            .software("archivindex-warc", "0.1.0")
            .expect("a writable field")
            .build(),
        Record::response(TARGET_URI, date())
            .expect("a well-formed target URI")
            .block_digest(added_digest(
                &DigestFormat::recommended(DigestAlgorithm::Sha256),
                RESPONSE_BLOCK.as_bytes(),
            ))
            .payload_digest(added_digest(
                &DigestFormat::recommended(DigestAlgorithm::Sha1),
                RESPONSE_PAYLOAD.as_bytes(),
            ))
            .ip_address(IpAddress::parse(b"192.0.2.1").expect("an address"))
            .concurrent_to(uri(OTHER_ID))
            .warcinfo_id(uri(OTHER_ID))
            .body(RESPONSE_BLOCK.as_bytes().to_vec())
            .expect("a record"),
        Record::resource(TARGET_URI, date())
            .expect("a well-formed target URI")
            .truncated(TruncatedType::Length)
            .body("hello".as_bytes().to_vec())
            .expect("a record"),
        Record::request(TARGET_URI, date())
            .expect("a well-formed target URI")
            .identified_payload_type(MediaType::text_plain())
            .body("GET / HTTP/1.1\r\n\r\n".as_bytes().to_vec())
            .expect("a record"),
        Record::metadata(date())
            .target_uri(uri(TARGET_URI))
            .refers_to(uri(OTHER_ID))
            .via("https://example.com/")
            .expect("a writable field")
            .build(),
        Record::revisit(TARGET_URI, date(), identical_payload_digest())
            .expect("a well-formed target URI")
            .payload_digest(digest())
            .refers_to(uri(OTHER_ID))
            .refers_to_target_uri(uri(TARGET_URI))
            .refers_to_date(date())
            .body("".as_bytes().to_vec())
            .expect("a record"),
        Record::conversion(TARGET_URI, date())
            .expect("a well-formed target URI")
            .refers_to(uri(OTHER_ID))
            .body("converted".as_bytes().to_vec())
            .expect("a record"),
        Record::continuation(TARGET_URI, date(), 2, uri(OTHER_ID))
            .expect("a continuation")
            .segment_total_length(14)
            .body("second segment".as_bytes().to_vec())
            .expect("a record"),
    ]
}

/// Every record a builder builds is a record the standard permits, which is what reading
/// back what it is written as establishes.
#[test]
fn a_built_record_reads_back_as_itself() {
    for record in records() {
        assert_eq!(round_trip(&record), as_rendered(record));
    }
}

/// A continuation is numbered from `2`, since the origin record is segment `1`.
#[test]
fn a_continuation_is_numbered_from_two() {
    for segment_number in [0, 1] {
        let refused = Record::<NoExtension>::continuation(
            TARGET_URI,
            date(),
            segment_number,
            uri(OTHER_ID),
        );

        assert_eq!(
            refused.err(),
            Some(Error::MalformedField {
                field: Field::SegmentNumber,
                value: segment_number.to_string(),
            })
        );
    }
}

/// A record must carry an identifier, so a builder not told one names the record itself:
/// each record built without one is built under a fresh `urn:uuid` name.
#[test]
fn a_builder_not_told_an_identifier_names_the_record_itself() -> Result<(), BlockError> {
    let record: Record = Record::response(TARGET_URI, date())
        .expect("a well-formed target URI")
        .body("".as_bytes().to_vec())?;
    let another: Record = Record::response(TARGET_URI, date())
        .expect("a well-formed target URI")
        .body("".as_bytes().to_vec())?;

    let fresh = record.core_fields().record_id.as_str();
    assert!(fresh.starts_with("urn:uuid:"));
    assert_eq!(fresh.len(), 45);
    for (i, c) in fresh.char_indices().skip(9) {
        match i {
            17 | 22 | 27 | 32 => assert_eq!(c, '-'),
            23 => assert_eq!(c, '4'),
            28 => assert!("89ab".contains(c)),
            _ => assert!("0123456789abcdef".contains(c)),
        }
    }
    assert_ne!(record.core_fields().record_id, another.core_fields().record_id);
    assert_eq!(round_trip(&record), as_rendered(record));

    Ok(())
}

/// A caller whose identifiers are its own says so, and the identifier it gives is the one
/// the record is written under.
#[test]
fn an_identifier_the_caller_gave_is_the_one_written() -> Result<(), BlockError> {
    let record: Record = Record::response(TARGET_URI, date())
        .expect("a well-formed target URI")
        .record_id(uri(RECORD_ID))
        .body("".as_bytes().to_vec())?;

    assert_eq!(record.core_fields().record_id.as_str(), RECORD_ID);

    let raw = record.into_raw().expect("a record built here is writable");

    assert_eq!(
        written(&raw, "WARC-Record-ID"),
        Some(format!("<{RECORD_ID}>"))
    );

    Ok(())
}

/// The `digests` option selects the algorithm used for added digests.
#[test]
fn a_builder_told_an_algorithm_writes_its_digests() -> Result<(), BlockError> {
    let record: Record = Record::response(TARGET_URI, date())
        .expect("a well-formed target URI")
        .digests(Supported::Sha1)
        .body(RESPONSE_BLOCK.as_bytes().to_vec())?;
    let block_digest = record.core_fields().block_digest.as_ref().map(|digest| digest.to_string());
    let payload_digest = record
        .payload()
        .and_then(|headers| headers.payload_digest.as_ref())
        .map(|digest| digest.to_string());

    assert_eq!(
        block_digest.as_deref(),
        Some("sha1:IORUMWLIBUO53GZZJS7FEOU3IDD3AFBH")
    );
    assert_eq!(
        payload_digest.as_deref(),
        Some("sha1:VL2MMHO4YXUKFWV63YHTWSBM3GXKSQ2N")
    );
    assert_eq!(round_trip(&record), record);

    Ok(())
}

/// A body the builder wrote is digested in its rendered form.
#[test]
fn a_fields_body_is_digested_as_it_is_written() -> Result<(), fields::Error> {
    let record: Record = Record::metadata(date())
        .digests(Supported::Sha1)
        .via("http://www.archive.org/")?
        .build();
    let written = record.core_fields().block_digest.as_ref().map(|digest| digest.to_string());

    assert_eq!(
        written.as_deref(),
        Some("sha1:LIXK6ZKWZ7NJHZ2PLYGDQEZJJH4QM4IB")
    );
    assert_eq!(round_trip(&record), record);

    Ok(())
}

/// A caller-provided digest takes precedence over the `digests` option.
#[test]
fn a_digest_the_caller_gave_outranks_the_digests_option() -> Result<(), BlockError> {
    let record: Record = Record::response(TARGET_URI, date())
        .expect("a well-formed target URI")
        .digests(Supported::Sha1)
        .block_digest(added_digest(
                &DigestFormat::recommended(DigestAlgorithm::Sha256), b"hello"))
        .body("hello".as_bytes().to_vec())?;

    assert_eq!(
        record.core_fields().block_digest,
        Some(added_digest(
                &DigestFormat::recommended(DigestAlgorithm::Sha256), b"hello"))
    );

    Ok(())
}

/// `build` returns the same header that `body` uses to create a record.
#[test]
fn a_builder_ended_with_build_builds_the_header_block_alone() -> Result<(), BlockError> {
    let block_digest = added_digest(
                &DigestFormat::recommended(DigestAlgorithm::Sha1), b"hello");
    // Set body-dependent fields explicitly so the header and record are comparable.
    let header: RecordHeader = Record::response(TARGET_URI, date())
        .expect("a well-formed target URI")
        .record_id(uri(RECORD_ID))
        .block_digest(block_digest.clone())
        .content_length(5)
        .build();
    let record: Record = Record::response(TARGET_URI, date())
        .expect("a well-formed target URI")
        .record_id(uri(RECORD_ID))
        .block_digest(block_digest)
        .body("hello".as_bytes().to_vec())?;

    assert_eq!(header.record_type_name(), "response");
    assert_eq!(header.core_fields(), record.core_fields());
    assert_eq!(record.body_bytes().as_ref(), b"hello");

    Ok(())
}

/// A block written as `warc-fields` is declared as those fields, so that the record it is
/// written into reads back as the fields it was built from rather than as octets.
#[test]
fn a_block_written_as_fields_declares_itself_as_them() {
    let record: Record = Record::warcinfo(date())
        .software("archivindex-warc", "0.1.0")
        .expect("a writable field")
        .build();

    assert!(
        record
            .core_fields()
            .content_type
            .as_ref()
            .is_some_and(|content_type| content_type.is("application", "warc-fields"))
    );
    assert_eq!(round_trip(&record), as_rendered(record.clone()));
    assert!(matches!(
        record,
        Record::Warcinfo {
            body: FieldsBlock::Fields(_),
            ..
        }
    ));
}

/// A `warcinfo` body starts by identifying its WARC version, and `build` writes those fields
/// as the record block.
#[test]
fn a_warcinfo_body_opens_describing_the_standard() {
    let record: Record = Record::warcinfo(date()).build();

    assert_eq!(
        String::from_utf8_lossy(&record.body_bytes()),
        format!(
            "format: WARC file version 1.1\r\n\
             conformsTo: {}\r\n",
            specification_uri(WarcVersion::V1_1)
        )
    );
    assert_eq!(round_trip(&record), as_rendered(record.clone()));
}

/// An `operator` includes the email address only when provided.
#[test]
fn an_operator_is_written_with_its_optional_email_address() -> Result<(), fields::Error> {
    let with_email: Record = Record::warcinfo(date())
        .operator("A. N. Operator", Some("operator@example.com"))?
        .build();
    let without_email: Record = Record::warcinfo(date())
        .operator("A. N. Operator", None)?
        .build();

    assert!(
        String::from_utf8_lossy(&with_email.body_bytes())
            .contains("operator: A. N. Operator <operator@example.com>\r\n")
    );
    assert!(
        String::from_utf8_lossy(&without_email.body_bytes())
            .contains("operator: A. N. Operator\r\n")
    );

    Ok(())
}

/// Setting a field again replaces its value without moving it or creating a duplicate.
#[test]
fn a_warcinfo_setter_replaces_the_value_the_body_already_carries() -> Result<(), fields::Error>
{
    let record: Record = Record::warcinfo(date())
        .software("wget", "1.21")?
        .hostname("crawling017.archive.org")?
        .software("heritrix", "3.4.0")?
        .ip(IpAddress::parse(b"207.241.227.234").expect("an address"))
        .is_part_of("testcrawl-20050708")?
        .build();

    assert_eq!(
        String::from_utf8_lossy(&record.body_bytes()),
        format!(
            "format: WARC file version 1.1\r\n\
             conformsTo: {}\r\n\
             software: heritrix/3.4.0\r\n\
             hostname: crawling017.archive.org\r\n\
             ip: 207.241.227.234\r\n\
             isPartOf: testcrawl-20050708\r\n",
            specification_uri(WarcVersion::V1_1)
        )
    );
    assert_eq!(round_trip(&record), as_rendered(record.clone()));

    Ok(())
}

/// A `metadata` body opens empty, so a record built from one holds only what its setters
/// were told.
#[test]
fn a_metadata_body_holds_only_what_its_setters_were_told() -> Result<(), fields::Error> {
    let empty: Record = Record::metadata(date()).build();

    assert_eq!(empty.body_bytes().as_ref(), b"");

    let record: Record = Record::metadata(date())
        .via("http://www.archive.org/")?
        .hops_from_seed(&"E".parse().expect("a path"))
        .fetch_time_ms(565)
        .build();

    assert_eq!(
        String::from_utf8_lossy(&record.body_bytes()),
        "via: http://www.archive.org/\r\nhopsFromSeed: E\r\nfetchTimeMs: 565\r\n"
    );
    assert_eq!(round_trip(&record), as_rendered(record.clone()));

    Ok(())
}

/// A field the setters do not name is written by name, and each call adds a value rather
/// than replacing the one before it, since a `warc-fields` body may repeat a field.
#[test]
fn a_field_written_by_name_adds_a_value_rather_than_replacing_one() -> Result<(), fields::Error>
{
    let record: Record = Record::metadata(date())
        .field(MetadataField::Other("x-note".to_owned()), "first")?
        .field(MetadataField::Other("x-note".to_owned()), "second")?
        .build();

    assert_eq!(
        String::from_utf8_lossy(&record.body_bytes()),
        "x-note: first\r\nx-note: second\r\n"
    );
    assert_eq!(round_trip(&record), as_rendered(record.clone()));

    Ok(())
}

/// A record type whose block has a customary media type is built declaring it, and the
/// declaration is written as the standard spells it.
#[test]
fn a_record_type_with_a_customary_media_type_declares_it() -> Result<(), Error> {
    let declared = |header: RecordHeader| header.core_fields().content_type.clone();

    // The two types whose block is `warc-fields` are built as records rather than headers.
    assert_eq!(
        Record::<NoExtension>::warcinfo(date())
            .build()
            .core_fields()
            .content_type,
        Some(MediaType::warc_fields())
    );
    assert_eq!(
        Record::<NoExtension>::metadata(date())
            .build()
            .core_fields()
            .content_type,
        Some(MediaType::warc_fields())
    );
    assert_eq!(
        declared(
            Record::request(TARGET_URI, date())
                .expect("a well-formed target URI")
                .build()
        ),
        Some(MediaType::http_request())
    );
    assert_eq!(
        declared(
            Record::response(TARGET_URI, date())
                .expect("a well-formed target URI")
                .build()
        ),
        Some(MediaType::http_response())
    );

    // Every other type holds whatever the record it was made from held, so its builder
    // declares nothing.
    assert_eq!(
        declared(
            Record::resource(TARGET_URI, date())
                .expect("a well-formed target URI")
                .build()
        ),
        None
    );
    assert_eq!(
        declared(
            Record::conversion(TARGET_URI, date())
                .expect("a well-formed target URI")
                .build()
        ),
        None
    );
    assert_eq!(
        declared(
            Record::revisit(TARGET_URI, date(), identical_payload_digest())
                .expect("a well-formed target URI")
                .build()
        ),
        None
    );
    assert_eq!(
        declared(Record::continuation(TARGET_URI, date(), 2, uri(OTHER_ID))?.build()),
        None
    );

    let record: Record = Record::response(TARGET_URI, date())
        .expect("a well-formed target URI")
        .body(RESPONSE_BLOCK.as_bytes().to_vec())
        .expect("a record");
    let raw = record.into_raw().expect("a record built here is writable");

    assert_eq!(
        written(&raw, "Content-Type").as_deref(),
        Some("application/http;msgtype=response")
    );

    Ok(())
}

/// A file name is written under the `TEXT` rule, so a name that is not text is refused where
/// it is given rather than where the record is written.
#[test]
fn a_file_name_that_is_not_text_is_refused() {
    let refused = Record::<NoExtension>::warcinfo(date()).filename("example\n.warc");

    assert_eq!(
        refused.err(),
        Some(TextError::ControlCharacter {
            value: "example\n.warc".to_owned(),
            index: 7,
        })
    );
}

/// A target URI is read where it is given, so a value that is not a URI is refused there
/// rather than where the record is written.
#[test]
fn a_target_uri_that_is_not_a_uri_is_refused() {
    let refused = Record::<NoExtension>::response("not a URI", date());

    assert_eq!(
        refused.err(),
        Some(Uri::parse("not a URI").expect_err("not a URI"))
    );
}

/// A `continuation` builder reports both of the values it can be given that no record could
/// carry, so the target URI it refuses names the field it was given for.
#[test]
fn a_continuation_target_uri_that_is_not_a_uri_is_refused() {
    let refused = Record::<NoExtension>::continuation("not a URI", date(), 2, uri(OTHER_ID));

    assert_eq!(
        refused.err(),
        Some(Error::NotAUri {
            field: Field::TargetURI,
            source: Uri::parse("not a URI").expect_err("not a URI"),
        })
    );
}

/// A body the builder writes declares what it renders as, since that is what the record
/// carrying it is written under.
#[test]
fn a_fields_body_declares_the_length_it_renders_as() {
    let record: Record = Record::warcinfo(date())
        .software("archivindex-warc", "0.1.0")
        .expect("a writable field")
        .build();

    assert_eq!(record.core_fields().content_length, Some(record.content_length()));
    assert_eq!(record.content_length(), record.body_bytes().len() as u64);
}

/// A vocabulary standing in for a small archiving extension, which defines one record type
/// and adds nothing to the types the standard defines.
#[derive(Clone, Copy, Debug, Eq, PartialEq)]
struct Sitemaps;

#[derive(Clone, Copy, Debug, Eq, PartialEq)]
struct SitemapType;

impl ExtensionRecordType for SitemapType {
    fn spelled(&self) -> Spelling {
        unreachable!("nothing runs a specification")
    }

    fn of_name(_name: Spelling) -> Option<Self> {
        unreachable!("nothing runs a specification")
    }

    fn spelling(&self) -> &str {
        "sitemap"
    }

    fn from_type_name(name: &str) -> Option<Self> {
        (name == "sitemap").then_some(Self)
    }
}

impl Extension for Sitemaps {
    type Types = SitemapType;
    type TruncatedReasons = Never;
    type WarcinfoFields = NoFields;
    type ResponseFields = NoFields;
    type ResourceFields = NoFields;
    type RequestFields = NoFields;
    type MetadataFields = NoFields;
    type RevisitFields = NoFields;
    type ConversionFields = NoFields;
    type ContinuationFields = NoFields;
}

/// A record under an extension is built the same way, through the record it is a record of,
/// and one of a type the extension defines is written under the name that type gives itself.
#[test]
fn a_record_of_an_extension_type_is_built_under_the_name_its_type_gives_itself()
-> Result<(), BlockError> {
    let record = Record::<Sitemaps>::other(date(), SitemapType)
        .segment_origin()
        .body("<urlset></urlset>".as_bytes().to_vec())?;

    assert_eq!(record.record_type_name(), "sitemap");
    assert_eq!(record.segment_number(), Some(1));

    let raw = record
        .clone()
        .into_raw()
        .expect("a record built here is writable");
    let grammar = untyped::Record::try_from(raw).expect("a written record reads as grammar");

    assert_eq!(
        Record::<Sitemaps>::try_from(grammar).expect("a written record reads as itself"),
        as_rendered(record)
    );

    let response = Record::<Sitemaps>::response(TARGET_URI, date())
        .expect("a well-formed target URI")
        .body("HTTP/1.1 200 OK\r\n\r\n".as_bytes().to_vec())?;

    assert_eq!(response.record_type_name(), "response");

    Ok(())
}

/// Every entry point in [`v1_0`] declares WARC 1.0, which is the whole of what the module
/// adds over the entry points on [`Record`].
#[test]
fn every_warc_1_0_entry_point_declares_warc_1_0() -> Result<(), Error> {
    const TARGET: &str = "a well-formed target URI";

    let headers: Vec<RecordHeader> = vec![
        v1_0::response(TARGET_URI, date()).expect(TARGET).build(),
        v1_0::resource(TARGET_URI, date()).expect(TARGET).build(),
        v1_0::request(TARGET_URI, date()).expect(TARGET).build(),
        v1_0::revisit(
            TARGET_URI,
            date(),
            RevisitProfile::ServerNotModified(WarcVersion::V1_0),
        )
        .expect(TARGET)
        .build(),
        v1_0::conversion(TARGET_URI, date()).expect(TARGET).build(),
        v1_0::continuation(TARGET_URI, date(), 2, uri(OTHER_ID))?.build(),
    ];

    for header in headers {
        assert_eq!(header.version(), WarcVersion::V1_0);
    }

    // The two types whose block is `warc-fields` are built as records rather than headers.
    assert_eq!(
        v1_0::warcinfo::<NoExtension>(date()).build().version(),
        WarcVersion::V1_0
    );
    assert_eq!(
        v1_0::metadata::<NoExtension>(date()).build().version(),
        WarcVersion::V1_0
    );

    Ok(())
}

/// A `warcinfo` record built for WARC 1.0 says so in the body it opens with, since the
/// fields that name the standard are the ones the file's version selects.
#[test]
fn a_warcinfo_built_for_warc_1_0_describes_warc_1_0() {
    let record: Record = v1_0::warcinfo(date()).build();

    assert_eq!(
        String::from_utf8_lossy(&record.body_bytes()),
        format!(
            "format: WARC file version 1.0\r\n\
             conformsTo: {}\r\n",
            specification_uri(WarcVersion::V1_0)
        )
    );
    assert_eq!(round_trip(&record), as_rendered(record.clone()));
}

/// A `revisit` record built for WARC 1.0 carries no field WARC 1.0 does not define, so it
/// is written as a WARC 1.0 record without anything being refused.
#[test]
fn a_revisit_built_for_warc_1_0_is_written_as_warc_1_0() -> Result<(), BlockError> {
    let record: Record = v1_0::revisit(
        TARGET_URI,
        date(),
        RevisitProfile::ServerNotModified(WarcVersion::V1_0),
    )
    .expect("a well-formed target URI")
    .body("".as_bytes().to_vec())?;

    // The builder declares the version, so the record is written as WARC 1.0 without
    // anything else being said.
    assert_eq!(record.version(), WarcVersion::V1_0);

    let raw = record
        .into_raw()
        .expect("a record built for WARC 1.0 is writable as one");

    assert_eq!(raw.header.version, WarcVersion::V1_0);
    assert_eq!(
        written(&raw, "WARC-Profile").as_deref(),
        Some("<http://netpreserve.org/warc/1.0/revisit/server-not-modified>")
    );

    Ok(())
}

/// A record built by a [`v1_0`] entry point is written as the version it declares: WARC 1.0
/// brackets every URI-valued field where WARC 1.1 brackets only the five naming a record.
#[test]
fn a_record_is_written_as_the_version_its_builder_declared() -> Result<(), BlockError> {
    let record: Record = v1_0::response(TARGET_URI, date())
        .expect("a well-formed target URI")
        .body("HTTP/1.1 200 OK\r\n\r\n".as_bytes().to_vec())?;

    assert_eq!(record.version(), WarcVersion::V1_0);
    assert_eq!(round_trip(&record), as_rendered(record.clone()));

    let raw = record.into_raw().expect("a record built here is writable");

    assert_eq!(raw.header.version, WarcVersion::V1_0);
    assert_eq!(
        written(&raw, "WARC-Target-URI"),
        Some(format!("<{TARGET_URI}>"))
    );

    Ok(())
}

/// What is read back of a written record is written as the same lines.
#[test]
fn a_record_read_back_is_written_as_it_was() -> Result<(), BlockError> {
    let record: Record = Record::response(TARGET_URI, date())
        .expect("a well-formed target URI")
        .record_id(uri(RECORD_ID))
        .digests(Supported::Sha1)
        .body(RESPONSE_BLOCK.as_bytes().to_vec())?;

    let first = record.clone().into_raw().expect("a writable record");
    let second = round_trip(&record).into_raw().expect("a writable record");

    assert_eq!(first.header.headers, second.header.headers);
    assert_eq!(first.body, second.body);
    assert!(first.header.headers.len() > 6);

    Ok(())
}

/// The name of the specification that a file conforms to is replaced where it stands.
#[test]
fn a_warcinfo_record_names_what_it_conforms_to() -> Result<(), fields::Error> {
    let record: Record = Record::warcinfo(date()).conforms_to("http://example.com/spec")?.build();

    assert_eq!(
        String::from_utf8_lossy(&record.body_bytes()),
        "format: WARC file version 1.1\r\nconformsTo: http://example.com/spec\r\n"
    );
    assert!(matches!(
        Record::<NoExtension>::warcinfo(date()).conforms_to("a\nb"),
        Err(fields::Error::UnwritableField { .. })
    ));

    Ok(())
}

/// A digest that is added in any encoding passes its own check.
#[test]
fn an_added_digest_is_accepted_in_any_encoding() {
    for encoding in [
        DigestEncoding::Base16,
        DigestEncoding::Base32,
        DigestEncoding::Base64,
    ] {
        let format = DigestFormat {
            algorithm: DigestAlgorithm::Sha256,
            encoding,
        };
        let digest = added_digest(&format, b"content");

        assert!(verify_block_digest(&digest, b"content").is_ok());
        assert!(verify_block_digest(&digest, b"other").is_err());
    }
}
