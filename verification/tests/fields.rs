//! Bodies of named fields, and what a header holds beside them.

use archivindex_warc::record::extension::{ExtensionTruncatedReason, Never, Spelling, Unclaimed};
use archivindex_warc::record::fields::dcmi::DcmiTerm;
use archivindex_warc::record::fields::metadata::{
    Hop, HopsError, HopsFromSeed, MetadataBody, MetadataField,
};
use archivindex_warc::record::fields::parser::{read_field, read_fields, unfold};
use archivindex_warc::record::fields::warcinfo::{WarcinfoBody, WarcinfoField};
use archivindex_warc::record::fields::{Error, Field};
use archivindex_warc::record::header::protocol::Protocol;
use archivindex_warc::record::header::truncated_type::TruncatedType;
use archivindex_warc::record::header::{RevisitProfile, SegmentNumber};
use archivindex_warc::record::record_type::RecordType;
use archivindex_warc::value::ip::IpAddress;
use archivindex_warc::version::marker::{V1_0, V1_1, WarcVersion as Marker};
use archivindex_warc::version::{Error as VersionError, WarcVersion};

/// Header lines with one field repeated under two spellings.
fn lines() -> Vec<(String, String)> {
    [
        ("X-Crawl-Id", "crawl-7"),
        ("X-Other", "kept"),
        ("x-crawl-id", "crawl-8"),
    ]
    .into_iter()
    .map(|(name, value)| (name.to_owned(), value.to_owned()))
    .collect()
}

#[test]
fn claiming_takes_every_line_naming_the_field() {
    let mut unclaimed = Unclaimed::new(lines());

    assert_eq!(unclaimed.claim("X-CRAWL-ID"), ["crawl-7", "crawl-8"]);
    assert_eq!(unclaimed.claim("x-crawl-id"), Vec::<String>::new());

    assert_eq!(
        unclaimed.into_fields(),
        [("X-Other".to_owned(), "kept".to_owned())]
    );
}

#[test]
fn getting_leaves_every_line_where_it_is() {
    let unclaimed = Unclaimed::new(lines());

    assert_eq!(unclaimed.get("x-crawl-id"), ["crawl-7", "crawl-8"]);
    assert_eq!(unclaimed.get("x-absent"), Vec::<&str>::new());

    assert_eq!(unclaimed.into_fields().len(), 3);
}

#[test]
fn iterating_names_a_repeated_field_once() {
    let mut unclaimed = Unclaimed::new(lines());

    assert_eq!(unclaimed.iter(), ["X-Crawl-Id", "X-Other"]);

    unclaimed.claim("x-crawl-id");
    assert_eq!(unclaimed.iter(), ["X-Other"]);
}

/// Claiming one name leaves the values of the others as they are.
#[test]
fn claiming_a_name_keeps_the_others() {
    let mut unclaimed = Unclaimed::new(lines());
    unclaimed.claim("x-crawl-id");

    assert_eq!(unclaimed.get("X-OTHER"), ["kept"]);
    assert_eq!(unclaimed.get("x-crawl-id"), Vec::<&str>::new());
}

/// Writing a body out and reading it back gives the same body, and the rendering is the named
/// fields of the block in the order they were added.
#[test]
fn a_body_round_trips_through_its_rendering() -> Result<(), Error> {
    let mut body = WarcinfoBody::new();
    assert!(body.is_empty());

    body.push(WarcinfoField::Software, "archivindex/0.1.0")?;
    body.push(WarcinfoField::Dcmi(DcmiTerm::IsPartOf), "a-crawl")?;
    body.push(WarcinfoField::from("x-custom"), "a value")?;

    assert_eq!(
        body.to_string(),
        "software: archivindex/0.1.0\r\nisPartOf: a-crawl\r\nx-custom: a value\r\n"
    );
    assert_eq!(WarcinfoBody::parse(body.to_string().as_bytes())?, body);

    Ok(())
}

/// Setting a field gives it the value in place of every one it had, at the position its first
/// appearance held, and adds it at the end when the body did not carry it at all.
#[test]
fn setting_a_field_replaces_every_value_it_had() -> Result<(), Error> {
    let mut body = WarcinfoBody::new();

    body.push(WarcinfoField::Software, "one")?;
    body.push(WarcinfoField::Hostname, "a-host")?;
    body.push(WarcinfoField::Software, "two")?;

    body.set(WarcinfoField::Software, "three")?;
    body.set(WarcinfoField::Operator, "an-operator")?;

    assert_eq!(
        body.to_string(),
        "software: three\r\nhostname: a-host\r\noperator: an-operator\r\n"
    );
    assert_eq!(body.get_all(&WarcinfoField::Software).len(), 1);

    Ok(())
}

/// The length a body reports is the length of what it writes, whether that is the block it was
/// read from or the canonical rendering it falls back to once it has been changed.
#[test]
fn a_body_reports_the_length_it_writes() -> Result<(), Error> {
    for block in [
        &b"SOFTWARE:  one\r\nIsPartOf:\r\n\ttwo\r\nX-Custom: three\r\n\r\n"[..],
        &b"software: one"[..],
        &b""[..],
    ] {
        let mut body = WarcinfoBody::parse(block)?;
        assert_eq!(body.rendered_len(), block.len(), "{block:?}");

        body.push(WarcinfoField::Hostname, "crawler.example.com")?;
        assert_eq!(body.rendered_len(), body.to_string().len(), "{block:?}");
    }

    Ok(())
}

/// A body that has not been changed is written back out as the block it was read from, down to the
/// spelling of each name, the folding of each value, the space after each colon, and the way the
/// block ends.
#[test]
fn an_unmodified_body_is_written_as_it_was_read() {
    for block in [
        &b"SOFTWARE:  one\r\nIsPartOf:\r\n\ttwo\r\nX-Custom: three\r\n\r\n"[..],
        &b"software: one"[..],
        &b""[..],
    ] {
        let body = WarcinfoBody::parse(block).expect("block");
        let written = body.to_string();

        assert_eq!(written.as_bytes(), block, "{block:?}");
        assert_eq!(body.source(), Some(written.as_str()), "{block:?}");
    }
}

/// Once a body has been changed it is written canonically rather than from the block it was read
/// from.
#[test]
fn a_modified_body_is_written_canonically() -> Result<(), Error> {
    let mut body = WarcinfoBody::parse(b"SOFTWARE:  one\r\nX-Custom: two\r\n")?;
    assert!(body.source().is_some());

    body.push(WarcinfoField::Robots, "classic")?;

    assert_eq!(body.source(), None);
    assert_eq!(
        body.to_string(),
        "software: one\r\nx-custom: two\r\nrobots: classic\r\n"
    );

    Ok(())
}

/// A body read from a block and a body built by hand are equal when their fields match.
#[test]
fn equality_ignores_the_block_the_body_was_read_from() -> Result<(), Error> {
    let read = WarcinfoBody::parse(b"SOFTWARE:  one\r\nIsPartOf:\r\n two\r\n")?;

    let mut built = WarcinfoBody::new();
    built.push(WarcinfoField::Software, "one")?;
    built.push(WarcinfoField::Dcmi(DcmiTerm::IsPartOf), "two")?;

    assert_eq!(read, built);
    assert!(read.source().is_some());
    assert_eq!(built.source(), None);

    Ok(())
}

/// A repeated field keeps every value it was given, in order, and reports the first as its value.
#[test]
fn repeated_fields_keep_every_value() {
    let body = WarcinfoBody::parse(b"subject: one\r\ndescription: two\r\nsubject: three\r\n")
        .expect("repeated fields");

    let subject = WarcinfoField::Dcmi(DcmiTerm::Subject);
    assert_eq!(body.get(&subject), Some("one"));
    assert_eq!(body.get_all(&subject), ["one", "three"]);
    assert_eq!(body.len(), 3);
}

/// A block may close with the bare CRLF of the grammar, may stop at the last character of its last
/// value, and may be empty, all reading as the same fields.
#[test]
fn a_block_may_be_terminated_any_of_the_ways_it_is_written() {
    for block in [
        &b"software: one\r\n"[..],
        &b"software: one\r\n\r\n"[..],
        &b"software: one"[..],
    ] {
        let body = WarcinfoBody::parse(block).expect("terminator");
        assert_eq!(body.software(), Some("one"));
        assert_eq!(body.len(), 1);
    }

    for block in [&b""[..], &b"\r\n"[..]] {
        assert!(WarcinfoBody::parse(block).expect("empty block").is_empty());
    }
}

/// Anything in the block that is not a named field is an error rather than a field quietly dropped.
#[test]
fn a_block_that_is_not_named_fields_is_rejected() {
    // The offset is where reading stopped, which is the start of the block when nothing in it was
    // a field at all.
    for (block, offset) in [
        (&b"not a named field\r\n"[..], 0),
        (&b"software: one\r\nthen some prose\r\n"[..], 15),
        (&b"software: one\r\n\r\nsoftware: two\r\n"[..], 17),
    ] {
        assert_eq!(
            WarcinfoBody::parse(block),
            Err(Error::NotANamedField { offset }),
            "{block:?}"
        );
    }

    // Values are UTF-8, so a lone continuation byte is not one.
    assert_eq!(
        WarcinfoBody::parse(b"description: \xff\r\n"),
        Err(Error::InvalidValue {
            name: "description".to_string()
        })
    );
}

/// A value holding a line break would be written as further field lines, so it is refused rather
/// than written.
#[test]
fn a_value_that_would_be_written_as_another_field_is_refused() {
    let mut body = WarcinfoBody::new();

    for value in ["one\r\ninjected: two", "one\rtwo", "one\ntwo"] {
        assert_eq!(
            body.push(WarcinfoField::Software, value),
            Err(Error::UnwritableField {
                name: "software".to_string(),
                reason: "the value holds a control character".to_string()
            }),
            "{value:?}"
        );
    }

    assert!(body.is_empty());
}

/// A value is `TEXT`, which admits the white space a field line is written with and no other
/// control character.
#[test]
fn a_value_holds_text_alone() -> Result<(), Error> {
    let mut body = WarcinfoBody::new();

    for value in ["\x00", "\x7f", "\x1b[0m"] {
        assert!(
            body.push(WarcinfoField::from("x-custom"), value).is_err(),
            "{value:?}"
        );
    }

    body.push(WarcinfoField::from("x-custom"), "one\ttwo three")?;
    assert_eq!(body.to_string(), "x-custom: one\ttwo three\r\n");

    Ok(())
}

/// A name is a token, so one holding the punctuation that separates a field from its value or from
/// the next field is refused.
#[test]
fn a_name_that_is_not_a_token_is_refused() {
    let mut body = WarcinfoBody::new();

    for name in ["x-custom: injected\r\nevil", "x custom", "x:custom", ""] {
        assert_eq!(
            body.push(WarcinfoField::from(name), "a value"),
            Err(Error::UnwritableField {
                name: name.to_lowercase(),
                reason: "the name is not a token".to_string()
            }),
            "{name:?}"
        );
    }

    assert!(body.is_empty());
}

/// A name outside both vocabularies is an extension field under its lower-cased spelling.
#[test]
fn a_name_in_neither_vocabulary_is_an_extension_field() {
    assert_eq!(
        WarcinfoField::from_name("X-Custom"),
        WarcinfoField::Other("x-custom".to_string())
    );
}

/// The default body is an empty one.
#[test]
fn the_default_body_is_empty() {
    assert!(WarcinfoBody::default().is_empty());
    assert_eq!(MetadataBody::default().to_string(), "");
}

/// The `warcinfo` example of the standard's annex, folded as it prints it.
const ANNEX_EXAMPLE: &[u8] = b"software: Heritrix 1.12.0 http://crawler.archive.org\r\n\
    hostname: crawling017.archive.org\r\n\
    ip: 207.241.227.234\r\n\
    isPartOf: testcrawl-20050708\r\n\
    description: testcrawl with WARC output\r\n\
    operator: IA_Admin\r\n\
    http-header-user-agent:\r\n\
    \x20Mozilla/5.0 (compatible; heritrix/1.4.0 +http://crawler.archive.org)\r\n\
    format: WARC file version 1.1\r\n\
    conformsTo:\r\n\
    \x20http://iipc.github.io/warc-specifications/specifications/warc-format/warc-1.1/\r\n";

/// Each of the example's fields is recognized as the field it names, each folded value is joined
/// with the single space a fold stands for, and the block is written back as it was read.
#[test]
fn the_annex_example_reads_as_its_fields() {
    let body = WarcinfoBody::parse(ANNEX_EXAMPLE).expect("annex example");

    assert_eq!(body.len(), 9);
    assert_eq!(
        body.software(),
        Some("Heritrix 1.12.0 http://crawler.archive.org")
    );
    assert_eq!(body.hostname(), Some("crawling017.archive.org"));
    assert_eq!(body.ip(), IpAddress::parse(b"207.241.227.234"));
    assert!(body.ip().is_some());
    assert_eq!(body.operator(), Some("IA_Admin"));
    assert_eq!(
        body.http_header_user_agent(),
        Some("Mozilla/5.0 (compatible; heritrix/1.4.0 +http://crawler.archive.org)")
    );
    assert_eq!(
        body.get(&WarcinfoField::Dcmi(DcmiTerm::IsPartOf)),
        Some("testcrawl-20050708")
    );
    assert_eq!(
        body.get(&WarcinfoField::Dcmi(DcmiTerm::Format)),
        Some("WARC file version 1.1")
    );
    assert_eq!(
        body.get(&WarcinfoField::Dcmi(DcmiTerm::ConformsTo)),
        Some("http://iipc.github.io/warc-specifications/specifications/warc-format/warc-1.1/")
    );

    // Nothing the example does not write is reported as present.
    assert_eq!(body.robots(), None);
    assert_eq!(body.http_header_from(), None);

    assert_eq!(body.to_string().as_bytes(), ANNEX_EXAMPLE);
}

/// Field names are not case-sensitive, and an unrecognized name is kept lower-cased so that two
/// spellings of one extension field are still the same field.
#[test]
fn names_are_matched_case_insensitively() {
    let body = WarcinfoBody::parse(
        b"SOFTWARE: one\r\nIsPartOf: two\r\nHTTP-Header-From: three\r\nX-Custom: four\r\n",
    )
    .expect("mixed spellings");

    assert_eq!(body.software(), Some("one"));
    assert_eq!(
        body.get(&WarcinfoField::Dcmi(DcmiTerm::IsPartOf)),
        Some("two")
    );
    assert_eq!(body.http_header_from(), Some("three"));
    assert_eq!(body.get(&WarcinfoField::from("x-custom")), Some("four"));
    assert_eq!(
        body.iter().into_iter().map(|(field, _)| field.name()).last(),
        Some("x-custom")
    );
}

/// Every field the standard names for a `warcinfo` record is reached by its own name, and no two of
/// them share one.
#[test]
fn the_standards_own_fields_are_recognized() {
    for field in WarcinfoField::known() {
        assert_eq!(WarcinfoField::from(field.name()), field);
        assert_eq!(
            WarcinfoField::from(field.name().to_uppercase().as_str()),
            field
        );
    }
}

/// Every term of the DCMI vocabulary is found by its own name, whatever its case.
#[test]
fn terms_are_named_whatever_their_case() {
    assert_eq!(DcmiTerm::from_name("ISPARTOF"), Some(DcmiTerm::IsPartOf));
    assert_eq!(DcmiTerm::IsPartOf.name(), "isPartOf");
    assert_eq!(DcmiTerm::from_name("software"), None);
}

/// The fields a `metadata` record defines are read by their accessors.
#[test]
fn a_metadata_body_answers_for_its_own_fields() {
    let body =
        MetadataBody::parse(b"via: http://example.com/\r\nhopsFromSeed: LE\r\nfetchTimeMs: 337\r\n")
            .expect("metadata");

    assert_eq!(body.via(), Some("http://example.com/"));
    assert_eq!(body.hops_from_seed(), Some("LE"));
    assert_eq!(body.fetch_time_ms(), Some(337));
    assert_eq!(
        MetadataBody::parse(b"fetchTimeMs: quick\r\n")
            .expect("metadata")
            .fetch_time_ms(),
        None
    );
    assert_eq!(MetadataField::from("VIA"), MetadataField::Via);
    assert_eq!(MetadataField::Via.to_string(), "via");
}

/// A path of hops reads letter by letter and is written back as it was read.
#[test]
fn hops_read_letter_by_letter() {
    let path = HopsFromSeed::parse("PLERX").expect("a path");
    assert_eq!(path.hops.len(), 5);
    assert_eq!(path.hops[1], Hop::Link);
    assert_eq!(path.to_string(), "PLERX");
    assert_eq!("LE".parse::<HopsFromSeed>().expect("a path").hops.len(), 2);
    assert_eq!(
        HopsFromSeed::parse("L?"),
        Err(HopsError("L?".to_string()))
    );
}

/// A fold is replaced by one space, and a line is read with the lines that continue it.
#[test]
fn field_lines_are_read_with_their_continuations() {
    assert_eq!(unfold(b"one\r\n\ttwo"), b"one two");
    assert_eq!(
        read_field(b"a: b\r\n c\r\nd: e\r\n", 0),
        Some((("a".to_string(), b" b\r\n c".to_vec()), 10))
    );
    assert_eq!(read_field(b"no colon\r\n", 0), None);

    let (fields, end) = read_fields(b"a: b\r\nd: e\r\n\r\nrest", 0);
    assert_eq!(fields.len(), 2);
    assert_eq!(end, 12);
}

/// Both versions' spellings of both standard profiles are recognized, and anything else is kept
/// exactly as written.
#[test]
fn revisit_profiles_round_trip() {
    for profile in [
        RevisitProfile::IdenticalPayloadDigest(WarcVersion::V1_0),
        RevisitProfile::IdenticalPayloadDigest(WarcVersion::V1_1),
        RevisitProfile::ServerNotModified(WarcVersion::V1_0),
        RevisitProfile::ServerNotModified(WarcVersion::V1_1),
    ] {
        assert_eq!(RevisitProfile::from(profile.as_str()), profile);
    }

    assert_eq!(
        RevisitProfile::from("http://example.com/Profile"),
        RevisitProfile::Other("http://example.com/Profile".to_owned())
    );
}

/// A profile URI names the version that defined it, which is not necessarily the version the record
/// declares, so the two spellings are distinct values.
#[test]
fn revisit_profile_versions_are_distinct() {
    assert_ne!(
        RevisitProfile::IdenticalPayloadDigest(WarcVersion::V1_0),
        RevisitProfile::IdenticalPayloadDigest(WarcVersion::V1_1)
    );
    assert!(
        RevisitProfile::IdenticalPayloadDigest(WarcVersion::V1_1)
            .as_str()
            .contains("/1.1/")
    );
}

/// A continuation's number is two at least.
#[test]
fn a_segment_number_is_two_at_least() {
    assert_eq!(SegmentNumber::new(1), None);
    assert_eq!(SegmentNumber::new(2).map(|number| number.get()), Some(2));
}

#[test]
fn accepts_registered_and_future_identifiers() {
    for value in [
        "dns", "ftp", "gemini", "gopher", "http/0.9", "http/1.0", "http/1.1", "h2", "h2c", "h3",
        "quic/1", "quic/2", "spdy/1", "spdy/2", "spdy/3", "ssl/2", "ssl/3", "tls/1.0", "tls/1.1",
        "tls/1.2", "tls/1.3", "future/9",
    ] {
        assert_eq!(value.parse::<Protocol>().unwrap().as_str(), value);
    }
}

#[test]
fn rejects_lists_and_malformed_identifiers() {
    for value in [
        "",
        "h2, tls/1.3",
        "h2 tls/1.3",
        "h2\r\nInjected: yes",
        " h2",
        "h2 ",
        "tls/",
        "/1.3",
        "tls/1/3",
        "h₂",
    ] {
        assert!(value.parse::<Protocol>().is_err(), "{value:?}");
    }
}

/// The protocols that have a name of their own are spelled as they are registered.
#[test]
fn named_protocols_are_spelled_as_registered() {
    assert_eq!(Protocol::http_1_0().as_str(), "http/1.0");
    assert_eq!(Protocol::http_1_1().as_str(), "http/1.1");
    assert_eq!(Protocol::h2().as_str(), "h2");
    assert_eq!(Protocol::h2c().as_str(), "h2c");
    assert_eq!(Protocol::parse("h2").unwrap(), Protocol::h2());
}

#[derive(Clone, Debug, Eq, PartialEq)]
enum TestReason {
    Refused,
}

impl ExtensionTruncatedReason for TestReason {
    fn token(&self) -> Spelling {
        unreachable!("nothing runs a specification")
    }

    fn of_token(_token: Spelling) -> Option<Self> {
        unreachable!("nothing runs a specification")
    }

    fn reason_token(&self) -> &str {
        match self {
            Self::Refused => "refused",
        }
    }

    fn from_reason_token(token: &str) -> Option<Self> {
        (token.eq_ignore_ascii_case("refused") || token.eq_ignore_ascii_case("length"))
            .then_some(Self::Refused)
    }
}

/// Standard reasons are parsed without regard to case.
#[test]
fn every_standard_reason_round_trips_through_its_token() {
    for truncated_type in [
        TruncatedType::<Never>::Length,
        TruncatedType::Time,
        TruncatedType::Disconnect,
        TruncatedType::Unspecified,
    ] {
        assert_eq!(
            TruncatedType::from(truncated_type.as_str().to_uppercase().as_str()),
            truncated_type
        );
    }
}

/// Extension reasons cannot redefine standard reasons.
#[test]
fn an_extension_defines_reasons_the_standard_does_not() {
    assert_eq!(
        TruncatedType::from("Refused"),
        TruncatedType::Extension(TestReason::Refused)
    );
    assert_eq!(
        TruncatedType::Extension(TestReason::Refused).to_string(),
        "refused"
    );
    assert_eq!(
        TruncatedType::<TestReason>::from("length"),
        TruncatedType::Length
    );
}

/// Unrecognized reasons are preserved in normalized form.
#[test]
fn an_unrecognized_reason_is_kept() {
    let truncated_type = TruncatedType::<Never>::from("Refused");
    assert_eq!(truncated_type, TruncatedType::Unknown("refused".to_owned()));
    assert_eq!(truncated_type.to_string(), "refused");
}

#[test]
fn canonical_order_and_stable_ranks() {
    let names = [
        "warcinfo",
        "request",
        "response",
        "metadata",
        "revisit",
        "resource",
        "conversion",
        "continuation",
        "x-first",
        "x-last",
    ];
    let expected = names.map(RecordType::from);
    let mut sorted = expected.clone();
    sorted.reverse();
    sorted.sort();
    assert_eq!(sorted, expected);
    for (record_type, rank) in expected.iter().zip([0, 1, 2, 3, 4, 5, 6, 7, 8, 8]) {
        assert_eq!(record_type.canonical_rank(), rank);
    }
}

/// The order of record types follows their ranks, and that of unknown ones their names.
#[test]
fn the_order_of_record_types_follows_their_ranks() {
    let revisit = RecordType::Revisit;
    let first = RecordType::from("x-a");
    let longer = RecordType::from("x-ab");

    assert!(RecordType::Warcinfo < revisit);
    assert!(revisit < first);
    assert!(first < longer);
    assert!(longer <= longer.clone());
    assert_eq!(first.canonical_rank(), longer.canonical_rank());
    assert_eq!(first.partial_cmp(&longer), Some(first.cmp(&longer)));
}

/// A record type is read without regard to case and written under its own name.
#[test]
fn record_types_are_read_whatever_their_case() {
    assert_eq!(RecordType::from("WARCINFO"), RecordType::Warcinfo);
    assert_eq!(RecordType::from("X-First").as_str(), "x-first");
    assert_eq!(RecordType::Response.to_string(), "response");
}

/// Each marker provides its corresponding runtime version.
#[test]
fn each_marker_names_its_version() {
    assert_eq!(V1_0::value(), WarcVersion::V1_0);
    assert_eq!(V1_1::value(), WarcVersion::V1_1);
}

#[test]
fn supported_versions_round_trip() {
    for version in [WarcVersion::V1_0, WarcVersion::V1_1] {
        assert!(matches!(
            version.to_string().parse::<WarcVersion>(),
            Ok(parsed) if parsed == version
        ));
    }
}

#[test]
fn unsupported_version_is_malformed() {
    assert!(matches!(
        "2.0".parse::<WarcVersion>(),
        Err(VersionError(version)) if version == "2.0"
    ));
}
