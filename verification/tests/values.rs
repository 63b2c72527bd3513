//! Values of header fields.

use archivindex_warc::parsing::QuotedStringError;
use archivindex_warc::record::digest::added_digest;
use archivindex_warc::value::base::{encode16, encode32, encode64};
use archivindex_warc::value::date::{UtcDateTime, WarcDate, WarcDatePrecision};
use archivindex_warc::value::digest::{
    DigestAlgorithm, DigestEncoding, DigestFormat, Error as DigestError, LabelledDigest,
};
use archivindex_warc::value::hash::Supported;
use archivindex_warc::value::ip::IpAddress;
use archivindex_warc::value::media_type::{Error as MediaTypeError, MediaType, ParameterValue};
use archivindex_warc::value::text::{Error as TextError, Text};
use archivindex_warc::value::uri::Uri;
use archivindex_warc::value::Error;
use archivindex_warc::version::WarcVersion;


/// The input used by the digest-format tests.
const CONTENT: &[u8] = b"hello";

#[test]
fn adds_a_sha_256_digest_in_lower_case_base16() {
    assert_eq!(
        added_digest(&DigestFormat::recommended(DigestAlgorithm::Sha256), CONTENT).to_string(),
        "sha256:2cf24dba5fb0a30e26e83b2ac5b9e29e1b161e5c1fa7425e73043362938b9824"
    );
}

#[test]
fn adds_a_sha_1_digest_in_unpadded_upper_case_base32() {
    assert_eq!(
        added_digest(&DigestFormat::recommended(DigestAlgorithm::Sha1), CONTENT).to_string(),
        "sha1:VL2MMHO4YXUKFWV63YHTWSBM3GXKSQ2N"
    );
}

#[test]
fn parses_text_and_quoted_strings() {
    let plain = Text::parse(b"example.warc.gz").unwrap();
    assert_eq!(plain.as_bytes(), b"example.warc.gz");
    assert_eq!(plain.to_str(), Some("example.warc.gz"));
    assert_eq!(plain.to_str_lossy(), "example.warc.gz");
    assert!(!plain.is_quoted());
    assert_eq!(plain.to_string(), "example.warc.gz");

    let quoted = Text::parse(br#""with \"quotes\" and ; punctuation""#).unwrap();
    assert_eq!(quoted.as_bytes(), br#"with "quotes" and ; punctuation"#);
    assert_eq!(quoted.to_str_lossy(), r#"with "quotes" and ; punctuation"#);
    assert!(quoted.is_quoted());
    assert_eq!(quoted.to_string(), r#""with \"quotes\" and ; punctuation""#);
    assert_eq!(
        quoted.to_bytes().as_ref(),
        br#""with \"quotes\" and ; punctuation""#
    );

    // `TEXT` admits any octet, so a name that is not UTF-8 still parses, and is spelled
    // with the octets it was read as rather than with what they say as text.
    let bytes = Text::parse(b"caf\xe9.warc").unwrap();
    assert_eq!(bytes.as_bytes(), b"caf\xe9.warc");
    assert_eq!(bytes.to_str(), None);
    assert_eq!(bytes.to_str_lossy(), "caf\u{fffd}.warc");
    assert_eq!(bytes.to_bytes().as_ref(), b"caf\xe9.warc");
    assert_eq!(bytes.to_string(), "caf\u{fffd}.warc");
}

/// `TEXT` includes linear white space, so a tab is not one of the control characters it
/// excludes, however it is written.
#[test]
fn keeps_a_tab() {
    for value in [
        b"with\ttab.warc".as_slice(),
        b"\"with\\\ttab.warc\"".as_slice(),
    ] {
        let text = Text::parse(value).expect("parsed");
        assert_eq!(text.as_bytes(), b"with\ttab.warc");
    }
}

#[test]
fn rejects_malformed_text() {
    for (value, expected) in [
        (
            b"with\x01control".as_slice(),
            TextError::ControlCharacter {
                value: "with\u{1}control".to_owned(),
                index: 4,
            },
        ),
        (
            b"\"with\x01control\"".as_slice(),
            TextError::QuotedString {
                value: "\"with\u{1}control\"".to_owned(),
                source: QuotedStringError::ControlCharacter { index: 5 },
            },
        ),
        // An escape does not make a control character text.
        (
            b"\"with\\\x01control\"".as_slice(),
            TextError::QuotedString {
                value: "\"with\\\u{1}control\"".to_owned(),
                source: QuotedStringError::ControlCharacter { index: 6 },
            },
        ),
        (
            br#""unterminated"#.as_slice(),
            TextError::QuotedString {
                value: "\"unterminated".to_owned(),
                source: QuotedStringError::Unterminated,
            },
        ),
        (
            br#""with"gap""#.as_slice(),
            TextError::QuotedString {
                value: "\"with\"gap\"".to_owned(),
                source: QuotedStringError::UnescapedQuote { index: 5 },
            },
        ),
    ] {
        assert_eq!(Text::parse(value), Err(expected), "{value:?}");
    }
}


/// An instant with nonzero values at every supported precision.
fn instant() -> UtcDateTime {
    UtcDateTime::new(2020, 7, 8, 2, 52, 55, 123_456_789).expect("an instant")
}

#[test]
fn new_truncates_the_instant_to_the_requested_precision() {
    for (precision, expected) in [
        (WarcDatePrecision::Year, "2020"),
        (WarcDatePrecision::Month, "2020-07"),
        (WarcDatePrecision::Day, "2020-07-08"),
        (WarcDatePrecision::Minute, "2020-07-08T02:52Z"),
        (WarcDatePrecision::Second, "2020-07-08T02:52:55Z"),
        (WarcDatePrecision::Fraction(3), "2020-07-08T02:52:55.123Z"),
        (
            WarcDatePrecision::Fraction(9),
            "2020-07-08T02:52:55.123456789Z",
        ),
    ] {
        let date = WarcDate::new(instant(), precision);

        assert_eq!(date.to_string(), expected, "{precision:?}");
        // The truncated instant and the kept precision are what parsing the rendering gives.
        assert_eq!(
            date,
            WarcDate::parse(expected, WarcVersion::V1_1).expect("a parseable date"),
            "{precision:?}"
        );
    }
}

#[test]
fn new_clamps_a_fraction_digit_count_the_grammar_does_not_have() {
    assert_eq!(
        WarcDate::new(instant(), WarcDatePrecision::Fraction(0)).to_string(),
        "2020-07-08T02:52:55.1Z"
    );
    assert_eq!(
        WarcDate::new(instant(), WarcDatePrecision::Fraction(12)).to_string(),
        "2020-07-08T02:52:55.123456789Z"
    );
}

#[test]
fn warc_1_0_accepts_only_second_precision() {
    let valid = WarcDate::parse("2020-07-08T02:52:55Z", WarcVersion::V1_0).unwrap();
    assert_eq!(valid.precision(), WarcDatePrecision::Second);

    for invalid in [
        "2020",
        "2020-07",
        "2020-07-08",
        "2020-07-08T02:52Z",
        "2020-07-08T02:52:55.1Z",
        "2020-07-08T03:52:55+01:00",
    ] {
        assert_eq!(
            WarcDate::parse(invalid, WarcVersion::V1_0),
            None,
            "{invalid}"
        );
    }
}

#[test]
fn warc_1_1_preserves_granularity() {
    for (value, expected) in [
        ("2020", "2020"),
        ("2020-07", "2020-07"),
        ("2020-07-08", "2020-07-08"),
        ("2020-07-08T02:52Z", "2020-07-08T02:52Z"),
        ("2020-07-08T02:52:55Z", "2020-07-08T02:52:55Z"),
        ("2020-07-08T02:52:55.100Z", "2020-07-08T02:52:55.100Z"),
        (
            "2020-07-08T02:52:55.123456789Z",
            "2020-07-08T02:52:55.123456789Z",
        ),
    ] {
        assert_eq!(
            WarcDate::parse(value, WarcVersion::V1_1)
                .unwrap()
                .to_string(),
            expected,
            "{value}"
        );
    }

    for invalid in ["2020-07-08T02:52:55.1234567890Z", "éabcde"] {
        assert_eq!(
            WarcDate::parse(invalid, WarcVersion::V1_1),
            None,
            "{invalid}"
        );
    }
}

/// `w3c-iso8601` is a UTC timestamp, so a zone designator other than `Z` is outside the field's
/// grammar even though [W3CDTF] admits one.
///
/// [W3CDTF]: https://www.w3.org/TR/NOTE-datetime
#[test]
fn warc_1_1_requires_utc() {
    for invalid in [
        "2020-07-08T02:52+01:00",
        "2020-07-08T02:52:55+01:00",
        "2020-07-08T02:52:55.100-05:00",
        "2020-07-08T02:52:55",
    ] {
        assert_eq!(
            WarcDate::parse(invalid, WarcVersion::V1_1),
            None,
            "{invalid}"
        );
    }
}

#[test]
fn warc_1_0_formatting_uses_seconds() {
    let date = WarcDate::parse("2020-07-08T02:52:55.123456Z", WarcVersion::V1_1).unwrap();
    assert_eq!(
        date.to_string_for_version(WarcVersion::V1_0),
        "2020-07-08T02:52:55Z"
    );
}

/// The SHA-1 digest of the empty block, which the fixtures write in both encodings.
const EMPTY_SHA1: [u8; 20] = [
    0xda, 0x39, 0xa3, 0xee, 0x5e, 0x6b, 0x4b, 0x0d, 0x32, 0x55, 0xbf, 0xef, 0x95, 0x60, 0x18,
    0x90, 0xaf, 0xd8, 0x07, 0x09,
];

/// The MD5 digest of the empty block, whose length Base32 has to pad.
const EMPTY_MD5: [u8; 16] = [
    0xd4, 0x1d, 0x8c, 0xd9, 0x8f, 0x00, 0xb2, 0x04, 0xe9, 0x80, 0x09, 0x98, 0xec, 0xf8, 0x42,
    0x7e,
];

fn digest(value: &str) -> LabelledDigest {
    LabelledDigest::parse(value.as_bytes()).expect("a labelled digest")
}

#[test]
fn parses_labelled_digests() {
    let digest = digest("sha1:3I42H3S6NNFQ2MSVX7XZKYAYSCX5QBYJ");

    assert_eq!(digest.algorithm(), &DigestAlgorithm::Sha1);
    assert_eq!(digest.algorithm_as_read(), "sha1");
    assert_eq!(digest.value(), "3I42H3S6NNFQ2MSVX7XZKYAYSCX5QBYJ");
    assert_eq!(digest.to_string(), "sha1:3I42H3S6NNFQ2MSVX7XZKYAYSCX5QBYJ");
}

/// Annotation #80 names the compatibility labels and asks readers to normalize them.
#[test]
fn reads_a_label_in_any_case_and_either_spelling() {
    for (label, algorithm) in [
        ("md5", DigestAlgorithm::Md5),
        ("MD5", DigestAlgorithm::Md5),
        ("sha1", DigestAlgorithm::Sha1),
        ("SHA-1", DigestAlgorithm::Sha1),
        ("sha-1", DigestAlgorithm::Sha1),
        ("sha256", DigestAlgorithm::Sha256),
        ("SHA-256", DigestAlgorithm::Sha256),
        ("Blake3", DigestAlgorithm::Other("blake3".into())),
    ] {
        let digest = digest(&format!("{label}:00"));

        assert_eq!(digest.algorithm(), &algorithm, "{label}");
        assert_eq!(digest.algorithm_as_read(), label, "{label}");
        assert_eq!(digest.to_string(), format!("{label}:00"), "{label}");
    }
}

#[test]
fn writes_a_digest_as_annotation_80_asks() {
    assert_eq!(
        LabelledDigest::from_digest(DigestAlgorithm::Sha1, &EMPTY_SHA1).to_string(),
        "sha1:3I42H3S6NNFQ2MSVX7XZKYAYSCX5QBYJ"
    );
    assert_eq!(
        LabelledDigest::from_digest(DigestAlgorithm::Md5, &EMPTY_MD5).to_string(),
        "md5:d41d8cd98f00b204e9800998ecf8427e"
    );
}

#[test]
fn tells_the_encoding_of_a_digest_value() {
    for (value, encoding) in [
        (
            "sha1:3I42H3S6NNFQ2MSVX7XZKYAYSCX5QBYJ",
            Some(DigestEncoding::Base32),
        ),
        (
            "sha1:da39a3ee5e6b4b0d3255bfef95601890afd80709",
            Some(DigestEncoding::Base16),
        ),
        (
            "md5:d41d8cd98f00b204e9800998ecf8427e",
            Some(DigestEncoding::Base16),
        ),
        (
            "md5:2QOYZWMPACZAJ2MABGMOZ6CCPY======",
            Some(DigestEncoding::Base32),
        ),
        (
            "sha1:2jmj7l5rSw0yVb/vlWAYkK/YBwk=",
            Some(DigestEncoding::Base64),
        ),
        // A value that fits every encoding, and one that fits none.
        ("xxh3:23456723456723456723456723456723", None),
        ("sha1:not-a-digest", None),
    ] {
        assert_eq!(digest(value).encoding(), encoding, "{value}");
    }
}

#[test]
fn decodes_a_digest_value_in_either_case() {
    for value in [
        "sha1:3I42H3S6NNFQ2MSVX7XZKYAYSCX5QBYJ",
        "sha1:3i42h3s6nnfq2msvx7xzkyayscx5qbyj",
        "sha1:da39a3ee5e6b4b0d3255bfef95601890afd80709",
        "sha1:DA39A3EE5E6B4B0D3255BFEF95601890AFD80709",
    ] {
        assert_eq!(
            digest(value).decoded().as_deref(),
            Some(&EMPTY_SHA1[..]),
            "{value}"
        );
    }
}

/// Annotation #80 asks for the encoding to be resolved before comparing digests.
#[test]
fn matches_the_same_digest_however_it_is_written() {
    let base32 = digest("SHA-1:3I42H3S6NNFQ2MSVX7XZKYAYSCX5QBYJ");
    let base16 = digest("sha1:da39a3ee5e6b4b0d3255bfef95601890afd80709");

    assert!(base32.matches(&base16));
    assert_ne!(base32, base16);
}

#[test]
fn does_not_match_another_digest_or_another_algorithm() {
    let sha1 = digest("sha1:da39a3ee5e6b4b0d3255bfef95601890afd80709");

    assert!(!sha1.matches(&digest("sha1:da39a3ee5e6b4b0d3255bfef95601890afd8070a")));
    assert!(!sha1.matches(&digest("sha256:da39a3ee5e6b4b0d3255bfef95601890afd80709")));
}

/// The archives this crate reads carry Base64 digests, in both of RFC 4648's alphabets and
/// with the padding left off.
#[test]
fn reads_a_digest_written_in_base64() {
    for value in [
        "sha1:2jmj7l5rSw0yVb/vlWAYkK/YBwk=",
        "sha1:2jmj7l5rSw0yVb_vlWAYkK_YBwk=",
        "sha1:2jmj7l5rSw0yVb/vlWAYkK/YBwk",
    ] {
        assert_eq!(
            digest(value).decoded().as_deref(),
            Some(&EMPTY_SHA1[..]),
            "{value}"
        );
    }
}

/// Base64 spells different digests with the same letters in different cases, so a value read
/// in it is not the same digest as the same letters in another case.
#[test]
fn reads_base64_case_by_case() {
    let base64 = digest("sha1:2jmj7l5rSw0yVb/vlWAYkK/YBwk=");

    assert!(base64.matches(&digest("sha1:da39a3ee5e6b4b0d3255bfef95601890afd80709")));
    assert!(!base64.matches(&digest("sha1:2JMJ7L5RSW0YVB/VLWAYKK/YBWK=")));
}

/// A value in an encoding this crate cannot tell is not read as anything but itself.
#[test]
fn matches_an_undecodable_value_as_written() {
    let undecodable = digest("sha1:not-a-digest");

    assert!(undecodable.matches(&digest("sha1:not-a-digest")));
    assert!(!undecodable.matches(&digest("sha1:NOT-A-DIGEST")));
    assert!(!undecodable.matches(&digest("sha1:da39a3ee5e6b4b0d3255bfef95601890afd80709")));
}

#[test]
fn encodes_and_decodes_a_padded_digest() {
    for encoding in [
        DigestEncoding::Base16,
        DigestEncoding::Base32,
        DigestEncoding::Base64,
    ] {
        let mut encoded = String::new();
        encoding.encode(&EMPTY_MD5, &mut encoded);

        assert_eq!(encoding.decode(&encoded).as_deref(), Some(&EMPTY_MD5[..]));
    }
}

/// Annotation #48 asks readers to accept the two characters Base32 padding and Base64 need,
/// which the published `token` grammar excludes.
#[test]
fn accepts_the_characters_annotation_48_allows() {
    for value in [b"md5:BAZ===".as_slice(), b"sha-256:a/b+c=".as_slice()] {
        assert!(LabelledDigest::parse(value).is_ok(), "{value:?}");
    }
}

#[test]
fn rejects_malformed_digests() {
    for (value, expected) in [
        (
            b"nocolon".as_slice(),
            DigestError::NoSeparator {
                value: "nocolon".to_owned(),
            },
        ),
        (
            b":value".as_slice(),
            DigestError::MalformedAlgorithm {
                algorithm: String::new(),
            },
        ),
        (
            b"algorithm:".as_slice(),
            DigestError::MalformedValue {
                digest: String::new(),
            },
        ),
        (
            b"algorithm:with space".as_slice(),
            DigestError::MalformedValue {
                digest: "with space".to_owned(),
            },
        ),
        (
            b"with space:value".as_slice(),
            DigestError::MalformedAlgorithm {
                algorithm: "with space".to_owned(),
            },
        ),
    ] {
        assert_eq!(LabelledDigest::parse(value), Err(expected), "{value:?}");
    }
}

#[test]
fn parses_a_bare_media_type() {
    let media_type = MediaType::parse(b"application/warc-fields").unwrap();

    assert_eq!(media_type.main_type(), "application");
    assert_eq!(media_type.subtype(), "warc-fields");
    assert!(media_type.is("APPLICATION", "WARC-Fields"));
    assert!(!media_type.is("application", "http"));
    assert_eq!(media_type.parameters().len(), 0);
}

/// Errata #38 adds the `OWS` the standard's own examples use and the published grammar forbids.
#[test]
fn accepts_the_whitespace_errata_38_allows() {
    for value in [
        b"application/http;msgtype=response".as_slice(),
        b"application/http; msgtype=response".as_slice(),
        b"application/http ;  msgtype=response".as_slice(),
        b"application/http\t;\tmsgtype=response".as_slice(),
    ] {
        let media_type = MediaType::parse(value).unwrap_or_else(|_| panic!("{value:?}"));
        assert!(media_type.is("application", "http"));
        assert_eq!(
            media_type.parameter("msgtype").map(ParameterValue::as_str),
            Some("response")
        );
        // The `OWS` is kept as read, so each spelling writes back as itself.
        assert_eq!(media_type.to_string().as_bytes(), value);
    }
}

/// Each separator is the white space around its own `;`, so spellings that differ from one
/// parameter to the next are each kept.
#[test]
fn keeps_the_whitespace_of_each_parameter_separately() {
    let value = b"text/plain ;a=1;\tb=\"x ; y\" ;  c=3".as_slice();
    let media_type = MediaType::parse(value).unwrap();

    assert_eq!(media_type.parameters().len(), 3);
    assert_eq!(
        media_type.parameter("b").map(ParameterValue::as_str),
        Some("x ; y")
    );
    assert_eq!(media_type.to_string().as_bytes(), value);
}

#[test]
fn parses_quoted_and_repeated_parameters() {
    let media_type = MediaType::parse(br#"text/plain; charset="utf-8"; x="a;b\"c""#).unwrap();

    assert_eq!(
        media_type.parameter("CHARSET").map(ParameterValue::as_str),
        Some("utf-8")
    );
    // A `;` inside a quoted string does not start a new parameter.
    assert_eq!(
        media_type.parameter("x").map(ParameterValue::as_str),
        Some(r#"a;b"c"#)
    );
    assert_eq!(media_type.parameters().len(), 2);
    assert_eq!(
        media_type.to_string(),
        r#"text/plain; charset="utf-8"; x="a;b\"c""#
    );
}

/// Each constant is the media type it is documented as, and reading that spelling gives the
/// constant back.
#[test]
fn the_constants_are_the_types_they_are_written_as() {
    for (constant, spelling) in [
        (MediaType::http(), "application/http"),
        (MediaType::http_request(), "application/http;msgtype=request"),
        (
            MediaType::http_response(),
            "application/http;msgtype=response",
        ),
        (MediaType::warc_fields(), "application/warc-fields"),
        (MediaType::octet_stream(), "application/octet-stream"),
        (MediaType::json(), "application/json"),
        (MediaType::text_plain(), "text/plain"),
        (MediaType::text_dns(), "text/dns"),
    ] {
        assert_eq!(constant.to_string(), spelling);

        let parsed = MediaType::parse(spelling.as_bytes()).expect("a media type");

        assert_eq!(parsed, constant);
    }
}

/// The spelling with white space around the `;` is what archives most often write, and it is
/// written back as it was read.
#[test]
fn the_spelling_archives_write_is_kept() {
    for spelling in [
        "application/http; msgtype=request",
        "application/http; msgtype=response",
    ] {
        let media_type = MediaType::parse(spelling.as_bytes()).expect("a media type");

        assert!(media_type.is("application", "http"));
        assert_eq!(media_type.to_string(), spelling);
    }
}

/// A media type spelled otherwise than a constant is read as it was written, since a value
/// keeps the white space it was read with.
#[test]
fn a_constant_spelled_another_way_keeps_its_own_spelling() {
    let media_type = MediaType::parse(b"application/http ;msgtype=response").unwrap();

    assert_ne!(media_type, MediaType::http_response());
    assert!(media_type.is("application", "http"));
    assert_eq!(
        media_type.parameter("msgtype").map(ParameterValue::as_str),
        Some("response")
    );
    assert_eq!(media_type.to_string(), "application/http ;msgtype=response");
}

#[test]
fn rejects_malformed_media_types() {
    for (value, expected) in [
        (
            b"application".as_slice(),
            MediaTypeError::NoSubtype {
                value: "application".to_owned(),
            },
        ),
        (
            b"/warc-fields".as_slice(),
            MediaTypeError::MalformedEssence {
                value: "/warc-fields".to_owned(),
            },
        ),
        (
            b"application/".as_slice(),
            MediaTypeError::MalformedEssence {
                value: "application/".to_owned(),
            },
        ),
        (
            b"application/warc fields".as_slice(),
            MediaTypeError::MalformedEssence {
                value: "application/warc fields".to_owned(),
            },
        ),
        (
            b"text/plain; noequals".as_slice(),
            MediaTypeError::MalformedParameter {
                value: "text/plain; noequals".to_owned(),
                parameter: "noequals".to_owned(),
            },
        ),
        (
            b"text/plain; =value".as_slice(),
            MediaTypeError::MalformedParameter {
                value: "text/plain; =value".to_owned(),
                parameter: "=value".to_owned(),
            },
        ),
        (
            br#"text/plain; x="unterminated"#.as_slice(),
            MediaTypeError::MalformedQuotedValue {
                value: "text/plain; x=\"unterminated".to_owned(),
                parameter: "x=\"unterminated".to_owned(),
                source: QuotedStringError::Unterminated,
            },
        ),
    ] {
        assert_eq!(MediaType::parse(value), Err(expected), "{value:?}");
    }
}

/// A quoted parameter value is made of `qdtext` and `quoted-pair`, and a control character is
/// neither: `quoted-pair` escapes an octet, so a backslash does not admit one.
#[test]
fn rejects_controls_in_a_quoted_parameter() {
    // Each offset counts from the quote opening the parameter's value.
    for (value, offset) in [
        (b"text/plain; x=\"a\0b\"".as_slice(), 2),
        (b"text/plain; x=\"a\x7fb\"".as_slice(), 2),
        (b"text/plain; x=\"a\\\0b\"".as_slice(), 3),
        (b"text/plain; x=\"a\\\x7fb\"".as_slice(), 3),
    ] {
        assert!(
            matches!(
                MediaType::parse(value),
                Err(MediaTypeError::MalformedQuotedValue {
                    source: QuotedStringError::ControlCharacter { index },
                    ..
                }) if index == offset
            ),
            "{value:?}"
        );
    }
}

/// A rule is named without the field whose value failed it, since the same rule serves several
/// fields.
#[test]
fn each_error_names_the_rule_it_failed() {
    let expectations = [
        (Error::Digits("12 34".to_owned()), "not a number: 12 34"),
        (
            Error::Token("two words".to_owned()),
            "not a token: two words",
        ),
        (Error::Uri("not a uri".to_owned()), "not a URI: not a uri"),
        (
            Error::Digest(DigestError::MalformedValue {
                digest: "sha1".to_owned(),
            }),
            "not a labelled digest: `sha1` is not a digest value",
        ),
        (
            Error::MediaType(MediaTypeError::NoSubtype {
                value: "text".to_owned(),
            }),
            "not a media type: no `/` separating type from subtype in `text`",
        ),
        (
            Error::IpAddress("::garbage".to_owned()),
            "not an IP address: ::garbage",
        ),
        (
            Error::Date("yesterday".to_owned()),
            "not a timestamp: yesterday",
        ),
        (
            Error::Text(TextError::ControlCharacter {
                value: "with\u{7}bell".to_owned(),
                index: 4,
            }),
            "not text: a control character is written at byte 4 of `with\u{7}bell`",
        ),
    ];

    for (error, message) in expectations {
        assert_eq!(error.to_string(), message);
    }
}

/// A value read against a rule written in terms of another reports that rule.
#[test]
fn a_nested_rule_is_reported_as_a_source() {
    let error = Error::Text(TextError::QuotedString {
        value: "\"unterminated".to_owned(),
        source: QuotedStringError::Unterminated,
    });

    assert_eq!(
        error.to_string(),
        "not text: `\"unterminated` is not a quoted string, \
         since it does not open and close with a quote"
    );
}

/// White space stands around a `;` and nowhere else, and each `;` introduces a parameter.
#[test]
fn white_space_and_separators_stand_where_the_grammar_has_them() {
    for value in ["text/plain ", " text/plain", "text/plain\t", " text/plain;a=1"] {
        assert_eq!(
            MediaType::parse(value.as_bytes()),
            Err(MediaTypeError::MalformedEssence {
                value: value.to_owned(),
            }),
            "{value:?}"
        );
    }
    for (value, parameter) in [
        ("text/html;", ""),
        ("text/html; ", ""),
        ("text/html;;a=1", ""),
        ("text/html;a=1 ", "a=1 "),
    ] {
        assert_eq!(
            MediaType::parse(value.as_bytes()),
            Err(MediaTypeError::MalformedParameter {
                value: value.to_owned(),
                parameter: parameter.to_owned(),
            }),
            "{value:?}"
        );
    }
}

/// A quoted value that is not UTF-8 is refused.
#[test]
fn a_quoted_value_that_is_not_text_is_refused() {
    assert!(matches!(
        MediaType::parse(b"text/plain; x=\"\xff\""),
        Err(MediaTypeError::NonUtf8ParameterValue { .. })
    ));
}

/// The digests of the empty content, and of another, are those of the published test vectors.
#[test]
fn supported_algorithms_digest_their_content() {
    assert_eq!(
        DigestAlgorithm::Md5.digest(b"").as_deref(),
        Some(&EMPTY_MD5[..])
    );
    assert_eq!(
        DigestAlgorithm::Sha1.digest(b"").as_deref(),
        Some(&EMPTY_SHA1[..])
    );
    assert_eq!(
        encode16(&DigestAlgorithm::Sha256.digest(b"abc").expect("a digest")),
        b"ba7816bf8f01cfea414140de5dae2223b00361a396177a9cb410ff61f20015ad"
    );
    assert_eq!(DigestAlgorithm::Other("blake3".to_owned()).digest(b""), None);
    assert!(DigestAlgorithm::Md5.is_supported());
    assert!(!DigestAlgorithm::Other("blake3".to_owned()).is_supported());
    assert_eq!(Supported::Sha256.algorithm(), DigestAlgorithm::Sha256);
}

/// The three encodings write the published test vectors.
#[test]
fn encodings_write_the_published_vectors() {
    assert_eq!(encode16(b"foobar"), b"666f6f626172");
    assert_eq!(encode32(b"fooba"), b"MZXW6YTB");
    assert_eq!(encode32(b"foobar"), b"MZXW6YTBOI======");
    assert_eq!(encode64(b"foob"), b"Zm9vYg==");
}

/// A digest written in any encoding reads back as its octets.
#[test]
fn a_digest_in_any_encoding_reads_back() {
    for encoding in [
        DigestEncoding::Base16,
        DigestEncoding::Base32,
        DigestEncoding::Base64,
    ] {
        let written = LabelledDigest::from_digest_in(DigestAlgorithm::Sha1, encoding, &EMPTY_SHA1);
        let read = digest(&written.to_string());

        assert_eq!(read.encoding(), Some(encoding));
        assert_eq!(read.decoded().as_deref(), Some(&EMPTY_SHA1[..]));
    }
}

/// A label and a value are held to the grammar when a digest is made of them.
#[test]
fn a_digest_is_made_of_a_label_and_a_value() {
    assert_eq!(
        LabelledDigest::new("sha1", "AAAA").expect("a digest"),
        digest("sha1:AAAA")
    );
    assert!(matches!(
        LabelledDigest::new("two words", "AAAA"),
        Err(DigestError::MalformedAlgorithm { .. })
    ));
    assert!(matches!(
        LabelledDigest::new("sha1", "a b"),
        Err(DigestError::MalformedValue { .. })
    ));
    // Each half is held to its own grammar, so the half that breaks it is the one that is named.
    assert_eq!(
        LabelledDigest::new("a:b", "c"),
        Err(DigestError::MalformedAlgorithm {
            algorithm: "a:b".to_owned(),
        })
    );
    assert_eq!(
        LabelledDigest::new("sha1", "b:c"),
        Err(DigestError::MalformedValue {
            digest: "b:c".to_owned(),
        })
    );
    assert_eq!(
        LabelledDigest::new("SHA-1", "AAAA").expect("a digest").to_string(),
        "SHA-1:AAAA"
    );
    assert_eq!(
        DigestAlgorithm::parse("SHA-256").expect("a label"),
        DigestAlgorithm::Sha256
    );
    assert_eq!(DigestAlgorithm::Sha256.digest_length(), Some(32));
    assert_eq!(
        DigestAlgorithm::Sha1.recommended_encoding(),
        DigestEncoding::Base32
    );
}

/// An address reads in either family, and is written in its canonical spelling.
#[test]
fn addresses_are_written_canonically() {
    for (value, expected) in [
        ("203.0.113.7", "203.0.113.7"),
        ("2001:db8::1", "2001:db8::1"),
        ("2001:DB8:0:0:0:0:0:1", "2001:db8::1"),
        ("::ffff:192.0.2.1", "::ffff:192.0.2.1"),
        ("::", "::"),
    ] {
        assert_eq!(
            IpAddress::parse(value.as_bytes()).map(|address| address.to_string()),
            Some(expected.to_owned()),
            "{value}"
        );
    }

    for value in ["256.0.0.1", "1.2.3", "01.2.3.4", "::garbage", "1::2::3", ""] {
        assert_eq!(IpAddress::parse(value.as_bytes()), None, "{value}");
    }
}

/// A URI has a scheme; anything else is refused with what was read.
#[test]
fn a_uri_has_a_scheme() {
    let uri = Uri::parse("https://example.com/").expect("a URI");
    assert_eq!(uri.as_str(), "https://example.com/");
    assert!(uri.has_scheme("HTTPS"));
    assert!(!uri.has_scheme("http"));
    assert!(Uri::parse("not a uri").is_err());
    assert!(Uri::parse("/relative").is_err());
}

/// A day that the calendar does not have is no date.
#[test]
fn a_date_is_one_of_the_calendar() {
    assert!(WarcDate::parse("2020-02-29", WarcVersion::V1_1).is_some());
    assert_eq!(WarcDate::parse("2021-02-29", WarcVersion::V1_1), None);
    assert_eq!(WarcDate::parse("2020-13", WarcVersion::V1_1), None);
    assert_eq!(UtcDateTime::new(2021, 2, 29, 0, 0, 0, 0), None);
    assert_eq!(UtcDateTime::new(2020, 1, 1, 24, 0, 0, 0), None);
    assert_eq!(WarcDate::from(instant()).precision(), WarcDatePrecision::Fraction(9));
}

/// A date is the greatest instant that its precision spells and that is not after the one given.
#[test]
fn a_date_is_the_greatest_instant_of_its_precision() {
    let instant = UtcDateTime::new(2026, 7, 26, 1, 2, 3, 987_654_321).expect("an instant");
    let date = WarcDate::new(instant, WarcDatePrecision::Fraction(2));

    assert_eq!(date.date_time().nanosecond(), 980_000_000);
    assert_eq!(WarcDate::new(date.date_time(), date.precision()), date);
    assert_eq!(
        WarcDate::new(instant, WarcDatePrecision::Month).date_time(),
        UtcDateTime::new(2026, 7, 1, 0, 0, 0, 0).expect("an instant")
    );
    assert_eq!(
        WarcDate::new(instant, WarcDatePrecision::Fraction(12)).precision(),
        WarcDatePrecision::Fraction(9)
    );
}

/// An instant in a leap second is held and written as the second behind its own.
#[test]
fn a_date_may_lie_in_a_leap_second() {
    let leap = UtcDateTime::new(2016, 12, 31, 23, 59, 59, 1_500_000_000).expect("an instant");
    let date = WarcDate::from(leap);

    assert_eq!(date.date_time(), leap);
    assert_eq!(date.precision(), WarcDatePrecision::Fraction(1));
    assert_eq!(date.to_string(), "2016-12-31T23:59:60.1Z");
    assert_eq!(
        date.to_string_for_version(WarcVersion::V1_0),
        "2016-12-31T23:59:60Z"
    );
    assert_eq!(WarcDate::parse(&date.to_string(), WarcVersion::V1_1), None);

    let date = WarcDate::new(leap, WarcDatePrecision::Second);
    assert_eq!(date.date_time().nanosecond(), 0);
    assert_eq!(date.to_string(), "2016-12-31T23:59:59Z");

    let last = UtcDateTime::new(2016, 12, 31, 23, 59, 59, 1_999_999_999).expect("an instant");
    let date = WarcDate::new(last, WarcDatePrecision::Fraction(3));
    assert_eq!(date.date_time().nanosecond(), 1_999_000_000);
    assert_eq!(date.to_string(), "2016-12-31T23:59:60.199Z");
    assert_eq!(WarcDate::from(last).precision(), WarcDatePrecision::Fraction(9));

    let first = UtcDateTime::new(2016, 12, 31, 23, 59, 30, 1_000_000_000).expect("an instant");
    assert_eq!(WarcDate::from(first).precision(), WarcDatePrecision::Fraction(1));
    assert_eq!(WarcDate::from(first).to_string(), "2016-12-31T23:59:31.1Z");
    assert_eq!(UtcDateTime::new(2016, 12, 31, 23, 59, 59, 2_000_000_000), None);
}
