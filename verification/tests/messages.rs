//! HTTP messages, their payloads, and what those are identified as.

use archivindex_warc::record::http::{
    reconstruct_request, reconstruct_response, request_message, response_message, Error, Method,
    ResponseMetadata, StatusCode, Target, Version,
};
use archivindex_warc::record::identify::{
    declared_content_type, http_payload_type, identified_type, payload_type,
};
use archivindex_warc::record::payload::{entity_body, Error as PayloadError};
use archivindex_warc::value::media_type::MediaType;

fn status(code: u16) -> StatusCode {
    StatusCode::from_u16(code).expect("a status code")
}

fn method(name: &str) -> Method {
    Method::parse(name).expect("a method")
}

#[test]
fn response_metadata_preserves_boundaries_and_header_values() {
    let response = b"HTTP/1.1 206 Partial Content\r\nX-Test: first\r\nx-test: second\r\nX-Binary: \xff\r\n\r\nbody";
    let metadata = ResponseMetadata::parse(response).unwrap();

    assert_eq!(metadata.status, 206);
    assert_eq!(&response[metadata.body_offset..], b"body");
    assert_eq!(metadata.header("X-TEST"), Some(b"first".as_slice()));
    assert_eq!(metadata.header("x-binary"), Some(b"\xff".as_slice()));
}

#[test]
fn response_metadata_unfolds_continuation_lines() {
    let response = b"HTTP/1.0 200 OK\r\nX-Test: one\r\n\ttwo\r\n three\r\n\r\n";
    let metadata = ResponseMetadata::parse(response).unwrap();

    assert_eq!(metadata.header("x-test"), Some(b"one two three".as_slice()));
}

#[test]
fn response_metadata_rejects_incomplete_or_malformed_messages() {
    assert!(ResponseMetadata::parse(b"HTTP/1.1 200 OK\r\nX: y\r\n").is_none());
    assert!(ResponseMetadata::parse(b"not HTTP\r\n\r\n").is_none());
    assert!(ResponseMetadata::parse(b"HTTP/1.1 20 OK\r\n\r\n").is_none());
}

fn headers(lines: &[(&'static str, &'static str)]) -> ::http::HeaderMap {
    lines
        .iter()
        .map(|(name, value)| {
            (
                ::http::HeaderName::from_static(name),
                ::http::HeaderValue::from_static(value),
            )
        })
        .collect()
}

/// A recorded body replaces transfer coding with length framing.
#[test]
fn response_with_a_body_rewrites_its_framing() {
    let message = reconstruct_response(
        Version::Http11,
        status(200),
        &headers(&[
            ("content-type", "text/plain"),
            ("transfer-encoding", "chunked"),
            ("content-length", "999"),
        ]),
        Some(b"hello world!"),
    )
    .unwrap();

    assert_eq!(
        message,
        b"HTTP/1.1 200 OK\r\n\
          content-type: text/plain\r\n\
          content-length: 12\r\n\
          \r\n\
          hello world!"
    );
}

/// The status line retains its required space when no reason phrase is available.
#[test]
fn status_line_keeps_its_space_without_a_reason_phrase() {
    let message = reconstruct_response(
        Version::Http11,
        status(520),
        &::http::HeaderMap::new(),
        Some(b"?"),
    )
    .unwrap();

    assert_eq!(message, b"HTTP/1.1 520 \r\ncontent-length: 1\r\n\r\n?");
}

/// A bodyless status preserves headers that describe the selected representation.
#[test]
fn bodiless_status_preserves_its_headers() {
    for body in [None, Some(&b""[..])] {
        let message = reconstruct_response(
            Version::Http11,
            status(304),
            &headers(&[("content-length", "1234"), ("etag", "\"abc\"")]),
            body,
        )
        .unwrap();

        assert_eq!(
            message,
            b"HTTP/1.1 304 Not Modified\r\n\
              content-length: 1234\r\n\
              etag: \"abc\"\r\n\
              \r\n"
        );
    }
}

/// A bodyless status rejects a non-empty body.
#[test]
fn bodiless_status_refuses_a_body() {
    let error = reconstruct_response(
        Version::Http11,
        status(204),
        &::http::HeaderMap::new(),
        Some(b"x"),
    )
    .unwrap_err();

    assert_eq!(error, Error::BodyForbidden(status(204)));
    assert_eq!(
        error.to_string(),
        "A 204 No Content response cannot carry a body."
    );
}

/// An absent body preserves framing headers.
#[test]
fn absent_body_preserves_framing_headers() {
    let message = reconstruct_response(
        Version::Http11,
        status(200),
        &headers(&[("content-length", "5")]),
        None,
    )
    .unwrap();

    assert_eq!(message, b"HTTP/1.1 200 OK\r\ncontent-length: 5\r\n\r\n");
}

/// Versions without an HTTP/1.1 wire form are written with the `HTTP/1.1` token.
#[test]
fn version_tokens() {
    for (version, expected) in [
        (Version::Http09, &b"HTTP/0.9 200 OK\r\n\r\n"[..]),
        (Version::Http10, b"HTTP/1.0 200 OK\r\n\r\n"),
        (Version::Http11, b"HTTP/1.1 200 OK\r\n\r\n"),
        (Version::Http2, b"HTTP/1.1 200 OK\r\n\r\n"),
        (Version::Http3, b"HTTP/1.1 200 OK\r\n\r\n"),
    ] {
        let message =
            reconstruct_response(version, status(200), &::http::HeaderMap::new(), None).unwrap();

        assert_eq!(message, expected, "{version:?}");
    }
}

/// Entity-body extraction recovers the recorded body.
#[test]
fn entity_body_reads_back_the_recorded_body() {
    let body: &[u8] = b"the recorded body";
    let message = reconstruct_response(
        Version::Http11,
        status(200),
        &headers(&[("transfer-encoding", "chunked")]),
        Some(body),
    )
    .unwrap();

    assert_eq!(
        entity_body(&message)
            .unwrap()
            .as_ref(),
        body
    );
}

/// Origin-form retains the query and leaves the authority in `Host`.
#[test]
fn request_target_is_written_in_origin_form() {
    let target = Target::parse("http://example.com/a/b?q=1").unwrap();
    let message = reconstruct_request(
        &method("GET"),
        &target,
        Version::Http11,
        &headers(&[("host", "example.com")]),
        None,
    );

    assert_eq!(
        message,
        b"GET /a/b?q=1 HTTP/1.1\r\nhost: example.com\r\n\r\n"
    );
}

/// A target with no path names the root resource.
#[test]
fn request_target_defaults_to_the_root() {
    let target = Target::parse("http://example.com").unwrap();
    let message = reconstruct_request(
        &method("GET"),
        &target,
        Version::Http11,
        &::http::HeaderMap::new(),
        None,
    );

    assert_eq!(message, b"GET / HTTP/1.1\r\n\r\n");
}

/// A matching `Content-Length` remains in place.
#[test]
fn matching_content_length_is_kept_in_place() {
    let message = reconstruct_response(
        Version::Http11,
        status(200),
        &headers(&[("content-length", "5"), ("server", "test")]),
        Some(b"hello"),
    )
    .unwrap();

    assert_eq!(
        message,
        b"HTTP/1.1 200 OK\r\n\
          content-length: 5\r\n\
          server: test\r\n\
          \r\n\
          hello"
    );
}

/// A recorded request body is framed by its length, like a response body.
#[test]
fn request_with_a_body_rewrites_its_framing() {
    let target = Target::parse("/submit").unwrap();
    let message = reconstruct_request(
        &method("POST"),
        &target,
        Version::Http11,
        &headers(&[("host", "example.com"), ("transfer-encoding", "chunked")]),
        Some(b"hello"),
    );

    assert_eq!(
        message,
        b"POST /submit HTTP/1.1\r\n\
          host: example.com\r\n\
          content-length: 5\r\n\
          \r\n\
          hello"
    );
}

/// The version's token and the lines are written as they are given where nothing frames a body.
#[test]
fn messages_are_written_from_plain_lines() {
    let lines = vec![("host".to_string(), b"example.com".to_vec())];

    assert_eq!(
        request_message(
            &method("HEAD"),
            &Target::parse("http://example.com/?q").unwrap(),
            Version::Http10,
            &lines,
            None,
        ),
        b"HEAD /?q HTTP/1.0\r\nhost: example.com\r\n\r\n"
    );
    assert_eq!(
        response_message(Version::Http11, status(404), &lines, Some(b"gone")).unwrap(),
        b"HTTP/1.1 404 Not Found\r\nhost: example.com\r\ncontent-length: 4\r\n\r\ngone"
    );
}

/// A request's body reads back from its message as it was recorded.
#[test]
fn a_request_body_reads_back() {
    let message = reconstruct_request(
        &method("POST"),
        &Target::parse("/submit").unwrap(),
        Version::Http11,
        &headers(&[("transfer-encoding", "chunked")]),
        Some(b"hello"),
    );

    assert_eq!(entity_body(&message).unwrap().as_ref(), b"hello");
}

/// The parts of a target are those that its text spells.
#[test]
fn a_target_has_the_parts_that_it_spells() {
    let target = Target::parse("https://example.com:8443/a?b").unwrap();

    assert_eq!(target.scheme(), Some("https"));
    assert_eq!(target.authority(), Some("example.com:8443"));
    assert_eq!(target.host(), Some("example.com"));
    assert_eq!(target.port(), Some(8443));
    assert_eq!(target.text(), "https://example.com:8443/a?b");
    assert!(Target::parse("http://exa mple.com/").is_none());
}

/// A method is a token, and a status code has three digits.
#[test]
fn methods_and_status_codes_are_held_to_their_grammar() {
    assert_eq!(method("PROPFIND").as_str(), "PROPFIND");
    assert!(Method::parse("").is_none());
    assert!(Method::parse("GET /").is_none());
    assert_eq!(StatusCode::from_u16(99), None);
    assert_eq!(StatusCode::from_u16(1000), None);
    assert_eq!(status(999).as_u16(), 999);
}

/// Without transfer-coding, the bytes after the header section are the entity-body.
#[test]
fn body_of_an_unencoded_message() {
    let message = b"HTTP/1.1 200 OK\r\nContent-Length: 5\r\n\r\nhello";

    assert_eq!(entity_body(message).unwrap().as_ref(), b"hello");
}

/// A message ending after its headers has an empty entity-body.
#[test]
fn body_of_a_message_without_one() {
    let message = b"HTTP/1.1 204 No Content\r\n\r\n";

    assert_eq!(entity_body(message).unwrap().as_ref(), b"");
}

/// Bare `LF` line endings are accepted, as elsewhere in this crate.
#[test]
fn body_of_a_message_written_with_bare_line_feeds() {
    let message = b"HTTP/1.1 200 OK\nContent-Length: 5\n\nhello";

    assert_eq!(entity_body(message).unwrap().as_ref(), b"hello");
}

/// A header section without a closing empty line has no identifiable body.
#[test]
fn unterminated_headers() {
    for message in [
        b"HTTP/1.1 200 OK\r\nContent-Length: 5\r\n".as_slice(),
        b"HTTP/1.1 200 OK\r\n".as_slice(),
        b"".as_slice(),
    ] {
        assert_eq!(
            entity_body(message).unwrap_err(),
            PayloadError::UnterminatedHeaders,
            "{message:?}"
        );
    }
}

/// Chunk sizes, extensions, and trailers are framing and are removed.
#[test]
fn chunked_body_is_joined() {
    let message = [
        "HTTP/1.1 200 OK\r\n",
        "Transfer-Encoding: chunked\r\n",
        "\r\n",
        "5;name=value\r\n",
        "hello\r\n",
        "2\r\n",
        " w\r\n",
        "5\r\n",
        "orld!\r\n",
        "0\r\n",
        "Expires: Wed, 21 Oct 2026 07:28:00 GMT\r\n",
        "\r\n",
    ]
    .concat();

    assert_eq!(
        entity_body(message.as_bytes()).unwrap().as_ref(),
        b"hello world!"
    );
}

/// A chunked body may end immediately after its zero-length chunk.
#[test]
fn chunked_body_ending_at_its_last_chunk() {
    let message = b"HTTP/1.1 200 OK\r\nTransfer-Encoding: chunked\r\n\r\n3\r\nabc\r\n0\r\n";

    assert_eq!(entity_body(message).unwrap().as_ref(), b"abc");
}

/// The `identity` coding leaves the body unchanged.
#[test]
fn identity_coding_is_dropped() {
    let message = b"HTTP/1.1 200 OK\r\nTransfer-Encoding: Identity\r\n\r\nhello";

    assert_eq!(entity_body(message).unwrap().as_ref(), b"hello");
}

/// Repeated and folded `Transfer-Encoding` fields form one comma-separated list.
#[test]
fn transfer_encoding_is_read_as_one_list() {
    let message = [
        "HTTP/1.1 200 OK\r\n",
        "Transfer-Encoding: identity,\r\n",
        "\tchunked\r\n",
        "Transfer-Encoding: identity\r\n",
        "\r\n",
        "3\r\nabc\r\n0\r\n\r\n",
    ]
    .concat();

    assert_eq!(entity_body(message.as_bytes()).unwrap().as_ref(), b"abc");
}

/// An unsupported coding is reported with the complete value that named it.
#[test]
fn unsupported_transfer_coding() {
    let message = b"HTTP/1.1 200 OK\r\nTransfer-Encoding: gzip, chunked\r\n\r\nhello";

    assert_eq!(
        entity_body(message).unwrap_err(),
        PayloadError::UnsupportedTransferCoding("gzip, chunked".to_owned())
    );
}

/// Content-coding is part of the entity-body and remains unchanged.
#[test]
fn content_coding_is_left_in_place() {
    let message = b"HTTP/1.1 200 OK\r\nContent-Encoding: gzip\r\n\r\n\x1f\x8b\x08";

    assert_eq!(entity_body(message).unwrap().as_ref(), b"\x1f\x8b\x08");
}

#[test]
fn malformed_chunked_bodies() {
    let prefix = "HTTP/1.1 200 OK\r\nTransfer-Encoding: chunked\r\n\r\n";

    for (body, expected) in [
        // A chunk after the first declares a size that is not one.
        (
            "3\r\nabc\r\nzz\r\ndef\r\n0\r\n\r\n",
            PayloadError::MalformedChunkSize("zz".to_owned()),
        ),
        // The body ends inside the data of a chunk.
        ("5\r\nabc", PayloadError::IncompleteChunkedBody),
        // The data of a chunk is not closed by a line ending.
        ("3\r\nabcdef\r\n0\r\n\r\n", PayloadError::IncompleteChunkedBody),
        // No chunk closes the body.
        ("3\r\nabc\r\n", PayloadError::IncompleteChunkedBody),
    ] {
        let message = [prefix.as_bytes(), body.as_bytes()].concat();

        assert_eq!(entity_body(&message).unwrap_err(), expected, "{body:?}");
    }
}

/// Capturing tools store dechunked bodies under the `Transfer-Encoding` the response carried,
/// which the payload digests of such records are computed over.
#[test]
fn body_declared_chunked_that_does_not_open_as_one_is_read_as_stored() {
    let prefix = "HTTP/1.1 200 OK\r\nTransfer-Encoding: chunked\r\nContent-Length: -1\r\n\r\n";

    for body in [
        "<!doctype html>\r\n<title>a</title>",
        "zz\r\nabc\r\n0\r\n\r\n",
        "",
    ] {
        let message = [prefix.as_bytes(), body.as_bytes()].concat();

        assert_eq!(
            entity_body(&message).unwrap().as_ref(),
            body.as_bytes(),
            "{body:?}"
        );
    }
}

const JSON_PAYLOAD: &[u8] = br#"{"key": [1, 2]}"#;

/// The eight-byte PNG signature, padded so the payload is more than a bare signature.
const PNG_PAYLOAD: &[u8] = b"\x89PNG\r\n\x1a\n\0\0\0\rIHDR\0\0\0\x01\0\0\0\x01";

fn media_type(value: &str) -> MediaType {
    MediaType::parse(value.as_bytes()).expect("a media type")
}

/// Valid JSON is identified as `application/json`, whatever JSON type was declared.
#[test]
fn a_declared_json_payload_that_parses_is_identified_as_json() {
    for declared in ["application/json", "application/ld+json", "text/json"] {
        assert_eq!(
            payload_type(JSON_PAYLOAD, Some(&media_type(declared))),
            Some(MediaType::json()),
            "{declared}"
        );
    }
}

/// Invalid declared JSON is identified from its content instead.
#[test]
fn a_declared_json_payload_that_does_not_parse_is_identified_by_content() {
    assert_eq!(
        payload_type(b"not json at all", Some(&MediaType::json())),
        Some(MediaType::text_plain())
    );
}

/// Without a JSON declaration, JSON is identified as plain text because it has no signature.
#[test]
fn json_is_identified_only_against_a_declaration() {
    assert_eq!(
        payload_type(JSON_PAYLOAD, None),
        Some(MediaType::text_plain())
    );
    assert_eq!(
        payload_type(JSON_PAYLOAD, Some(&MediaType::text_plain())),
        Some(MediaType::text_plain())
    );
}

/// A signature outranks the declaration, since identification examines the payload.
#[test]
fn a_signature_identifies_the_payload_whatever_was_declared() {
    assert_eq!(
        payload_type(PNG_PAYLOAD, Some(&MediaType::text_plain())),
        Some(media_type("image/png"))
    );
    assert_eq!(
        payload_type(PNG_PAYLOAD, None),
        Some(media_type("image/png"))
    );
}

/// Empty and unrecognized payloads are not identified as `application/octet-stream`.
#[test]
fn an_unidentifiable_payload_has_no_type() {
    assert_eq!(payload_type(b"", None), None);
    assert_eq!(payload_type(&[0u8; 32], None), None);
    assert_eq!(payload_type(&[0u8; 32], Some(&MediaType::json())), None);
}

/// Chunk framing is removed and the declared `Content-Type` is used during identification.
#[test]
fn the_entity_body_of_a_chunked_message_is_identified() {
    let message = b"HTTP/1.1 200 OK\r\n\
        Content-Type: application/json\r\n\
        Transfer-Encoding: chunked\r\n\
        \r\n\
        7\r\n{\"key\":\r\n8\r\n [1, 2]}\r\n0\r\n\r\n";

    assert_eq!(http_payload_type(message), Some(MediaType::json()));
}

/// A message whose entity-body cannot be extracted is not identified.
#[test]
fn a_message_without_a_readable_body_is_not_identified() {
    for message in [
        // A transfer-coding this crate cannot remove.
        &b"HTTP/1.1 200 OK\r\nTransfer-Encoding: gzip\r\n\r\n\x1f\x8b\x08"[..],
        // No body at all.
        &b"HTTP/1.1 204 No Content\r\n\r\n"[..],
        // No terminated header section.
        &b"HTTP/1.1 200 OK\r\n"[..],
    ] {
        assert_eq!(http_payload_type(message), None, "{message:?}");
    }
}

/// The declaration is the first `Content-Type` when it is well-formed, with folds joined.
#[test]
fn the_declared_content_type_is_read_from_the_header_section() {
    assert_eq!(
        declared_content_type(
            b"HTTP/1.1 200 OK\r\nSERVER: test\r\nCONTENT-TYPE: application/json\r\n\r\n"
        ),
        Some(MediaType::json())
    );
    assert_eq!(
        declared_content_type(
            b"HTTP/1.1 200 OK\r\nContent-Type: text/plain\r\n ;charset=utf-8\r\n\r\n"
        ),
        Some(media_type("text/plain ;charset=utf-8"))
    );
    assert_eq!(
        declared_content_type(b"HTTP/1.1 200 OK\r\nContent-Length: 0\r\n\r\n"),
        None
    );
    assert_eq!(
        declared_content_type(b"HTTP/1.1 200 OK\r\nContent-Type: not a media type\r\n\r\n"),
        None
    );
}

/// What identification says of a payload follows from what was declared, whether it parses, and
/// what its signature says.
#[test]
fn a_payload_is_identified_from_what_is_found() {
    assert_eq!(
        identified_type(b"{}", Some(&MediaType::json()), true, false, "text/plain"),
        Some(MediaType::json())
    );
    assert_eq!(
        identified_type(b"x", None, true, false, "text/plain"),
        Some(MediaType::text_plain())
    );
    assert_eq!(identified_type(b"", None, false, false, "text/plain"), None);
    assert_eq!(identified_type(b"x", None, false, true, "text/plain"), None);
}
