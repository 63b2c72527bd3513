//! Reading responses, and what a fetch sends and keeps.

use archivindex_warc::record::header::truncated_type::TruncatedType;
use archivindex_warc::record::http::{Method, Target};
use archivindex_warc::record::Record;
use archivindex_warc::recorder::chunks::{
    parse_chunk_size, ChunkError, ChunkScanner, ChunkStage,
};
use archivindex_warc::recorder::framing::{body_framing, BodyFraming, ResponseError};
use archivindex_warc::recorder::response::{find_header_end, ReadEvent, ResponseReader, Step};
use archivindex_warc::recorder::{plan_request, CapturedExchange, Error, Recorder};
use archivindex_warc::value::date::{UtcDateTime, WarcDate};
use archivindex_warc::value::ip::IpAddress;

/// Read a response in pieces of the given size, closing the connection behind the last.
fn read_in_pieces(
    response: &[u8],
    size: usize,
    head_request: bool,
    max_length: Option<u64>,
) -> Result<(Vec<u8>, Option<TruncatedType>), ResponseError> {
    let mut reader = ResponseReader::new(head_request, max_length);
    let mut events: Vec<ReadEvent> = response
        .chunks(size)
        .map(|piece| ReadEvent::Data(piece.to_vec()))
        .collect();
    events.push(ReadEvent::Closed);
    for event in events {
        match reader.receive(event) {
            Step::Read(next) => reader = next,
            Step::Finished {
                response,
                truncated,
            } => return Ok((response, truncated)),
            Step::Failed(error) => return Err(error),
        }
    }
    unreachable!("a close ends the reading")
}

fn read_response(
    response: &[u8],
    head_request: bool,
    max_length: Option<u64>,
) -> Result<(Vec<u8>, Option<TruncatedType>), ResponseError> {
    read_in_pieces(response, 4096, head_request, max_length)
}

fn read_all(
    response: &[u8],
    head_request: bool,
    max_length: Option<u64>,
) -> (Vec<u8>, Option<TruncatedType>) {
    read_response(response, head_request, max_length).expect("a response")
}

#[test]
fn a_content_length_body_ends_at_the_declared_length() {
    let response = b"HTTP/1.1 200 OK\r\nContent-Length: 5\r\n\r\nhello";
    let (recorded, truncated) = read_all(response, false, None);

    assert_eq!(recorded, response);
    assert_eq!(truncated, None);
}

#[test]
fn a_chunked_body_is_recorded_verbatim_through_its_trailers() {
    let response = b"HTTP/1.1 200 OK\r\nTransfer-Encoding: chunked\r\n\r\n\
        4;ext=a\r\nWiki\r\n5\r\npedia\r\n0\r\nX-Checksum: abc\r\n\r\n";
    let (recorded, truncated) = read_all(response, false, None);

    assert_eq!(recorded, response);
    assert_eq!(truncated, None);
}

#[test]
fn a_response_without_framing_extends_to_the_close() {
    let response = b"HTTP/1.1 200 OK\r\n\r\nunbounded";
    let (recorded, truncated) = read_all(response, false, None);

    assert_eq!(recorded, response);
    assert_eq!(truncated, None);
}

#[test]
fn a_non_chunked_final_transfer_coding_extends_to_the_close() {
    let response =
        b"HTTP/1.1 200 OK\r\nTransfer-Encoding: gzip\r\nContent-Length: 1\r\n\r\nmore than one";
    let (recorded, truncated) = read_all(response, false, None);

    assert_eq!(recorded, response);
    assert_eq!(truncated, None);
}

#[test]
fn a_head_response_ends_with_its_header_section() {
    let response = b"HTTP/1.1 200 OK\r\nContent-Length: 5\r\n\r\n";
    let (recorded, truncated) = read_all(response, true, None);

    assert_eq!(recorded, response);
    assert_eq!(truncated, None);
}

#[test]
fn an_interim_response_is_discarded() {
    let response = b"HTTP/1.1 103 Early Hints\r\nLink: </style.css>\r\n\r\n\
        HTTP/1.1 200 OK\r\nContent-Length: 2\r\n\r\nok";
    let (recorded, truncated) = read_all(response, false, None);

    assert_eq!(recorded, b"HTTP/1.1 200 OK\r\nContent-Length: 2\r\n\r\nok");
    assert_eq!(truncated, None);
}

#[test]
fn a_disconnect_inside_the_body_truncates_the_response() {
    let response = b"HTTP/1.1 200 OK\r\nContent-Length: 100\r\n\r\nshort";
    let (recorded, truncated) = read_all(response, false, None);

    assert_eq!(recorded, response);
    assert_eq!(truncated, Some(TruncatedType::Disconnect));
}

#[test]
fn the_length_bound_cuts_the_body_and_declares_the_reason() {
    let response = b"HTTP/1.1 200 OK\r\nContent-Length: 5\r\n\r\nhello";
    let (recorded, truncated) = read_all(response, false, Some(40));

    assert_eq!(recorded, &response[..40]);
    assert_eq!(truncated, Some(TruncatedType::Length));
}

/// A body that the bound leaves incomplete is cut there, whether the bound is passed or met, and
/// however the octets come in pieces.
#[test]
fn a_bound_that_is_met_exactly_declares_the_reason() {
    let bodies: [&[u8]; 3] = [
        b"HTTP/1.1 200 OK\r\nContent-Length: 100\r\n\r\nshort",
        b"HTTP/1.1 200 OK\r\nTransfer-Encoding: chunked\r\n\r\n5\r\nsh",
        b"HTTP/1.1 200 OK\r\n\r\nshort",
    ];
    for response in bodies {
        let bound = Some(response.len() as u64);
        for size in [1, 7, response.len()] {
            let (recorded, truncated) =
                read_in_pieces(response, size, false, bound).expect("a response");

            assert_eq!(recorded, response);
            assert_eq!(truncated, Some(TruncatedType::Length));
        }
    }

    let whole = b"HTTP/1.1 200 OK\r\nContent-Length: 5\r\n\r\nhello";
    let (recorded, truncated) = read_all(whole, false, Some(whole.len() as u64));
    assert_eq!(recorded, whole);
    assert_eq!(truncated, None);
}

#[test]
fn a_header_section_over_the_length_bound_is_an_error() {
    let response = b"HTTP/1.1 200 OK\r\nContent-Length: 5\r\n\r\nhello";
    let result = read_response(response, false, Some(10));

    assert!(matches!(
        result,
        Err(ResponseError::OversizedHeaderSection)
    ));
}

#[test]
fn conflicting_content_lengths_are_an_error() {
    let response = b"HTTP/1.1 200 OK\r\nContent-Length: 5\r\nContent-Length: 6\r\n\r\nhello!";
    let result = read_response(response, false, None);

    assert!(matches!(
        result,
        Err(ResponseError::ConflictingContentLength)
    ));
}

#[test]
fn repeated_identical_content_lengths_agree() {
    let response = b"HTTP/1.1 200 OK\r\nContent-Length: 5, 5\r\n\r\nhello";
    let (recorded, truncated) = read_all(response, false, None);

    assert_eq!(recorded, response);
    assert_eq!(truncated, None);
}

#[test]
fn a_malformed_chunk_size_is_an_error() {
    let response = b"HTTP/1.1 200 OK\r\nTransfer-Encoding: chunked\r\n\r\nxyz\r\n";
    let result = read_response(response, false, None);

    assert!(matches!(
        result,
        Err(ResponseError::MalformedChunkSize(size)) if size == "xyz"
    ));
}

#[test]
fn a_missing_status_line_is_an_error() {
    let response = b"ICY 200 OK\r\n\r\n";
    let result = read_response(response, false, None);

    assert!(matches!(
        result,
        Err(ResponseError::MalformedStatusLine)
    ));
}

#[test]
fn a_close_before_the_header_section_completes_is_an_error() {
    let response = b"HTTP/1.1 200 OK\r\nContent-";
    let result = read_response(response, false, None);

    assert!(matches!(
        result,
        Err(ResponseError::IncompleteHeaderSection)
    ));
}

#[test]
fn folded_header_lines_join_before_framing_is_read() {
    let response = b"HTTP/1.1 200 OK\r\nContent-Length:\r\n 5\r\n\r\nhello";
    let (recorded, truncated) = read_all(response, false, None);

    assert_eq!(recorded, response);
    assert_eq!(truncated, None);
}

/// The response that is read does not depend on the pieces in which it comes.
#[test]
fn a_response_in_pieces_is_the_response() {
    let response = b"HTTP/1.1 100 Continue\r\n\r\nHTTP/1.1 200 OK\r\n\
        Transfer-Encoding: chunked\r\n\r\n4\r\nWiki\r\n0\r\n\r\n";

    for size in [1, 2, 3, 7, 64] {
        assert_eq!(
            read_in_pieces(response, size, false, None).expect("a response"),
            read_all(response, false, None),
            "{size}"
        );
    }
}

/// A read that times out in the body keeps what came, and says why.
#[test]
fn a_timeout_inside_the_body_truncates_the_response() {
    let head = b"HTTP/1.1 200 OK\r\nContent-Length: 9\r\n\r\nfour".to_vec();
    let reader = match ResponseReader::new(false, None).receive(ReadEvent::Data(head.clone())) {
        Step::Read(reader) => reader,
        _ => panic!("the body is not whole yet"),
    };

    match reader.receive(ReadEvent::TimedOut) {
        Step::Finished {
            response,
            truncated,
        } => {
            assert_eq!(response, head);
            assert_eq!(truncated, Some(TruncatedType::Time));
        }
        _ => panic!("a timeout ends the reading"),
    }
}

/// A length that is no decimal number is reported as it was read.
#[test]
fn a_malformed_content_length_is_an_error() {
    assert!(matches!(
        read_response(b"HTTP/1.1 200 OK\r\nContent-Length: five\r\n\r\n", false, None),
        Err(ResponseError::MalformedContentLength(text)) if text == "five"
    ));
}

/// A chunk whose data no line break closes is an error.
#[test]
fn an_unterminated_chunk_is_an_error() {
    assert!(matches!(
        read_response(
            b"HTTP/1.1 200 OK\r\nTransfer-Encoding: chunked\r\n\r\n2\r\nabXX",
            false,
            None
        ),
        Err(ResponseError::UnterminatedChunk)
    ));
}

/// A chunk size is hexadecimal, and leaves room for the line break behind the data.
#[test]
fn chunk_sizes_are_hexadecimal() {
    assert_eq!(parse_chunk_size(b"1aF"), Ok(0x1af));
    assert_eq!(parse_chunk_size(b"fffffffffffffffd"), Ok(u64::MAX - 2));
    assert_eq!(
        parse_chunk_size(b"fffffffffffffffe"),
        Err("fffffffffffffffe".to_string())
    );
    assert_eq!(parse_chunk_size(b""), Err(String::new()));
}

/// A scanner picks up where it stopped.
#[test]
fn a_scanner_goes_on_where_it_stopped() {
    let message = b"3\r\nabc\r\n0\r\n\r\nrest";
    let mut scanner = ChunkScanner::new(0);

    assert!(matches!(scanner.advance(&message[..5]), Ok(None)));
    assert!(matches!(scanner.advance(&message[..11]), Ok(None)));
    assert!(matches!(scanner.advance(message), Ok(Some(13))));

    let mut malformed = ChunkScanner::new(0);
    assert!(matches!(
        malformed.advance(b"g\r\n"),
        Err(ChunkError::MalformedSize(text)) if text == "g"
    ));
}

/// The end of a header section is behind its empty line.
#[test]
fn a_header_section_ends_behind_its_empty_line() {
    assert_eq!(find_header_end(b"a\r\nb: c\r\n\r\nbody"), Some(11));
    assert_eq!(find_header_end(b"a\r\nb: c\r\n"), None);
}

/// How a body ends follows from the request, the status, and the header section.
#[test]
fn a_body_ends_as_its_header_says() {
    let section = b"HTTP/1.1 200 OK\r\nContent-Length: 5\r\n\r\n";
    assert!(matches!(
        body_framing(section, false, 200),
        Ok(BodyFraming::Length(5))
    ));
    assert!(matches!(
        body_framing(section, true, 200),
        Ok(BodyFraming::Empty)
    ));
    assert!(matches!(
        body_framing(section, false, 304),
        Ok(BodyFraming::Empty)
    ));
    assert!(matches!(
        body_framing(b"HTTP/1.1 200 OK\r\n\r\n", false, 200),
        Ok(BodyFraming::Close)
    ));
    assert!(matches!(
        body_framing(
            b"HTTP/1.1 200 OK\r\nTransfer-Encoding: gzip, chunked\r\n\r\n",
            false,
            200
        ),
        Ok(BodyFraming::Chunked)
    ));
}

/// A plan names the peer and carries the request as it is to be written.
#[test]
fn a_plan_says_where_to_send_what() {
    let method = Method::parse("GET").expect("a method");
    let target = Target::parse("https://user@example.com:8443/a?b").expect("a target");
    let mut headers = ::http::HeaderMap::new();
    headers.insert("accept", ::http::HeaderValue::from_static("*/*"));

    let plan = Recorder::new()
        .max_response_length(1024)
        .plan(&method, &target, &headers, None)
        .expect("a plan");

    assert!(plan.tls);
    assert_eq!(plan.host, "example.com");
    assert_eq!(plan.port, 8443);
    assert!(!plan.head_request);
    assert_eq!(plan.target_uri.as_str(), "https://user@example.com:8443/a?b");
    let request = String::from_utf8(plan.request).expect("text");
    assert!(request.starts_with("GET /a?b HTTP/1.1\r\n"), "{request}");
    assert!(request.contains("host: example.com:8443\r\n"), "{request}");
    assert!(request.contains("accept: */*\r\n"), "{request}");
}

/// The port follows from the scheme where the target names none, and brackets are no part of a host.
#[test]
fn a_plan_has_the_port_of_its_scheme() {
    let method = Method::parse("HEAD").expect("a method");
    let target = Target::parse("http://[2001:db8::1]/").expect("a target");
    let plan = plan_request(&method, &target, Vec::new(), None).expect("a plan");

    assert!(!plan.tls);
    assert_eq!(plan.host, "2001:db8::1");
    assert_eq!(plan.port, 80);
    assert!(plan.head_request);
}

/// A target of another scheme, or without a host, is not fetched.
#[test]
fn a_target_that_cannot_be_fetched_is_refused() {
    let method = Method::parse("GET").expect("a method");

    for text in ["ftp://example.com/", "/relative"] {
        let target = Target::parse(text).expect("a target");
        assert!(
            matches!(
                plan_request(&method, &target, Vec::new(), None),
                Err(Error::UnsupportedScheme)
            ),
            "{text}"
        );
    }
}

/// What was exchanged is kept as it came, with what its header section says.
#[test]
fn an_exchange_keeps_what_came() {
    let method = Method::parse("GET").expect("a method");
    let target = Target::parse("http://example.com/").expect("a target");
    let plan = plan_request(&method, &target, Vec::new(), None).expect("a plan");
    let request = plan.request.clone();
    let response = b"HTTP/1.1 200 OK\r\nTransfer-Encoding: chunked\r\n\r\n2\r\nok\r\n0\r\n\r\n";
    let date =
        WarcDate::from(UtcDateTime::new(2026, 7, 26, 1, 2, 3, 0).expect("an instant"));
    let address = IpAddress::parse(b"192.0.2.1").expect("an address");

    let exchange =
        CapturedExchange::assemble(plan, response.to_vec(), None, address, date, 1500)
            .expect("an exchange");

    assert_eq!(exchange.request, request);
    assert_eq!(exchange.response, response);
    assert_eq!(exchange.response_metadata.status, 200);
    assert_eq!(exchange.clone(), exchange);
    assert_eq!(exchange.fetch_time, 1500);
    assert_eq!(exchange.stored_body(), b"2\r\nok\r\n0\r\n\r\n");
    assert_eq!(exchange.entity_body().expect("a body").as_ref(), b"ok");

    let records = exchange
        .capture_event()
        .exchange(exchange.request.clone(), exchange.response.clone())
        .expect("a capture");
    let Record::Response { header, body } = &records.response else {
        panic!("not a response record");
    };
    assert_eq!(header.target_uri.as_str(), "http://example.com/");
    assert_eq!(header.core.date, date);
    assert_eq!(header.ip_address, Some(address));
    assert_eq!(header.core.truncated, None);
    assert_eq!(body, response);
    assert_eq!(
        records.metadata.as_ref().map(|record| record.body_bytes().into_owned()),
        Some(b"fetchTimeMs: 1500\r\n".to_vec())
    );

    let target = Target::parse("http://example.com/").expect("a target");
    let plan = plan_request(&method, &target, Vec::new(), None).expect("a plan");
    assert!(matches!(
        CapturedExchange::assemble(plan, b"not http".to_vec(), None, address, date, 0),
        Err(Error::Response(ResponseError::MalformedStatusLine))
    ));
}

/// A scanner stands where it stopped: at the end, at what is not whole, or at what is malformed.
#[test]
fn a_scanner_stands_where_it_stopped() {
    let mut whole = ChunkScanner::new(0);
    assert!(matches!(whole.advance(b"2\r\nok\r\n0\r\n\r\nmore"), Ok(Some(12))));
    assert_eq!(whole.offset, 12);
    assert!(matches!(whole.stage, ChunkStage::Trailers));

    let mut partial = ChunkScanner::new(0);
    assert!(matches!(partial.advance(b"2\r\nok"), Ok(None)));
    assert_eq!(partial.offset, 3);
    assert!(matches!(partial.stage, ChunkStage::Data(2)));

    let mut malformed = ChunkScanner::new(0);
    assert!(matches!(
        malformed.advance(b"2\r\nok\r\nx\r\n"),
        Err(ChunkError::MalformedSize(_))
    ));
    assert_eq!(malformed.offset, 7);
    assert!(matches!(malformed.stage, ChunkStage::Size));

    let mut unterminated = ChunkScanner::new(0);
    assert!(matches!(unterminated.advance(b"2\r\nokay"), Err(ChunkError::Unterminated)));
    assert_eq!(unterminated.offset, 3);
    assert!(matches!(unterminated.stage, ChunkStage::Data(2)));
}
