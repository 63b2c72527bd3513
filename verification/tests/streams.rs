//! Streams of records, and the records they are read as and written from.

use archivindex_warc::warc_reader::{
    read_header, Need, Outcome, RawRecordReader, StreamOutcome, StreamingReader,
};
use archivindex_warc::warc_record::{BufferedRecord, Error, RawRecordHeader};
use archivindex_warc::warc_writer::{render, write_raw};

type RawRecord = Result<(RawRecordHeader, Vec<u8>), Error>;

/// A stream that is read record by record.
struct Records<'a> {
    reader: RawRecordReader,
    rest: &'a [u8],
}

fn records(raw: &[u8]) -> Records<'_> {
    Records {
        reader: RawRecordReader::new(),
        rest: raw,
    }
}

/// The next line of a stream with the line feed that ends it, and what stands behind it.
fn next_line(rest: &[u8]) -> (&[u8], &[u8]) {
    let end = rest
        .iter()
        .position(|&byte| byte == b'\n')
        .map_or(rest.len(), |position| position + 1);
    rest.split_at(end)
}

impl Records<'_> {
    fn next(&mut self) -> Option<RawRecord> {
        loop {
            let (line, rest) = next_line(self.rest);
            self.rest = rest;
            match self.reader.receive(line) {
                Outcome::More => {}
                Outcome::Record(header, body) => return Some(Ok((header, body))),
                Outcome::Failed(error) => return Some(Err(error)),
                Outcome::Ended => return None,
            }
        }
    }
}

/// The fields of a header in the order of their names.
fn named(header: &RawRecordHeader) -> Vec<(&str, &str)> {
    let mut fields: Vec<(&str, &str)> = header
        .headers
        .iter()
        .map(|(name, value)| (name.as_str(), std::str::from_utf8(value).unwrap()))
        .collect();
    fields.sort();
    fields
}

#[test]
fn basic_record() {
    let raw = b"\
        WARC/1.0\r\n\
        Warc-Type: dunno\r\n\
        Content-Length: 5\r\n\
        WARC-Record-Id: <urn:test:basic-record:record-0>\r\n\
        WARC-Date: 2020-07-08T02:52:55Z\r\n\
        \r\n\
        12345\r\n\
        \r\n\
    ";

    let mut records = records(raw);
    {
        let (header, body) = records.next().unwrap().unwrap();
        assert_eq!(header.version, "1.0");
        assert_eq!(
            named(&header),
            [
                ("content-length", "5"),
                ("warc-date", "2020-07-08T02:52:55Z"),
                ("warc-record-id", "<urn:test:basic-record:record-0>"),
                ("warc-type", "dunno"),
            ]
        );
        assert_eq!(body, b"12345");
    }
}

#[test]
fn two_records() {
    let raw = b"\
        WARC/1.0\r\n\
        Warc-Type: dunno\r\n\
        Content-Length: 5\r\n\
        WARC-Record-Id: <urn:test:two-records:record-0>\r\n\
        WARC-Date: 2020-07-08T02:52:55Z\r\n\
        \r\n\
        12345\r\n\
        \r\n\
        WARC/1.0\r\n\
        Warc-Type: another\r\n\
        WARC-Record-Id: <urn:test:two-records:record-1>\r\n\
        WARC-Date: 2020-07-08T02:52:56Z\r\n\
        Content-Length: 6\r\n\
        \r\n\
        123456\r\n\
        \r\n\
    ";

    let mut records = records(raw);
    {
        let (header, body) = records.next().unwrap().unwrap();
        assert_eq!(header.version, "1.0");
        assert_eq!(
            named(&header),
            [
                ("content-length", "5"),
                ("warc-date", "2020-07-08T02:52:55Z"),
                ("warc-record-id", "<urn:test:two-records:record-0>"),
                ("warc-type", "dunno"),
            ]
        );
        assert_eq!(body, b"12345");
    }

    {
        let (header, body) = records.next().unwrap().unwrap();
        assert_eq!(header.version, "1.0");
        assert_eq!(
            named(&header),
            [
                ("content-length", "6"),
                ("warc-date", "2020-07-08T02:52:56Z"),
                ("warc-record-id", "<urn:test:two-records:record-1>"),
                ("warc-type", "another"),
            ]
        );
        assert_eq!(body, b"123456");
    }
}

/// The bytes after a body are the record terminator, so a record whose body is followed by four
/// other bytes is rejected rather than read as if it had ended properly.
#[test]
fn invalid_record_terminator() {
    // After the 4-byte body, the record ends with `c\nd\n` instead of `\r\n\r\n`; the byte counts
    // line up, but the terminator bytes are wrong.
    let raw = b"\
        WARC/1.0\r\n\
        Warc-Type: dunno\r\n\
        Content-Length: 4\r\n\
        \r\n\
        a\nb\nc\nd\n\
    ";

    assert!(matches!(
        records(raw).next(),
        Some(Err(Error::ParseHeaders(_)))
    ));
}

/// A header line that does not match the named-field grammar is rejected with an error carrying
/// that line, rather than it (and every line after it) being silently dropped.
#[test]
fn malformed_header_line_is_rejected() {
    let raw = b"\
        WARC/1.1\r\n\
        WARC-Type: dunno\r\n\
        bad header line without a colon\r\n\
        Content-Length: 5\r\n\
        \r\n\
        12345\r\n\
        \r\n\
    ";

    match records(raw).next() {
        Some(Err(Error::ParseHeaders(input))) => {
            assert_eq!(input, b"bad header line without a colon".to_vec());
        }
        other => panic!("expected a parse error naming the malformed line, got {other:?}"),
    }
}

/// A stream-level error leaves the reader at an unspecified position, so the reader takes no more
/// instead of yielding garbage parsed from the middle of the broken record.
#[test]
fn raw_iter_fuses_after_stream_error() {
    // A record with a malformed terminator, followed by a perfectly valid record.
    let raw = b"\
        WARC/1.1\r\n\
        Warc-Type: dunno\r\n\
        Content-Length: 5\r\n\
        \r\n\
        12345ABCD\
        WARC/1.1\r\n\
        Warc-Type: dunno\r\n\
        Content-Length: 5\r\n\
        WARC-Record-Id: <urn:test:after-error:record-1>\r\n\
        WARC-Date: 2020-07-08T02:52:55Z\r\n\
        \r\n\
        12345\r\n\
        \r\n\
    ";

    let mut records = records(raw);
    assert!(records.next().unwrap().is_err());
    assert!(records.next().is_none());
    assert!(records.next().is_none());
    assert!(records.reader.is_finished());
}

/// A field value folded across lines with leading whitespace is unfolded, each fold reading as a
/// single space.
#[test]
fn folded_header_value_is_unfolded() {
    let raw = b"\
        WARC/1.1\r\n\
        WARC-Type: metadata\r\n\
        Content-Length: 0\r\n\
        WARC-Record-ID: <urn:test:folded:record-0>\r\n\
        WARC-Date: 2020-07-08T02:52:55Z\r\n\
        Unfolded-Test: this value\r\n\
        \tspans lines\r\n\
        \r\n\
        \r\n\
        \r\n\
    ";

    let (header, body) = records(raw).next().unwrap().unwrap();
    assert!(body.is_empty());
    assert_eq!(
        header.get("unfolded-test"),
        Some(&b"this value spans lines"[..])
    );
}

/// When a record repeats a field, the first occurrence wins consistently: the body is framed by the
/// first `Content-Length`, so the surviving header values must be the first ones too.
#[test]
fn repeated_field_keeps_first_occurrence() {
    let raw = b"\
        WARC/1.1\r\n\
        WARC-Type: dunno\r\n\
        Content-Length: 5\r\n\
        Content-Length: 500\r\n\
        WARC-Record-ID: <urn:test:repeated:record-0>\r\n\
        WARC-Date: 2020-07-08T02:52:55Z\r\n\
        WARC-Target-URI: https://example.com/first\r\n\
        WARC-Target-URI: https://example.com/second\r\n\
        \r\n\
        12345\r\n\
        \r\n\
    ";

    let (header, body) = records(raw).next().unwrap().unwrap();
    assert_eq!(body, b"12345");
    assert_eq!(header.get("content-length"), Some(&b"5"[..]));
    assert_eq!(
        header.get("warc-target-uri"),
        Some(&b"https://example.com/first"[..])
    );
}

/// A record without `Content-Length` cannot be framed; it is rejected with an error naming the
/// missing field rather than misread as having an empty body.
#[test]
fn missing_content_length_is_rejected() {
    let raw = b"\
        WARC/1.1\r\n\
        WARC-Type: dunno\r\n\
        WARC-Record-ID: <urn:test:missing-length:record-0>\r\n\
        WARC-Date: 2020-07-08T02:52:55Z\r\n\
        \r\n\
        12345\r\n\
        \r\n\
    ";

    assert!(matches!(
        records(raw).next(),
        Some(Err(Error::MissingHeader(name))) if name == "content-length"
    ));
}

/// WARC 1.0 requires complete UTC timestamps with second precision.
#[test]
fn warc_1_0_reading_rejects_subseconds() {
    let raw = b"\
        WARC/1.0\r\n\
        WARC-Type: resource\r\n\
        Content-Length: 0\r\n\
        WARC-Record-ID: <urn:test:warc-1.0-date:record-0>\r\n\
        WARC-Date: 2020-07-08T02:52:55.123456Z\r\n\
        \r\n\
        \r\n\
        \r\n\
    ";

    let (header, body) = records(raw).next().unwrap().unwrap();
    assert!(matches!(
        BufferedRecord::new(header, body),
        Err(Error::MalformedHeader(name, _)) if name == "warc-date"
    ));
}

/// A stream whose bodies are read in the caller's own time.
struct Stream<'a> {
    reader: StreamingReader,
    rest: &'a [u8],
}

fn stream(raw: &[u8]) -> Stream<'_> {
    Stream {
        reader: StreamingReader::new(),
        rest: raw,
    }
}

impl Stream<'_> {
    fn take(&mut self, count: usize) -> Vec<u8> {
        let (taken, rest) = self.rest.split_at(count.min(self.rest.len()));
        self.rest = rest;
        taken.to_vec()
    }

    /// The next record, behind whatever is left of the one before it.
    fn next_item(&mut self) -> Option<Result<(RawRecordHeader, u64), Error>> {
        loop {
            let outcome = match self.reader.need() {
                Need::Line => {
                    let (line, rest) = next_line(self.rest);
                    self.rest = rest;
                    self.reader.receive_line(line)
                }
                Need::Body(left) => {
                    let skipped = self.take(left as usize);
                    self.reader.receive_body(skipped.len() as u64)
                }
                Need::Closing => {
                    let closing = self.take(4);
                    self.reader.receive_closing(&closing)
                }
                Need::Nothing => return None,
            };
            match outcome {
                StreamOutcome::More => {}
                StreamOutcome::Record(header, length) => return Some(Ok((header, length))),
                StreamOutcome::Failed(error) => return Some(Err(error)),
                StreamOutcome::Ended => return None,
            }
        }
    }

    /// At most so many octets of the body of the record.
    fn read(&mut self, count: usize) -> Vec<u8> {
        match self.reader.need() {
            Need::Body(left) => {
                let read = self.take(count.min(left as usize));
                self.reader.receive_body(read.len() as u64);
                read
            }
            _ => Vec::new(),
        }
    }

    /// The next record with the whole of its body.
    fn next_buffered(&mut self) -> BufferedRecord {
        let (header, length) = self.next_item().unwrap().unwrap();
        let body = self.read(length as usize);
        BufferedRecord::new(header, body).unwrap()
    }
}

fn assert_record(record: &BufferedRecord, version: &str, length: u64, id: &str, body: &[u8]) {
    assert_eq!(record.warc_version(), version);
    assert_eq!(record.content_length().unwrap(), length);
    assert_eq!(record.warc_id(), Some(id.as_bytes()));
    assert_eq!(record.body(), body);
}

#[test]
fn first_item() {
    let raw = b"\
        WARC/1.0\r\n\
        Warc-Type: dunno\r\n\
        Content-Length: 5\r\n\
        WARC-Record-Id: <urn:test:basic-record:record-0>\r\n\
        WARC-Date: 2020-07-08T02:52:55Z\r\n\
        \r\n\
        12345\r\n\
        \r\n\
    ";

    let record = stream(raw).next_buffered();
    assert_record(&record, "1.0", 5, "<urn:test:basic-record:record-0>", b"12345");
}

#[test]
fn both_items() {
    let raw = b"\
        WARC/1.0\r\n\
        Warc-Type: dunno\r\n\
        Content-Length: 5\r\n\
        WARC-Record-Id: <urn:test:two-records:record-0>\r\n\
        WARC-Date: 2020-07-08T02:52:55Z\r\n\
        \r\n\
        12345\r\n\
        \r\n\
        WARC/1.0\r\n\
        Warc-Type: another\r\n\
        WARC-Record-Id: <urn:test:two-records:record-1>\r\n\
        WARC-Date: 2020-07-08T02:52:56Z\r\n\
        Content-Length: 6\r\n\
        \r\n\
        123456\r\n\
        \r\n\
    ";

    let mut stream = stream(raw);
    let record = stream.next_buffered();
    assert_record(&record, "1.0", 5, "<urn:test:two-records:record-0>", b"12345");
    let record = stream.next_buffered();
    assert_record(&record, "1.0", 6, "<urn:test:two-records:record-1>", b"123456");
}

#[test]
fn only_second_item() {
    let raw = b"\
        WARC/1.0\r\n\
        Warc-Type: dunno\r\n\
        Content-Length: 5\r\n\
        WARC-Record-Id: <urn:test:two-records:record-0>\r\n\
        WARC-Date: 2020-07-08T02:52:55Z\r\n\
        \r\n\
        12345\r\n\
        \r\n\
        WARC/1.0\r\n\
        Warc-Type: another\r\n\
        WARC-Record-Id: <urn:test:two-records:record-1>\r\n\
        WARC-Date: 2020-07-08T02:52:56Z\r\n\
        Content-Length: 6\r\n\
        \r\n\
        123456\r\n\
        \r\n\
    ";

    let mut stream = stream(raw);
    let _skipped = stream.next_item().unwrap().unwrap();
    let record = stream.next_buffered();
    assert_record(&record, "1.0", 6, "<urn:test:two-records:record-1>", b"123456");
}

#[test]
fn triple_items() {
    let raw = b"\
        WARC/1.0\r\n\
        Warc-Type: dunno\r\n\
        Content-Length: 5\r\n\
        WARC-Record-Id: <urn:test:three-records:record-0>\r\n\
        WARC-Date: 2020-07-08T02:52:55Z\r\n\
        \r\n\
        12345\r\n\
        \r\n\
        WARC/1.0\r\n\
        Warc-Type: another\r\n\
        WARC-Record-Id: <urn:test:three-records:record-1>\r\n\
        WARC-Date: 2020-07-08T02:52:56Z\r\n\
        Content-Length: 6\r\n\
        \r\n\
        123456\r\n\
        \r\n\
        WARC/1.0\r\n\
        Warc-Type: yet another\r\n\
        WARC-Record-Id: <urn:test:three-records:record-2>\r\n\
        WARC-Date: 2020-07-08T02:52:56Z\r\n\
        Content-Length: 8\r\n\
        \r\n\
        12345678\r\n\
        \r\n\
    ";

    let mut stream = stream(raw);
    let record = stream.next_buffered();
    assert_record(&record, "1.0", 5, "<urn:test:three-records:record-0>", b"12345");
    let record = stream.next_buffered();
    assert_record(&record, "1.0", 6, "<urn:test:three-records:record-1>", b"123456");
    let record = stream.next_buffered();
    assert_record(&record, "1.0", 8, "<urn:test:three-records:record-2>", b"12345678");
}

#[test]
fn streaming_passes_over_a_header_that_is_no_records() {
    let raw = b"\
        WARC/1.0\r\n\
        Warc-Type: dunno\r\n\
        Content-Length: 5\r\n\
        WARC-Date: 2020-07-08T02:52:55Z\r\n\
        \r\n\
        12345\r\n\
        \r\n\
        WARC/1.0\r\n\
        Warc-Type: another\r\n\
        WARC-Record-Id: <urn:test:two-records:record-1>\r\n\
        WARC-Date: 2020-07-08T02:52:56.5Z\r\n\
        Content-Length: 6\r\n\
        \r\n\
        123456\r\n\
        \r\n\
        WARC/1.0\r\n\
        Warc-Type: yet another\r\n\
        WARC-Record-Id: <urn:test:two-records:record-2>\r\n\
        WARC-Date: 2020-07-08T02:52:57Z\r\n\
        Content-Length: 7\r\n\
        \r\n\
        1234567\r\n\
        \r\n\
    ";

    let mut stream = stream(raw);
    assert!(matches!(
        stream.next_item(),
        Some(Err(Error::MissingHeader(name))) if name == "warc-record-id"
    ));
    assert_eq!(stream.read(2), b"12");
    assert!(matches!(
        stream.next_item(),
        Some(Err(Error::MalformedHeader(name, _))) if name == "warc-date"
    ));
    let record = stream.next_buffered();
    assert_record(&record, "1.0", 7, "<urn:test:two-records:record-2>", b"1234567");
    assert!(stream.next_item().is_none());
}

#[test]
fn streaming_refuses_a_header_without_a_type_or_a_date() {
    for (field, missing) in [
        ("WARC-Date: 2020-07-08T02:52:55Z\r\n", "warc-type"),
        ("WARC-Type: dunno\r\n", "warc-date"),
    ] {
        let raw = format!(
            "WARC/1.1\r\nWARC-Record-ID: <urn:test:a>\r\n{field}Content-Length: 0\r\n\r\n\r\n\r\n"
        );
        let mut stream = stream(raw.as_bytes());
        assert!(matches!(
            stream.next_item(),
            Some(Err(Error::MissingHeader(name))) if name == missing
        ));
        assert!(stream.next_item().is_none());
    }
}

#[test]
fn empty_content_length() {
    let raw = b"\
        WARC/1.0\r\n\
        Warc-Type: empty-record\r\n\
        Content-Length: 0\r\n\
        WARC-Record-Id: <urn:test:empty-content-length>\r\n\
        WARC-Date: 2020-07-08T02:52:57Z\r\n\
        \r\n\
        \r\n\
    ";

    let record = stream(raw).next_buffered();
    assert_record(&record, "1.0", 0, "<urn:test:empty-content-length>", b"");
}

#[test]
fn zero_and_nonzero_content_length() {
    let raw = b"\
        WARC/1.0\r\n\
        Warc-Type: empty-record\r\n\
        Content-Length: 0\r\n\
        WARC-Record-Id: <urn:test:zero-content-length>\r\n\
        WARC-Date: 2020-07-08T02:52:57Z\r\n\
        \r\n\
        \r\n\
        \r\n\
        WARC/1.0\r\n\
        Warc-Type: non-empty-record\r\n\
        Content-Length: 7\r\n\
        WARC-Record-Id: <urn:test:nonzero-content-length>\r\n\
        WARC-Date: 2020-07-08T02:52:58Z\r\n\
        \r\n\
        1234567\r\n\
        \r\n\
    ";

    let mut records = records(raw);

    // Test the first record with Content-Length: 0
    let (header, body) = records.next().unwrap().unwrap();
    let record = BufferedRecord::new(header, body).unwrap();
    assert_record(&record, "1.0", 0, "<urn:test:zero-content-length>", b"");

    // Test the second record with non-zero Content-Length
    let (header, body) = records.next().unwrap().unwrap();
    let record = BufferedRecord::new(header, body).unwrap();
    assert_record(&record, "1.0", 7, "<urn:test:nonzero-content-length>", b"1234567");
}

/// The declared `Content-Length` is reported unchanged while the body is being consumed, rather
/// than shrinking with every read.
#[test]
fn streaming_content_length_is_stable_while_reading() {
    let raw = b"\
        WARC/1.1\r\n\
        Warc-Type: dunno\r\n\
        Content-Length: 5\r\n\
        WARC-Record-Id: <urn:test:stable-length:record-0>\r\n\
        WARC-Date: 2020-07-08T02:52:55Z\r\n\
        \r\n\
        12345\r\n\
        \r\n\
    ";

    let mut stream = stream(raw);
    let (header, length) = stream.next_item().unwrap().unwrap();
    assert_eq!(length, 5);

    assert_eq!(stream.read(2), b"12");
    assert_eq!(header.content_length().unwrap(), 5);
    assert_eq!(header.get("content-length"), Some(&b"5"[..]));

    // The unread portion is what remains.
    assert_eq!(stream.read(100), b"345");
}

/// After the final `None`, further calls keep returning `None` instead of yielding a spurious error
/// for a body that was already consumed.
#[test]
fn next_item_is_fused_after_end() {
    let raw = b"\
        WARC/1.1\r\n\
        Warc-Type: dunno\r\n\
        Content-Length: 5\r\n\
        WARC-Record-Id: <urn:test:fused:record-0>\r\n\
        WARC-Date: 2020-07-08T02:52:55Z\r\n\
        \r\n\
        12345\r\n\
        \r\n\
    ";

    let mut stream = stream(raw);

    // Leave the record's body unread so that reaching the end must skip it.
    let _record = stream.next_item().unwrap().unwrap();
    assert!(stream.next_item().is_none());
    assert!(stream.next_item().is_none());
    assert!(stream.next_item().is_none());
}

/// A record whose declared body length outruns the stream: 5 bytes are declared but only 2 are
/// present.
const TRUNCATED_BODY: &[u8] = b"\
    WARC/1.1\r\n\
    Warc-Type: dunno\r\n\
    Content-Length: 5\r\n\
    WARC-Record-Id: <urn:test:truncated:record-0>\r\n\
    WARC-Date: 2020-07-08T02:52:55Z\r\n\
    \r\n\
    12";

/// A stream-level error ends the stream instead of yielding further errors from an unspecified
/// position.
#[test]
fn next_item_fuses_after_stream_error() {
    let mut stream = stream(TRUNCATED_BODY);

    // Leave the first record's body unread so that the next call must skip it and hit the
    // truncation.
    let _record = stream.next_item().unwrap().unwrap();
    assert!(matches!(
        stream.next_item(),
        Some(Err(Error::UnexpectedEOB))
    ));
    assert!(stream.next_item().is_none());
    assert!(stream.next_item().is_none());
}

/// A stream that ends within a body, or within a header, ends with an error or as it stands.
#[test]
fn a_stream_that_ends_early_is_told() {
    assert!(matches!(
        records(TRUNCATED_BODY).next(),
        Some(Err(Error::UnexpectedEOB))
    ));
    assert!(records(b"").next().is_none());
}

/// A body that holds more than was declared before its line ends is no record.
#[test]
fn a_body_longer_than_declared_is_rejected() {
    let raw = b"WARC/1.1\r\nContent-Length: 2\r\n\r\n1234567890\r\n\r\n";

    assert!(matches!(
        records(raw).next(),
        Some(Err(Error::ReadOverflow))
    ));
}

/// A header block is read on its own, with the length that it declares.
#[test]
fn a_header_block_is_read_on_its_own() {
    let (header, length) =
        read_header(b"WARC/1.1\r\nContent-Length: 12\r\nX-Test: a\r\n\r\n").unwrap();

    assert_eq!(length, 12);
    assert_eq!(header.version, "1.1");
    assert_eq!(header.get("X-TEST"), Some(&b"a"[..]));
    assert!(matches!(
        read_header(b"WARC/1.1\r\nContent-Length: twelve\r\n\r\n"),
        Err(Error::MalformedHeader(name, value)) if name == "content-length" && value == "twelve"
    ));
}

/// A block that any writer should accept, to derive rejected blocks from.
fn valid_headers() -> RawRecordHeader {
    RawRecordHeader {
        version: "1.1".to_owned(),
        headers: vec![
            ("warc-type".to_owned(), b"dunno".to_vec()),
            ("content-length".to_owned(), b"5".to_vec()),
        ],
    }
}

/// Assert that writing the given raw header block fails, so that nothing is written.
fn assert_rejected(headers: RawRecordHeader) {
    assert!(write_raw(&headers, b"body!").is_err());
}

/// Raw header blocks that could not be parsed back are rejected before anything is written:
/// injected values, invalid unknown names, and an injected version string.
#[test]
fn write_raw_rejects_header_injection() {
    let mut injected_value = valid_headers();
    injected_value.insert(
        "warc-target-uri",
        b"https://a/\r\nwarc-type: evil".to_vec(),
    );
    assert_rejected(injected_value);

    let mut invalid_name = valid_headers();
    invalid_name.insert("evil name", b"v".to_vec());
    assert_rejected(invalid_name);

    let mut injected_version = valid_headers();
    injected_version.version = "1.1\r\nevil: x".to_owned();
    assert_rejected(injected_version);

    // The block the three are derived from is written without complaint.
    assert!(write_raw(&valid_headers(), b"body!").is_ok());
}

/// Typed setters that bypass the checks on a header are caught when the record is written.
#[test]
fn write_rejects_injection_through_typed_setters() {
    let raw = b"\
        WARC/1.1\r\n\
        Warc-Type: dunno\r\n\
        Content-Length: 0\r\n\
        WARC-Record-Id: <urn:a>\r\n\
        WARC-Date: 2020-07-08T02:52:55Z\r\n\
        \r\n\
        \r\n\
        \r\n\
    ";
    let (header, body) = records(raw).next().unwrap().unwrap();
    let mut record = BufferedRecord::new(header, body).unwrap();
    assert!(archivindex_warc::warc_writer::write(&record).is_ok());

    record.set_warc_id("<urn:a>\r\nevil: x");

    assert!(matches!(
        archivindex_warc::warc_writer::write(&record),
        Err(Error::MalformedHeader(name, _)) if name == "warc-record-id"
    ));
}

/// A record comes apart into the header and the body that it was made of.
#[test]
fn a_record_comes_apart_into_its_parts() {
    let raw = b"\
        WARC/1.1\r\n\
        Warc-Type: dunno\r\n\
        Content-Length: 5\r\n\
        WARC-Record-Id: <urn:a>\r\n\
        WARC-Date: 2020-07-08T02:52:55Z\r\n\
        \r\n\
        hello\r\n\
        \r\n\
    ";
    let (header, body) = records(raw).next().unwrap().unwrap();
    let expected = header.headers.clone();

    let (header, body) = BufferedRecord::new(header, body).unwrap().into_raw_parts();

    assert_eq!(header.version, "1.1");
    assert_eq!(header.headers, expected);
    assert_eq!(body, b"hello");
}

#[test]
fn short_writes_do_not_truncate() {
    let headers = RawRecordHeader {
        version: "1.0".to_owned(),
        headers: vec![("warc-type".to_owned(), b"dunno".to_vec())],
    };

    let written = write_raw(&headers, b"12345").unwrap();

    let expected: &[u8] = b"WARC/1.0\r\nwarc-type: dunno\r\n\r\n12345\r\n\r\n";
    assert_eq!(written.as_slice(), expected);
    assert_eq!(written.len(), expected.len());
}

/// A block frames its body by declaring its length, and a reader trusts that declaration to find
/// where the record ends, so a block whose `Content-Length` is not the length of the body it is
/// written with writes a record no reader can read back.
#[test]
fn a_length_the_body_does_not_have_is_rejected() {
    // The body `assert_rejected` writes is five bytes long.
    let mut wrong_length = valid_headers();
    wrong_length.insert("content-length", b"99".to_vec());
    assert_rejected(wrong_length);

    let mut no_number = valid_headers();
    no_number.insert("content-length", b"five".to_vec());
    assert_rejected(no_number);

    assert!(write_raw(&valid_headers(), b"body!").is_ok());
}

#[test]
fn frames_the_body_by_its_length() {
    assert_eq!(
        render(&[("WARC-Type", "resource")], "body"),
        b"WARC/1.1\r\nWARC-Type: resource\r\nContent-Length: 4\r\n\r\nbody\r\n\r\n"
    );
}

/// What is written reads back as it was, whatever follows it.
#[test]
fn a_written_record_reads_back() {
    let header = valid_headers();
    let mut raw = write_raw(&header, b"a\r\n\r\n").unwrap();
    raw.extend_from_slice(b"WARC/1.1\r\n");

    let (read, body) = records(&raw).next().unwrap().unwrap();
    assert_eq!(read, header);
    assert_eq!(body, b"a\r\n\r\n");
}

/// Records written one behind the other are read back in order, and then the stream ends.
#[test]
fn written_records_read_back_in_order() {
    let header = valid_headers();
    let mut raw = write_raw(&header, b"first").unwrap();
    raw.extend(write_raw(&header, b"\r\n\r\n.").unwrap());

    let mut stream = records(&raw);
    assert_eq!(stream.next().unwrap().unwrap(), (header.clone(), b"first".to_vec()));
    assert_eq!(stream.next().unwrap().unwrap(), (header, b"\r\n\r\n.".to_vec()));
    assert!(stream.next().is_none());
}

/// A field is found, replaced, and removed under its name in any case.
#[test]
fn a_field_is_found_whatever_the_case_of_its_name() {
    let mut header = RawRecordHeader::new("1.1");
    header.insert("x-test", b"one".to_vec());
    header.insert("x-TEST", b"two".to_vec());

    assert_eq!(header.headers, [("x-test".to_owned(), b"two".to_vec())]);
    assert_eq!(header.remove("X-test"), Some(b"two".to_vec()));
    assert_eq!(header.get("x-test"), None);
    assert!(matches!(
        header.content_length(),
        Err(Error::MissingHeader(name)) if name == "content-length"
    ));
}
