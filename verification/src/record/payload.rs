//! HTTP entity-body extraction.
//!
//! For an `application/http` block, WARC 1.1 defines the payload as the HTTP entity-body: the
//! message body after transfer-coding has been removed.

use crate::octets::{
    append, equal_ignoring_case, find, hex_value, is_hex, lemma_position, lossy, lossy_text, octets,
    parse_hex, position, same_but_for_case, trim, trimmed,
};
use crate::parsing::{
    content_end, field_colon, is_lws, line_break, lws, next_line, split_field_line,
};
use std::borrow::Cow;
use vstd::prelude::*;
use vstd::slice::slice_subrange;
use vstd::string::*;

verus! {

/// Errors returned while extracting an HTTP entity-body.
#[derive(Clone, Debug, Eq, PartialEq)]
pub enum Error {
    /// The header section has no terminating empty line.
    UnterminatedHeaders,
    /// The message uses an unsupported transfer-coding.
    UnsupportedTransferCoding(String),
    /// A chunk has an invalid size line.
    MalformedChunkSize(String),
    /// The chunked body is incomplete.
    IncompleteChunkedBody,
}

/// What an [`Error`] says.
pub enum Fault {
    UnterminatedHeaders,
    UnsupportedTransferCoding(Seq<char>),
    MalformedChunkSize(Seq<char>),
    IncompleteChunkedBody,
}

impl View for Error {
    type V = Fault;

    open spec fn view(&self) -> Fault {
        match *self {
            Error::UnterminatedHeaders => Fault::UnterminatedHeaders,
            Error::UnsupportedTransferCoding(text) => Fault::UnsupportedTransferCoding(text@),
            Error::MalformedChunkSize(text) => Fault::MalformedChunkSize(text@),
            Error::IncompleteChunkedBody => Fault::IncompleteChunkedBody,
        }
    }
}

/// Whether a header line is a `Transfer-Encoding` field.
pub open spec fn is_transfer_encoding(line: Seq<u8>) -> bool {
    field_colon(line) matches Some(colon) && same_but_for_case(
        line.take(colon),
        octets("transfer-encoding"@),
    )
}

/// The value of `Transfer-Encoding` with one more line: repeated fields are joined by a comma, and
/// folded lines by a space.
pub open spec fn with_line(value: Seq<u8>, folding: bool, line: Seq<u8>) -> Seq<u8> {
    if is_lws(line[0]) {
        if folding {
            value + seq![0x20u8] + line
        } else {
            value
        }
    } else if is_transfer_encoding(line) {
        let joined = if value.len() == 0 {
            value
        } else {
            value + seq![0x2cu8]
        };
        joined + line.skip(field_colon(line).unwrap() + 1)
    } else {
        value
    }
}

/// Whether a line behind this one can continue a `Transfer-Encoding` field.
pub open spec fn folds(folding: bool, line: Seq<u8>) -> bool {
    if is_lws(line[0]) {
        folding
    } else {
        is_transfer_encoding(line)
    }
}

/// Where the body of a message starts, and the value of its `Transfer-Encoding`, from the header
/// line at `offset` on.
pub open spec fn body_start(
    message: Seq<u8>,
    offset: int,
    value: Seq<u8>,
    folding: bool,
) -> Option<(int, Seq<u8>)>
    decreases message.len() - offset,
{
    let next = line_break(message, offset) + 1;
    let line = message.subrange(offset, content_end(message, offset));
    if !(0 <= offset < next <= message.len()) {
        None
    } else if line.len() == 0 {
        Some((next, value))
    } else {
        body_start(message, next, with_line(value, folding, line), folds(folding, line))
    }
}

/// Where the body of a message starts, and the value of its `Transfer-Encoding`. The start line is
/// skipped.
pub open spec fn message_parts(message: Seq<u8>) -> Option<(int, Seq<u8>)> {
    let first = line_break(message, 0) + 1;
    if first > message.len() {
        None
    } else {
        body_start(message, first, Seq::empty(), false)
    }
}

/// The transfer-codings that a value lists from `from` on, without empty elements and `identity`.
pub open spec fn codings(value: Seq<u8>, from: int) -> Seq<Seq<u8>>
    decreases value.len() - from,
{
    if from < 0 || from > value.len() {
        Seq::empty()
    } else {
        let comma = position(value, 0x2c, from);
        let coding = trimmed(value.subrange(from, comma));
        let first = if coding.len() == 0 || same_but_for_case(coding, octets("identity"@)) {
            Seq::empty()
        } else {
            seq![coding]
        };
        if from <= comma < value.len() {
            first + codings(value, comma + 1)
        } else {
            first
        }
    }
}

/// Whether chunks are to be removed: `chunked` is the only coding listed.
pub open spec fn declares_chunks(value: Seq<u8>) -> Result<bool, Fault> {
    let listed = codings(value, 0);
    if listed.len() == 0 {
        Ok(false)
    } else if listed.len() == 1 && same_but_for_case(listed[0], octets("chunked"@)) {
        Ok(true)
    } else {
        Err(Fault::UnsupportedTransferCoding(lossy_text(trimmed(value))))
    }
}

/// The size that a chunk-size line declares, where it declares one. Extensions are ignored.
pub open spec fn declared_size(line: Seq<u8>) -> Option<nat> {
    let digits = trimmed(line.take(position(line, 0x3b, 0)));
    if is_hex(digits) && hex_value(digits) <= usize::MAX {
        Some(hex_value(digits))
    } else {
        None
    }
}

/// Whether a body opens with a chunk-size line.
pub open spec fn opens_with_size(body: Seq<u8>) -> bool {
    line_break(body, 0) < body.len() && declared_size(
        body.subrange(0, content_end(body, 0)),
    ) is Some
}

/// The data of the chunks from `offset` on, joined.
pub open spec fn chunk_data(body: Seq<u8>, offset: int) -> Result<Seq<u8>, Fault>
    decreases body.len() - offset,
{
    let start = line_break(body, offset) + 1;
    let line = body.subrange(offset, content_end(body, offset));
    if !(0 <= offset < start <= body.len()) {
        Err(Fault::IncompleteChunkedBody)
    } else {
        match declared_size(line) {
            None => Err(Fault::MalformedChunkSize(lossy_text(line))),
            Some(size) => if size == 0 {
                Ok(Seq::empty())
            } else {
                let end = start + size;
                let next = line_break(body, end) + 1;
                if end > body.len() || !(end < next <= body.len()) || content_end(body, end)
                    != end {
                    Err(Fault::IncompleteChunkedBody)
                } else {
                    match chunk_data(body, next) {
                        Ok(rest) => Ok(body.subrange(start, end) + rest),
                        Err(fault) => Err(fault),
                    }
                }
            },
        }
    }
}

/// The entity-body of a message.
pub open spec fn body_of(message: Seq<u8>) -> Result<Seq<u8>, Fault> {
    match message_parts(message) {
        None => Err(Fault::UnterminatedHeaders),
        Some((start, value)) => match declares_chunks(value) {
            Err(fault) => Err(fault),
            Ok(chunked) => if chunked && opens_with_size(message.skip(start)) {
                chunk_data(message.skip(start), 0)
            } else {
                Ok(message.skip(start))
            },
        },
    }
}

/// The octets that are borrowed or owned.
pub open spec fn octets_in(octets: Cow<'_, [u8]>) -> Seq<u8> {
    match octets {
        Cow::Borrowed(slice) => slice@,
        Cow::Owned(vector) => vector@,
    }
}

/// Extract the HTTP entity-body defined by RFC 2616 section 7.2.
///
/// Chunk framing and trailers are removed. `identity` is ignored, while content-coding is
/// preserved. The record's `Content-Length` frames `message`, so the HTTP `Content-Length` is not
/// read. If no decoding is needed, the returned value borrows from `message`.
///
/// # Errors
///
/// Returns an error if the header section is malformed, if a body that opens as a chunked message
/// is framed badly from there on, or if the message uses an unsupported transfer-coding.
pub fn entity_body<'a>(message: &'a [u8]) -> (r: Result<Cow<'a, [u8]>, Error>)
    ensures
        match r {
            Ok(body) => body_of(message@) == Ok::<Seq<u8>, Fault>(octets_in(body)),
            Err(e) => body_of(message@) == Err::<Seq<u8>, Fault>(e@),
        },
{
    let (start, value) = match split_message(message) {
        Ok(parts) => parts,
        Err(e) => {
            return Err(e);
        },
    };
    let chunked = match is_chunked(value.as_slice()) {
        Ok(chunked) => chunked,
        Err(e) => {
            return Err(e);
        },
    };
    let body = slice_subrange(message, start, message.len());
    assert(body@ =~= message@.skip(start as int));
    if chunked && opens_chunked(body) {
        match dechunk(body) {
            Ok(decoded) => Ok(Cow::Owned(decoded)),
            Err(e) => Err(e),
        }
    } else {
        Ok(Cow::Borrowed(body))
    }
}

/// Whether a body opens with a chunk size line.
///
/// Capturing tools commonly store a body they have already dechunked while keeping the
/// `Transfer-Encoding` field it arrived with, so a body declared chunked that does not begin as
/// one is the entity-body as stored.
fn opens_chunked(body: &[u8]) -> (r: bool)
    ensures
        r == opens_with_size(body@),
{
    match next_line(body, 0) {
        Some(line) => chunk_size(slice_subrange(body, 0, line.end)).is_ok(),
        None => false,
    }
}

/// Split an HTTP message into its body and combined `Transfer-Encoding` value.
///
/// Repeated and folded fields are combined into one comma-separated value.
fn split_message(message: &[u8]) -> (r: Result<(usize, Vec<u8>), Error>)
    ensures
        match r {
            Ok((start, value)) => start <= message.len() && message_parts(message@) == Some(
                (start as int, value@),
            ),
            Err(e) => message_parts(message@) is None && e@ == Fault::UnterminatedHeaders,
        },
{
    let mut offset: usize = match next_line(message, 0) {
        Some(line) => line.next,
        None => {
            return Err(Error::UnterminatedHeaders);
        },
    };
    let mut value: Vec<u8> = Vec::new();
    let mut folding = false;
    assert(value@ =~= Seq::empty());
    loop
        invariant
            offset <= message.len(),
            message_parts(message@) == body_start(message@, offset as int, value@, folding),
        decreases message.len() - offset,
    {
        let line = match next_line(message, offset) {
            Some(line) => line,
            None => {
                return Err(Error::UnterminatedHeaders);
            },
        };
        let content = slice_subrange(message, offset, line.end);
        let ghost before = value@;
        let ghost was_folding = folding;
        offset = line.next;
        if content.len() == 0 {
            return Ok((offset, value));
        }
        if lws(content[0]) {
            if folding {
                value.push(0x20);
                append(&mut value, content);
            }
            assert(value@ =~= with_line(before, was_folding, content@));
            continue ;
        }
        folding = false;
        match split_field_line(content) {
            Some(colon) => {
                let name = slice_subrange(content, 0, colon);
                assert(name@ =~= content@.take(colon as int));
                if equal_ignoring_case(name, "transfer-encoding".as_bytes()) {
                    if value.len() > 0 {
                        value.push(0x2c);
                    }
                    let rest = slice_subrange(content, colon + 1, content.len());
                    assert(rest@ =~= content@.skip(colon + 1));
                    append(&mut value, rest);
                    folding = true;
                }
            },
            None => {},
        }
        assert(value@ =~= with_line(before, was_folding, content@));
    }
}

/// Check whether `Transfer-Encoding` requests chunk decoding.
///
/// Empty elements and `identity` are ignored. No coding may follow `chunked`.
fn is_chunked(value: &[u8]) -> (r: Result<bool, Error>)
    ensures
        match r {
            Ok(chunked) => declares_chunks(value@) == Ok::<bool, Fault>(chunked),
            Err(e) => declares_chunks(value@) == Err::<bool, Fault>(e@),
        },
{
    let mut chunked = false;
    let ghost mut found: Seq<Seq<u8>> = Seq::empty();
    let mut from: usize = 0;
    assert(codings(value@, 0) =~= found + codings(value@, 0));
    loop
        invariant
            from <= value.len(),
            codings(value@, 0) == found + codings(value@, from as int),
            found.len() == if chunked {
                1nat
            } else {
                0nat
            },
            chunked ==> same_but_for_case(found[0], octets("chunked"@)),
        decreases value.len() - from,
    {
        proof {
            lemma_position(value@, 0x2c, from as int);
        }
        let comma = find(value, 0x2c, from);
        let coding = trim(slice_subrange(value, from, comma));
        let ghost rest = if comma < value.len() {
            codings(value@, comma + 1)
        } else {
            Seq::empty()
        };
        if coding.len() > 0 && !equal_ignoring_case(coding, "identity".as_bytes()) {
            assert(codings(value@, 0) =~= found.push(coding@) + rest);
            if chunked || !equal_ignoring_case(coding, "chunked".as_bytes()) {
                assert(codings(value@, 0)[found.len() as int] == coding@);
                return Err(Error::UnsupportedTransferCoding(lossy(trim(value))));
            }
            chunked = true;
            proof {
                found = found.push(coding@);
            }
        } else {
            assert(codings(value@, 0) =~= found + rest);
        }
        if comma == value.len() {
            assert(codings(value@, 0) =~= found);
            return Ok(chunked);
        }
        from = comma + 1;
    }
}

/// Decode a chunked body as defined by RFC 2616 section 3.6.1.
///
/// Chunk extensions, framing, and trailers are omitted from the result.
fn dechunk(body: &[u8]) -> (r: Result<Vec<u8>, Error>)
    ensures
        match r {
            Ok(decoded) => chunk_data(body@, 0) == Ok::<Seq<u8>, Fault>(decoded@),
            Err(e) => chunk_data(body@, 0) == Err::<Seq<u8>, Fault>(e@),
        },
{
    let mut decoded: Vec<u8> = Vec::new();
    let mut offset: usize = 0;
    proof {
        match chunk_data(body@, 0) {
            Ok(data) => assert(data =~= decoded@ + data),
            Err(_) => {},
        }
    }
    loop
        invariant
            offset <= body.len(),
            chunk_data(body@, 0) == match chunk_data(body@, offset as int) {
                Ok(rest) => Ok::<Seq<u8>, Fault>(decoded@ + rest),
                Err(fault) => Err(fault),
            },
        decreases body.len() - offset,
    {
        let line = match next_line(body, offset) {
            Some(line) => line,
            None => {
                return Err(Error::IncompleteChunkedBody);
            },
        };
        let size = match chunk_size(slice_subrange(body, offset, line.end)) {
            Ok(size) => size,
            Err(e) => {
                return Err(e);
            },
        };
        if size == 0 {
            assert(decoded@ + Seq::empty() =~= decoded@);
            return Ok(decoded);
        }
        let start = line.next;
        if size > body.len() - start {
            return Err(Error::IncompleteChunkedBody);
        }
        let end: usize = start + size;
        let ghost before = decoded@;
        let data = slice_subrange(body, start, end);
        append(&mut decoded, data);
        let after = match next_line(body, end) {
            Some(after) => after,
            None => {
                return Err(Error::IncompleteChunkedBody);
            },
        };
        if after.end != end {
            return Err(Error::IncompleteChunkedBody);
        }
        proof {
            match chunk_data(body@, after.next as int) {
                Ok(rest) => assert(before + (data@ + rest) =~= decoded@ + rest),
                Err(_) => {},
            }
        }
        offset = after.next;
    }
}

/// Parse a hexadecimal chunk size, ignoring extensions.
fn chunk_size(line: &[u8]) -> (r: Result<usize, Error>)
    ensures
        match r {
            Ok(size) => declared_size(line@) == Some(size as nat),
            Err(e) => declared_size(line@) is None && e@ == Fault::MalformedChunkSize(
                lossy_text(line@),
            ),
        },
{
    let end = find(line, 0x3b, 0);
    let digits = trim(slice_subrange(line, 0, end));
    assert(line@.subrange(0, end as int) =~= line@.take(end as int));
    match parse_hex(digits, usize::MAX as u64) {
        Some(size) => Ok(size as usize),
        None => Err(Error::MalformedChunkSize(lossy(line))),
    }
}

} // verus!
