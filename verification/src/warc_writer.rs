//! Writing a stream of records.

use crate::octets::{
    append, ascii_text, copied, decimal, decimal_octets, is_ascii, is_trim, lemma_ascii_octets,
    lemma_octets_injective, lemma_position, lemma_position_is, lossy, lossy_text, lowered, octets,
    same_but_for_case,
};
use crate::parsing::{
    content_end, is_text, is_text_char, is_token, is_token_char, line_break, token,
};
use crate::record::fields::parser::{
    field_at, field_end, fields_from, lemma_field_reads_back, lemma_unfolded_same, Written,
};
use crate::warc_reader::{crlf, header_block, read_from, terminator, Came, Reading};
use crate::warc_record::{
    body_length, field_position, keyed, value_in, BufferedRecord, Error, Fault, Header,
    RawRecordHeader,
};
use vstd::prelude::*;
use vstd::string::*;
use vstd::utf8::{encode_utf8_decode_utf8, encode_utf8_valid_utf8};

verus! {

/// Whether octets hold neither a carriage return nor a line feed.
pub open spec fn is_one_line(s: Seq<u8>) -> bool {
    forall|i: int| 0 <= i < s.len() ==> #[trigger] s[i] != 0x0d && s[i] != 0x0a
}

/// Whether a field can be written: its name is a token, and its value holds no line break.
pub open spec fn is_writable(field: Written) -> bool {
    is_token(octets(field.0)) && is_one_line(field.1)
}

/// The position of the first field from `i` on that cannot be written.
pub open spec fn unwritable_from(fields: Seq<Written>, i: int) -> int
    decreases fields.len() - i,
{
    if i < 0 || i >= fields.len() || !is_writable(fields[i]) {
        i
    } else {
        unwritable_from(fields, i + 1)
    }
}

/// What keeps a header block from being written: it would be one that no reader could parse back,
/// or it declares a length that the body does not have.
pub open spec fn write_fault(header: Header, body: nat) -> Option<Fault> {
    let at = unwritable_from(header.fields, 0);
    if !is_one_line(octets(header.version)) {
        Some(Fault::MalformedVersion(header.version))
    } else if at < header.fields.len() {
        Some(Fault::MalformedHeader(header.fields[at].0, lossy_text(header.fields[at].1)))
    } else {
        match body_length(header.fields) {
            Ok(length) => if length == body {
                None
            } else {
                Some(
                    Fault::MalformedHeader(
                        "content-length"@,
                        lossy_text(value_in(header.fields, "content-length"@)->0),
                    ),
                )
            },
            Err(Fault::MissingHeader(_)) => None,
            Err(fault) => Some(fault),
        }
    }
}

/// The octets of a field.
pub open spec fn field_octets(field: Written) -> Seq<u8> {
    octets(field.0) + seq![0x3au8, 0x20] + field.1 + seq![0x0du8, 0x0a]
}

/// The octets of fields.
pub open spec fn fields_octets(fields: Seq<Written>) -> Seq<u8>
    decreases fields.len(),
{
    if fields.len() == 0 {
        Seq::empty()
    } else {
        fields_octets(fields.drop_last()) + field_octets(fields.last())
    }
}

/// The octets of a header block.
pub open spec fn header_octets(header: Header) -> Seq<u8> {
    octets("WARC/"@) + octets(header.version) + seq![0x0du8, 0x0a] + fields_octets(header.fields)
        + seq![0x0du8, 0x0a]
}

/// The octets of a record.
pub open spec fn record_octets(header: Header, body: Seq<u8>) -> Seq<u8> {
    header_octets(header) + body + seq![0x0du8, 0x0a, 0x0d, 0x0a]
}

/// Whether octets hold neither a carriage return nor a line feed.
fn one_line(s: &[u8]) -> (r: bool)
    ensures
        r == is_one_line(s@),
{
    let mut i: usize = 0;
    while i < s.len()
        invariant
            i <= s.len(),
            forall|j: int| 0 <= j < i ==> #[trigger] s@[j] != 0x0d && s@[j] != 0x0a,
        decreases s.len() - i,
    {
        if s[i] == 0x0d || s[i] == 0x0a {
            return false;
        }
        i = i + 1;
    }
    true
}

/// Reject a raw header block that would serialize to a record no reader could parse back: a version
/// or value containing a line break, a header name outside the token grammar, or a declared length
/// that the body does not have.
fn validate_raw_header(header: &RawRecordHeader, body: &[u8]) -> (r: Result<(), Error>)
    ensures
        match r {
            Ok(_) => write_fault(header@, body@.len()) is None,
            Err(error) => write_fault(header@, body@.len()) == Some(error@),
        },
{
    if !one_line(header.version.as_str().as_bytes()) {
        return Err(Error::MalformedVersion(header.version.clone()));
    }
    let ghost fields = header@.fields;
    let mut i: usize = 0;
    while i < header.headers.len()
        invariant
            i <= header.headers.len(),
            fields == header@.fields,
            is_one_line(octets(header@.version)),
            unwritable_from(fields, 0) == unwritable_from(fields, i as int),
        decreases header.headers.len() - i,
    {
        let name = header.headers[i].0.as_str();
        let value = header.headers[i].1.as_slice();
        assert(fields[i as int] == (name@, value@));
        if !token(name.as_bytes()) || !one_line(value) {
            return Err(Error::MalformedHeader(name.to_string(), lossy(value)));
        }
        i = i + 1;
    }
    match header.content_length() {
        Ok(length) => if length == body.len() as u64 {
            Ok(())
        } else {
            let value = match header.get("content-length") {
                Some(value) => lossy(value),
                None => String::new(),
            };
            Err(Error::MalformedHeader("content-length".to_string(), value))
        },
        Err(Error::MissingHeader(_)) => Ok(()),
        Err(error) => Err(error),
    }
}

/// The octets of the marks that a record is written with.
proof fn lemma_marks()
    ensures
        octets(": "@) == seq![0x3au8, 0x20],
        octets("\r\n"@) == seq![0x0du8, 0x0a],
        octets("\r\n\r\n"@) == seq![0x0du8, 0x0a, 0x0d, 0x0a],
        octets("WARC/"@) == seq![0x57u8, 0x41, 0x52, 0x43, 0x2f],
{
    reveal_strlit(": ");
    reveal_strlit("\r\n");
    reveal_strlit("\r\n\r\n");
    reveal_strlit("WARC/");
    crate::octets::lemma_ascii_octets_of(": "@);
    crate::octets::lemma_ascii_octets_of("\r\n"@);
    crate::octets::lemma_ascii_octets_of("\r\n\r\n"@);
    crate::octets::lemma_ascii_octets_of("WARC/"@);
    assert(octets(": "@) =~= seq![0x3au8, 0x20]);
    assert(octets("\r\n"@) =~= seq![0x0du8, 0x0a]);
    assert(octets("\r\n\r\n"@) =~= seq![0x0du8, 0x0a, 0x0d, 0x0a]);
    assert(octets("WARC/"@) =~= seq![0x57u8, 0x41, 0x52, 0x43, 0x2f]);
}

/// The octets that a raw record is written as.
///
/// The whole header block is validated before anything is made of it, so that a rejected record
/// leaves no partial bytes in an output.
///
/// # Errors
///
/// Returns an error for a block that could not be read back.
pub fn write_raw(header: &RawRecordHeader, body: &[u8]) -> (r: Result<Vec<u8>, Error>)
    ensures
        match r {
            Ok(out) => write_fault(header@, body@.len()) is None && out@ == record_octets(
                header@,
                body@,
            ),
            Err(error) => write_fault(header@, body@.len()) == Some(error@),
        },
{
    match validate_raw_header(header, body) {
        Ok(_) => Ok(write_block(header, body)),
        Err(error) => Err(error),
    }
}

/// The octets of a header block and a body.
fn write_block(header: &RawRecordHeader, body: &[u8]) -> (r: Vec<u8>)
    ensures
        r@ == record_octets(header@, body@),
{
    let mut out: Vec<u8> = Vec::new();
    append(&mut out, "WARC/".as_bytes());
    append(&mut out, header.version.as_str().as_bytes());
    append(&mut out, "\r\n".as_bytes());
    let ghost opening = out@;
    let ghost fields = header@.fields;
    let mut i: usize = 0;
    assert(fields.take(0) =~= Seq::empty());
    assert(out@ =~= opening + fields_octets(fields.take(0)));
    while i < header.headers.len()
        invariant
            i <= header.headers.len(),
            fields == header@.fields,
            out@ == opening + fields_octets(fields.take(i as int)),
        decreases header.headers.len() - i,
    {
        let name = header.headers[i].0.as_str();
        let value = header.headers[i].1.as_slice();
        append(&mut out, name.as_bytes());
        append(&mut out, ": ".as_bytes());
        append(&mut out, value);
        append(&mut out, "\r\n".as_bytes());
        proof {
            lemma_marks();
            let longer = fields.take(i + 1);
            assert(longer.drop_last() =~= fields.take(i as int));
            assert(longer.last() == (name@, value@));
            assert(out@ =~= opening + fields_octets(longer));
        }
        i = i + 1;
    }
    assert(fields.take(fields.len() as int) =~= fields);
    append(&mut out, "\r\n".as_bytes());
    append(&mut out, body);
    append(&mut out, "\r\n\r\n".as_bytes());
    proof {
        lemma_marks();
        assert(out@ =~= record_octets(header@, body@));
    }
    out
}

/// The octets that a record is written as.
///
/// # Errors
///
/// Returns an error for a record that could not be read back.
pub fn write(record: &BufferedRecord) -> (r: Result<Vec<u8>, Error>)
    ensures
        match r {
            Ok(out) => write_fault(record.held(), record.block().len()) is None && out@
                == record_octets(record.held(), record.block()),
            Err(error) => write_fault(record.held(), record.block().len()) == Some(error@),
        },
{
    write_raw(record.raw_header(), record.body())
}

/// What a field given as texts holds.
pub open spec fn written(field: (&str, &str)) -> Written {
    (field.0@, octets(field.1@))
}

/// The header block of a WARC 1.1 record with the given fields and the length of its body.
pub open spec fn framed_header(fields: Seq<(&str, &str)>, body: nat) -> Header {
    Header {
        version: "1.1"@,
        fields: fields.map_values(|field: (&str, &str)| written(field)).push(
            ("Content-Length"@, decimal(body)),
        ),
    }
}

/// A WARC 1.1 record with the given fields, framed by the body's length.
pub fn render(fields: &[(&str, &str)], body: &str) -> (r: Vec<u8>)
    ensures
        r@ == record_octets(framed_header(fields@, octets(body@).len()), octets(body@)),
{
    let ghost expected = fields@.map_values(|field: (&str, &str)| written(field));
    let mut headers: Vec<(String, Vec<u8>)> = Vec::new();
    let mut i: usize = 0;
    while i < fields.len()
        invariant
            i <= fields.len(),
            headers.len() == i,
            forall|j: int|
                0 <= j < i ==> ((#[trigger] headers@[j]).0@, headers@[j].1@) == written(fields@[j]),
        decreases fields.len() - i,
    {
        let (name, value) = fields[i];
        headers.push((name.to_string(), copied(value.as_bytes())));
        i = i + 1;
    }
    let octets_of_body = body.as_bytes();
    headers.push(("Content-Length".to_string(), decimal_octets(octets_of_body.len() as u64)));
    let header = RawRecordHeader { version: "1.1".to_string(), headers };
    assert(header@.fields =~= framed_header(fields@, octets(body@).len()).fields);
    write_block(&header, octets_of_body)
}

/// Whether a field is read back as it is written: its name is in lower case, and its value is text
/// that white space neither opens nor closes.
pub open spec fn is_plain_field(field: Written) -> bool {
    &&& is_token(octets(field.0))
    &&& lowered(octets(field.0)) == octets(field.0)
    &&& is_text(field.1)
    &&& is_trim(field.1)
}

/// Whether no two fields have the same name.
pub open spec fn are_distinct(fields: Seq<Written>) -> bool {
    forall|i: int, j: int|
        0 <= i < j < fields.len() ==> #[trigger] fields[i].0 != #[trigger] fields[j].0
}

/// Whether a header is read back as it is written: it names a version in one line, its fields are
/// plain and distinct, and it declares the length of the body.
pub open spec fn is_plain_header(header: Header, body: nat) -> bool {
    &&& octets(header.version).len() > 0
    &&& is_one_line(octets(header.version))
    &&& forall|i: int| 0 <= i < header.fields.len() ==> is_plain_field(#[trigger] header.fields[i])
    &&& are_distinct(header.fields)
    &&& body_length(header.fields) == Ok::<nat, Fault>(body)
}

/// Fields as they stand in a block: with a space before each value.
pub open spec fn spaced(fields: Seq<Written>) -> Seq<Written> {
    fields.map_values(|field: Written| (field.0, seq![0x20u8] + field.1))
}

/// The octets of fields are those of the first and those of the others.
proof fn lemma_fields_open(fields: Seq<Written>)
    requires
        fields.len() > 0,
    ensures
        fields_octets(fields) == field_octets(fields[0]) + fields_octets(fields.skip(1)),
    decreases fields.len(),
{
    let shorter = fields.drop_last();
    if fields.len() == 1 {
        assert(fields.skip(1) =~= Seq::empty());
        assert(shorter =~= Seq::empty());
        assert(fields_octets(fields) =~= field_octets(fields[0]) + fields_octets(fields.skip(1)));
    } else {
        lemma_fields_open(shorter);
        assert(fields.skip(1).drop_last() =~= shorter.skip(1));
        assert(fields.skip(1).last() == fields.last());
        assert(fields_octets(fields) =~= field_octets(fields[0]) + fields_octets(fields.skip(1)));
    }
}

/// The octets of a name that is a token are its characters.
proof fn lemma_name(name: Seq<char>)
    requires
        is_token(octets(name)),
    ensures
        is_ascii(octets(name)),
        ascii_text(octets(name)) == name,
{
    let s = octets(name);
    assert forall|i: int| 0 <= i < s.len() implies #[trigger] s[i] < 0x80 by {
        assert(is_token_char(s[i]));
    }
    lemma_ascii_octets(name);
}

/// An empty line starts no field.
proof fn lemma_empty_line(before: Seq<u8>)
    ensures
        fields_from(before + crlf(), before.len() as int) == (
            Seq::<Written>::empty(),
            before.len() as int,
        ),
{
    let s = before + crlf();
    let at = before.len() as int;
    assert(s[at] == 0x0d && s[at + 1] == 0x0a);
    lemma_position_is(s, 0x0a, at, at + 1);
    lemma_position(s, 0x3a, at);
    assert(field_end(s, at) == Some((at, at + 2)));
    assert(field_at(s, at) is None);
}

/// Plain fields are read back from the block that they are written in.
proof fn lemma_fields_read_back(before: Seq<u8>, fields: Seq<Written>)
    requires
        forall|i: int| 0 <= i < fields.len() ==> is_plain_field(#[trigger] fields[i]),
    ensures
        fields_from(before + fields_octets(fields) + crlf(), before.len() as int) == (
            spaced(fields),
            (before + fields_octets(fields)).len() as int,
        ),
    decreases fields.len(),
{
    let s = before + fields_octets(fields) + crlf();
    let at = before.len() as int;
    if fields.len() == 0 {
        assert(s =~= before + crlf());
        lemma_empty_line(before);
        assert(spaced(fields) =~= Seq::empty());
        assert((before + fields_octets(fields)).len() == before.len());
    } else {
        let field = fields[0];
        let rest = fields.skip(1);
        let name = octets(field.0);
        let line = field_octets(field);
        let after = fields_octets(rest) + crlf();
        assert(is_plain_field(field));
        assert forall|i: int| 0 <= i < rest.len() implies is_plain_field(#[trigger] rest[i]) by {
            assert(rest[i] == fields[i + 1]);
        }
        lemma_fields_open(fields);
        assert(s =~= before + line + after);
        if rest.len() > 0 {
            lemma_fields_open(rest);
            assert(is_plain_field(rest[0]));
            assert(is_token_char(octets(rest[0].0)[0]));
            assert(after[0] == octets(rest[0].0)[0]);
        } else {
            assert(after[0] == 0x0d);
        }
        lemma_field_reads_back(before, name, field.1, after);
        lemma_name(field.0);
        assert(line =~= name + seq![0x3au8, 0x20u8] + field.1 + seq![0x0du8, 0x0au8]);
        let walked = before + line;
        assert(s =~= walked + fields_octets(rest) + crlf());
        lemma_fields_read_back(walked, rest);
        assert(spaced(fields) =~= seq![(field.0, seq![0x20u8] + field.1)] + spaced(rest));
        assert((before + fields_octets(fields)).len() == (walked + fields_octets(rest)).len());
    }
}

/// A field that others do not name is not found among them.
proof fn lemma_not_found(fields: Seq<Written>, name: Seq<char>, i: int)
    requires
        0 <= i <= fields.len(),
        is_token(octets(name)),
        lowered(octets(name)) == octets(name),
        forall|j: int| 0 <= j < fields.len() ==> is_plain_field(#[trigger] fields[j]),
        forall|j: int| 0 <= j < fields.len() ==> #[trigger] fields[j].0 != name,
    ensures
        field_position(fields, name, i) == fields.len(),
    decreases fields.len() - i,
{
    if i < fields.len() {
        assert(is_plain_field(fields[i]));
        if same_but_for_case(octets(fields[i].0), octets(name)) {
            lemma_octets_injective(fields[i].0, name);
        }
        lemma_not_found(fields, name, i + 1);
    }
}

/// Plain fields with distinct names are kept as they are.
proof fn lemma_keyed(fields: Seq<Written>)
    requires
        forall|i: int| 0 <= i < fields.len() ==> is_plain_field(#[trigger] fields[i]),
        are_distinct(fields),
    ensures
        keyed(spaced(fields)) == fields,
    decreases fields.len(),
{
    if fields.len() == 0 {
        assert(spaced(fields) =~= fields);
    } else {
        let shorter = fields.drop_last();
        let last = fields.last();
        assert(is_plain_field(fields[fields.len() - 1]));
        assert forall|i: int| 0 <= i < shorter.len() implies is_plain_field(#[trigger] shorter[i]) by {
            assert(shorter[i] == fields[i]);
        }
        lemma_keyed(shorter);
        assert(spaced(fields).drop_last() =~= spaced(shorter));
        assert(spaced(fields).last() == (last.0, seq![0x20u8] + last.1));
        assert forall|j: int| 0 <= j < shorter.len() implies #[trigger] shorter[j].0 != last.0 by {
            assert(fields[j].0 != fields[fields.len() - 1].0);
        }
        lemma_not_found(shorter, last.0, 0);
        lemma_name(last.0);
        assert forall|j: int| 0 <= j < last.1.len() implies #[trigger] last.1[j] != 0x0a by {
            assert(is_text_char(last.1[j]));
        }
        lemma_unfolded_same(seq![0x20u8], last.1);
        assert(fields =~= shorter.push(last));
    }
}

/// A header block is read back as it is written.
#[verifier::spinoff_prover]
proof fn lemma_header_reads_back(header: Header, body: nat)
    requires
        is_plain_header(header, body),
    ensures
        header_block(header_octets(header)) == Ok::<(Header, nat), Fault>((header, body)),
{
    let block = header_octets(header);
    let version = octets(header.version);
    let opening = octets("WARC/"@) + version + crlf();
    lemma_marks();
    assert(block =~= opening + fields_octets(header.fields) + crlf());
    let end = 5 + version.len() as int;
    assert(block[end] == 0x0d && block[end + 1] == 0x0a);
    assert forall|i: int| 0 <= i < end + 1 implies #[trigger] block[i] != 0x0a by {
        if 5 <= i < end {
            assert(block[i] == version[i - 5]);
        }
    }
    lemma_position_is(block, 0x0a, 0, end + 1);
    assert(content_end(block, 0) == end);
    assert(block.subrange(5, end) =~= version);
    assert(octets("WARC/"@).is_prefix_of(block)) by {
        assert(block.subrange(0, 5) =~= octets("WARC/"@));
    }
    encode_utf8_valid_utf8(header.version);
    encode_utf8_decode_utf8(header.version);
    lemma_fields_read_back(opening, header.fields);
    lemma_keyed(header.fields);
    let stop = (opening + fields_octets(header.fields)).len() as int;
    assert(block.skip(stop) =~= crlf());
}

/// A line of a header block is read over.
#[verifier::spinoff_prover]
proof fn lemma_read_line(so_far: Seq<u8>, before: Seq<u8>, line: Seq<u8>, after: Seq<u8>)
    requires
        line.len() > 2,
        line.last() == 0x0a,
        forall|i: int| 0 <= i < line.len() - 1 ==> #[trigger] line[i] != 0x0a,
    ensures
        read_from(Reading::Header(so_far), before + line + after, before.len() as int)
            == read_from(
            Reading::Header(so_far + line),
            before + line + after,
            (before + line).len() as int,
        ),
{
    let s = before + line + after;
    let at = before.len() as int;
    let end = at + line.len() - 1;
    assert(s[end] == line[line.len() - 1]);
    assert forall|i: int| at <= i < end implies #[trigger] s[i] != 0x0a by {
        assert(s[i] == line[i - at]);
    }
    lemma_position_is(s, 0x0a, at, end);
    assert(s.subrange(at, end + 1) =~= line);
    assert(line != crlf());
}

/// A plain field is written in one line.
proof fn lemma_field_line(field: Written)
    requires
        is_plain_field(field),
    ensures
        ({
            let line = field_octets(field);
            &&& line.len() > 2
            &&& line.last() == 0x0a
            &&& forall|i: int| 0 <= i < line.len() - 1 ==> #[trigger] line[i] != 0x0a
        }),
{
    let line = field_octets(field);
    let name = octets(field.0);
    assert forall|i: int| 0 <= i < line.len() - 1 implies #[trigger] line[i] != 0x0a by {
        if i < name.len() {
            assert(line[i] == name[i]);
            assert(is_token_char(name[i]));
        } else if name.len() + 2 <= i < line.len() - 2 {
            assert(line[i] == field.1[i - name.len() - 2]);
            assert(is_text_char(field.1[i - name.len() - 2]));
        }
    }
}

/// The fields of a header block are read over.
#[verifier::spinoff_prover]
#[verifier::rlimit(40)]
proof fn lemma_read_fields(so_far: Seq<u8>, before: Seq<u8>, fields: Seq<Written>, after: Seq<u8>)
    requires
        forall|i: int| 0 <= i < fields.len() ==> is_plain_field(#[trigger] fields[i]),
    ensures
        read_from(
            Reading::Header(so_far),
            before + fields_octets(fields) + after,
            before.len() as int,
        ) == read_from(
            Reading::Header(so_far + fields_octets(fields)),
            before + fields_octets(fields) + after,
            (before + fields_octets(fields)).len() as int,
        ),
    decreases fields.len(),
{
    let s = before + fields_octets(fields) + after;
    if fields.len() == 0 {
        assert(so_far + fields_octets(fields) =~= so_far);
        assert(before + fields_octets(fields) =~= before);
    } else {
        let field = fields[0];
        let rest = fields.skip(1);
        let line = field_octets(field);
        assert(is_plain_field(field));
        assert forall|i: int| 0 <= i < rest.len() implies is_plain_field(#[trigger] rest[i]) by {
            assert(rest[i] == fields[i + 1]);
        }
        lemma_fields_open(fields);
        lemma_field_line(field);
        assert(s =~= before + line + (fields_octets(rest) + after));
        lemma_read_line(so_far, before, line, fields_octets(rest) + after);
        let walked = before + line;
        assert(s =~= walked + fields_octets(rest) + after);
        lemma_read_fields(so_far + line, walked, rest, after);
        assert(so_far + line + fields_octets(rest) =~= so_far + fields_octets(fields));
        assert(walked + fields_octets(rest) =~= before + fields_octets(fields));
    }
}

/// A body is read up to its terminator.
proof fn lemma_read_body(header: Header, s: Seq<u8>, start: int, length: nat, at: int)
    requires
        0 <= start <= at,
        at <= start + length + 2,
        start + length + 4 <= s.len(),
        s.subrange(start + length, start + length + 4) == terminator(),
    ensures
        read_from(Reading::Body(header, length, s.subrange(start, at)), s, at) == (
            Came::Record(header, s.subrange(start, start + length)),
            start + length + 4,
        ),
    decreases s.len() - at,
{
    let end = start + length + 4;
    let closing = s.subrange(start + length, end);
    assert(closing[1] == 0x0a && closing[2] == 0x0d && closing[3] == 0x0a);
    assert(s[end - 3] == closing[1] && s[end - 2] == closing[2] && s[end - 1] == closing[3]);
    lemma_position(s, 0x0a, at);
    let next = line_break(s, at) + 1;
    if at < end - 2 {
        assert(next <= end - 2) by {
            if line_break(s, at) > end - 3 {
                assert(s[end - 3] != 0x0a);
            }
        }
        let line = s.subrange(at, next);
        assert(s.subrange(start, at) + line =~= s.subrange(start, next));
        lemma_read_body(header, s, start, length, next);
    } else {
        assert(next == end) by {
            lemma_position_is(s, 0x0a, at, end - 1);
        }
        let line = s.subrange(at, end);
        let all = s.subrange(start, at) + line;
        assert(all =~= s.subrange(start, end));
        assert(all.skip(length as int) =~= closing);
        assert(all.take(length as int) =~= s.subrange(start, start + length));
    }
}

/// The empty line that ends a header block leads to the body.
proof fn lemma_read_header_end(before: Seq<u8>, s: Seq<u8>, at: int, header: Header, length: nat)
    requires
        0 <= at,
        at + 2 <= s.len(),
        s.subrange(at, at + 2) == crlf(),
        header_block(before + crlf()) == Ok::<(Header, nat), Fault>((header, length)),
    ensures
        read_from(Reading::Header(before), s, at) == read_from(
            Reading::Body(header, length, Seq::empty()),
            s,
            at + 2,
        ),
{
    let line = s.subrange(at, at + 2);
    assert(line[0] == 0x0d && line[1] == 0x0a);
    assert(s[at] == line[0] && s[at + 1] == line[1]);
    lemma_position_is(s, 0x0a, at, at + 1);
}

/// The header block that a stream opens with is read.
#[verifier::spinoff_prover]
proof fn lemma_read_header(header: Header, length: nat, behind: Seq<u8>)
    requires
        is_plain_header(header, length),
    ensures
        read_from(Reading::Header(Seq::empty()), header_octets(header) + behind, 0) == read_from(
            Reading::Body(header, length, Seq::empty()),
            header_octets(header) + behind,
            header_octets(header).len() as int,
        ),
{
    let block = header_octets(header);
    let s = block + behind;
    let version = octets(header.version);
    let opening = octets("WARC/"@) + version + crlf();
    let fields = fields_octets(header.fields);
    let none = Seq::<u8>::empty();
    lemma_marks();
    let after = crlf() + behind;
    assert(s =~= none + opening + (fields + after));
    assert forall|i: int| 0 <= i < opening.len() - 1 implies #[trigger] opening[i] != 0x0a by {
        if 5 <= i < 5 + version.len() {
            assert(opening[i] == version[i - 5]);
        }
    }
    lemma_read_line(none, none, opening, fields + after);
    assert(none + opening =~= opening);
    assert(s =~= opening + fields + after);
    lemma_read_fields(opening, opening, header.fields, after);
    let before = opening + fields;
    assert(before + crlf() =~= block);
    assert(s.subrange(before.len() as int, before.len() + 2int) =~= crlf());
    lemma_header_reads_back(header, length);
    lemma_read_header_end(before, s, before.len() as int, header, length);
}

/// A record that is written is the next one read from a stream that holds it, whatever follows it,
/// and what is left of the stream is what follows.
pub proof fn lemma_record_reads_back(header: Header, body: Seq<u8>, rest: Seq<u8>)
    requires
        is_plain_header(header, body.len()),
    ensures
        read_from(Reading::Header(Seq::empty()), record_octets(header, body) + rest, 0) == (
            Came::Record(header, body),
            record_octets(header, body).len() as int,
        ),
{
    let s = record_octets(header, body) + rest;
    let block = header_octets(header);
    let behind = body + terminator() + rest;
    assert(s =~= block + behind);
    lemma_read_header(header, body.len(), behind);
    let start = block.len() as int;
    assert(s.subrange(start + body.len(), start + body.len() + 4) =~= terminator());
    assert(s.subrange(start, start) =~= Seq::empty());
    lemma_read_body(header, s, start, body.len(), start);
    assert(s.subrange(start, start + body.len()) =~= body);
}

/// The octets that records are written as, one behind the other.
pub open spec fn stream_octets(records: Seq<(Header, Seq<u8>)>) -> Seq<u8>
    decreases records.len(),
{
    if records.len() == 0 {
        Seq::empty()
    } else {
        stream_octets(records.drop_last()) + record_octets(records.last().0, records.last().1)
    }
}

/// A record stands in a stream behind the records before it.
proof fn lemma_record_in_stream(records: Seq<(Header, Seq<u8>)>, k: int)
    requires
        0 <= k < records.len(),
    ensures
        stream_octets(records.take(k)).len() <= stream_octets(records).len(),
        stream_octets(records).skip(stream_octets(records.take(k)).len() as int) == record_octets(
            records[k].0,
            records[k].1,
        ) + stream_octets(records).skip(stream_octets(records.take(k + 1)).len() as int),
    decreases records.len(),
{
    let shorter = records.drop_last();
    let last = record_octets(records.last().0, records.last().1);
    let all = stream_octets(records);
    if k < shorter.len() {
        lemma_record_in_stream(shorter, k);
        assert(records.take(k) =~= shorter.take(k));
        assert(records.take(k + 1) =~= shorter.take(k + 1));
        if k + 1 < shorter.len() {
            lemma_record_in_stream(shorter, k + 1);
        } else {
            assert(shorter.take(k + 1) =~= shorter);
        }
        let before = stream_octets(shorter);
        let from = stream_octets(shorter.take(k)).len() as int;
        let to = stream_octets(shorter.take(k + 1)).len() as int;
        assert(all.skip(from) =~= before.skip(from) + last);
        assert(all.skip(to) =~= before.skip(to) + last);
        assert((record_octets(records[k].0, records[k].1) + before.skip(to)) + last
            =~= record_octets(records[k].0, records[k].1) + (before.skip(to) + last));
    } else {
        assert(records.take(k) =~= shorter);
        assert(records.take(k + 1) =~= records);
        let from = stream_octets(shorter).len() as int;
        assert(all.skip(from) =~= last);
        assert(all.skip(all.len() as int) =~= Seq::empty());
        assert(last + Seq::empty() =~= last);
    }
}

/// Records that are written one behind the other are read back in order: each is the next one read
/// where the records before it end, and where the last one ends, the stream does.
pub proof fn lemma_stream_reads_back(records: Seq<(Header, Seq<u8>)>)
    requires
        forall|i: int|
            0 <= i < records.len() ==> is_plain_header(
                (#[trigger] records[i]).0,
                records[i].1.len(),
            ),
    ensures
        forall|k: int|
            0 <= k < records.len() ==> read_from(
                Reading::Header(Seq::empty()),
                stream_octets(records).skip(stream_octets(#[trigger] records.take(k)).len() as int),
                0,
            ) == (
                Came::Record(records[k].0, records[k].1),
                stream_octets(records.take(k + 1)).len() - stream_octets(records.take(k)).len(),
            ),
        read_from(
            Reading::Header(Seq::empty()),
            stream_octets(records).skip(stream_octets(records).len() as int),
            0,
        ) == (Came::Ended, 0int),
{
    let all = stream_octets(records);
    assert forall|k: int| 0 <= k < records.len() implies read_from(
        Reading::Header(Seq::empty()),
        all.skip(stream_octets(#[trigger] records.take(k)).len() as int),
        0,
    ) == (
        Came::Record(records[k].0, records[k].1),
        stream_octets(records.take(k + 1)).len() - stream_octets(records.take(k)).len(),
    ) by {
        lemma_record_in_stream(records, k);
        let rest = all.skip(stream_octets(records.take(k + 1)).len() as int);
        lemma_record_reads_back(records[k].0, records[k].1, rest);
        assert(records.take(k + 1).drop_last() =~= records.take(k));
        assert(records.take(k + 1).last() == records[k]);
    }
    assert(all.skip(all.len() as int) =~= Seq::empty());
}

/// A body of which the stream ends before the terminator is whole is an error.
proof fn lemma_read_cut_body(header: Header, s: Seq<u8>, start: int, length: nat, at: int)
    requires
        0 <= start <= at <= s.len(),
        s.len() < start + length + 4,
    ensures
        read_from(Reading::Body(header, length, s.subrange(start, at)), s, at).0 == Came::Failed(
            Fault::UnexpectedEOB,
        ),
    decreases s.len() - at,
{
    lemma_position(s, 0x0a, at);
    let next = if line_break(s, at) < s.len() {
        line_break(s, at) + 1
    } else {
        s.len() as int
    };
    if at < next {
        let line = s.subrange(at, next);
        assert(s.subrange(start, at) + line =~= s.subrange(start, next));
        lemma_read_cut_body(header, s, start, length, next);
    }
}

/// A record that is cut behind its header block, within its body or its terminator, is an error.
pub proof fn lemma_cut_record_is_refused(header: Header, body: Seq<u8>, cut: int)
    requires
        is_plain_header(header, body.len()),
        header_octets(header).len() <= cut < record_octets(header, body).len(),
    ensures
        read_from(
            Reading::Header(Seq::empty()),
            record_octets(header, body).take(cut),
            0,
        ).0 == Came::Failed(Fault::UnexpectedEOB),
{
    let block = header_octets(header);
    let start = block.len() as int;
    let s = record_octets(header, body).take(cut);
    assert(s =~= block + s.skip(start));
    lemma_read_header(header, body.len(), s.skip(start));
    assert(s.subrange(start, start) =~= Seq::empty());
    lemma_read_cut_body(header, s, start, body.len(), start);
}

/// A body that something else stands behind than a terminator is an error.
proof fn lemma_read_wrong_end(header: Header, s: Seq<u8>, start: int, length: nat, at: int)
    requires
        0 <= start <= at <= s.len(),
        start + length + 4 <= s.len(),
        s.subrange(start + length, start + length + 4) != terminator(),
    ensures
        read_from(Reading::Body(header, length, s.subrange(start, at)), s, at).0 is Failed,
    decreases s.len() - at,
{
    lemma_position(s, 0x0a, at);
    let next = if line_break(s, at) < s.len() {
        line_break(s, at) + 1
    } else {
        s.len() as int
    };
    if at < next {
        let line = s.subrange(at, next);
        let all = s.subrange(start, at) + line;
        assert(all =~= s.subrange(start, next));
        if all.len() == length + 4 {
            assert(all.skip(length as int) =~= s.subrange(
                start + length,
                start + length + 4,
            ));
        }
        lemma_read_wrong_end(header, s, start, length, next);
    }
}

/// A record whose body is not followed by a terminator is an error: a body that is longer than its
/// header declares, or shorter.
pub proof fn lemma_wrong_end_is_refused(header: Header, length: nat, behind: Seq<u8>)
    requires
        is_plain_header(header, length),
        length + 4 <= behind.len(),
        behind.subrange(length as int, length + 4int) != seq![0x0du8, 0x0a, 0x0d, 0x0a],
    ensures
        read_from(Reading::Header(Seq::empty()), header_octets(header) + behind, 0).0 is Failed,
{
    let block = header_octets(header);
    let start = block.len() as int;
    let s = block + behind;
    lemma_read_header(header, length, behind);
    assert(s.subrange(start, start) =~= Seq::empty());
    assert(s.subrange(start + length, start + length + 4) =~= behind.subrange(
        length as int,
        length + 4int,
    ));
    lemma_read_wrong_end(header, s, start, length, start);
}

/// A header that declares a length is written with a body of that length alone, and only where its
/// version and its values are single lines and its names are tokens.
pub proof fn lemma_length_is_kept(
    version: Seq<char>,
    before: Seq<Written>,
    name: Seq<char>,
    length: nat,
    after: Seq<Written>,
    body: nat,
)
    requires
        same_but_for_case(octets(name), octets("content-length"@)),
        forall|i: int|
            0 <= i < before.len() ==> !crate::warc_record::has_name(
                #[trigger] before[i],
                "content-length"@,
            ),
        length <= u64::MAX,
    ensures
        ({
            let fields = before + seq![(name, decimal(length))] + after;
            let header = Header { version, fields };
            write_fault(header, body) is None <==> {
                &&& length == body
                &&& is_one_line(octets(version))
                &&& forall|i: int|
                    0 <= i < fields.len() ==> is_token(octets((#[trigger] fields[i]).0))
                        && is_one_line(fields[i].1)
            }
        }),
{
    let fields = before + seq![(name, decimal(length))] + after;
    crate::warc_record::lemma_body_length(before, (name, decimal(length)), after, 0, length);
    assert(crate::chunked::no_value(0) + decimal(length) =~= decimal(length));
    lemma_unwritable(fields, 0);
}

proof fn lemma_unwritable(fields: Seq<Written>, i: int)
    requires
        0 <= i <= fields.len(),
    ensures
        i <= unwritable_from(fields, i) <= fields.len(),
        unwritable_from(fields, i) < fields.len() ==> !is_writable(
            fields[unwritable_from(fields, i)],
        ),
        forall|j: int|
            i <= j < unwritable_from(fields, i) ==> is_writable(#[trigger] fields[j]),
    decreases fields.len() - i,
{
    if i < fields.len() && is_writable(fields[i]) {
        lemma_unwritable(fields, i + 1);
    }
}

} // verus!
