//! HTTP messages as they are written, and what is read of them: their entity-body, and the media
//! type that it is identified as.

use crate::chunked::{
    chunked_octets, is_blank, is_chunked_body, joined_data, lemma_data_is_joined,
    lemma_opens_with_size, lines_octets, ChunkedBody,
};
use crate::octets::{
    ascii_text, is_hex_digit, is_white, lemma_ascii_octets_of, lemma_ascii_text,
    lemma_crlf_position_is, lemma_leading_white_is, lemma_position, lemma_position_is,
    lemma_spells_word, lemma_trailing_white, lemma_trimmed_between, lemma_trimmed_same, lossy_text,
    octets, position, same_but_for_case, spells_word, trimmed,
};
use crate::parsing::{
    content_end, field_colon, is_lws, is_text_char, is_token, is_token_char, line_break,
};
use crate::record::http::{
    field_value, is_one_line, response_fields, with_field, with_fields, HeaderLine,
};
use crate::record::identify::{
    content_type_from, declared_type, http_identified, identified, is_content_type, is_json,
    is_json_subtype, lemma_identified, signature,
};
use crate::record::payload::{
    body_of, body_start, codings, declared_size, declares_chunks, is_transfer_encoding,
    message_parts, opens_with_size, with_line, Fault,
};
use crate::value::media_type::{
    is_spellable, lemma_media_octets_are_text, lemma_media_octets_are_trim,
    lemma_media_type_reads_back, media_octets, Media,
};
use crate::recorder::ending::lemma_section_ends;
use crate::recorder::response::header_end;
use vstd::prelude::*;
use vstd::utf8::{decode_utf8, encode_utf8_decode_utf8, encode_utf8_valid_utf8, valid_utf8};

verus! {

/// A header field of a message, as it is written on one line.
pub ghost struct Field {
    /// What stands before the colon.
    pub name: Seq<u8>,
    /// What stands behind the colon.
    pub value: Seq<u8>,
}

/// Whether a field is named by a token and written on one line.
pub open spec fn is_field(field: Field) -> bool {
    is_token(field.name) && is_one_line(field.value)
}

/// The octets of a field, without what ends its line.
pub open spec fn field_octets(field: Field) -> Seq<u8> {
    field.name + seq![0x3au8] + field.value
}

/// The octets of fields.
pub open spec fn fields_octets(fields: Seq<Field>) -> Seq<u8>
    decreases fields.len(),
{
    if fields.len() == 0 {
        Seq::empty()
    } else {
        field_octets(fields[0]) + seq![0x0du8, 0x0a] + fields_octets(fields.skip(1))
    }
}

/// The octets of a header section: a first line, fields, and an empty line.
pub open spec fn head_octets(first: Seq<u8>, fields: Seq<Field>) -> Seq<u8> {
    first + seq![0x0du8, 0x0a] + fields_octets(fields) + seq![0x0du8, 0x0a]
}

/// The name that a `Transfer-Encoding` field has in lower case.
pub open spec fn coding_name() -> Seq<u8> {
    octets("transfer-encoding"@)
}

/// The name that a `Content-Type` field has in lower case.
pub open spec fn type_field_name() -> Seq<u8> {
    octets("content-type"@)
}

/// Whether fields are well-formed and none has a name, in whichever case.
pub open spec fn are_other_fields(fields: Seq<Field>, name: Seq<u8>) -> bool {
    forall|i: int|
        0 <= i < fields.len() ==> is_field(#[trigger] fields[i]) && !spells_word(
            fields[i].name,
            name,
        )
}

/// Whether fields are well-formed.
pub open spec fn are_fields(fields: Seq<Field>) -> bool {
    forall|i: int| 0 <= i < fields.len() ==> is_field(#[trigger] fields[i])
}

proof fn lemma_names()
    ensures
        coding_name().len() == 17,
        type_field_name().len() == 12,
        octets("chunked"@).len() == 7,
        octets("identity"@).len() == 8,
        forall|i: int| 0 <= i < 17 ==> 0x2d <= #[trigger] coding_name()[i] && !(0x41
            <= coding_name()[i] <= 0x5a),
        forall|i: int| 0 <= i < 12 ==> 0x2d <= #[trigger] type_field_name()[i] && !(0x41
            <= type_field_name()[i] <= 0x5a),
        forall|i: int| 0 <= i < 7 ==> 0x61 <= #[trigger] octets("chunked"@)[i] <= 0x7a,
        forall|i: int| 0 <= i < 8 ==> 0x61 <= #[trigger] octets("identity"@)[i] <= 0x7a,
{
    reveal_strlit("transfer-encoding");
    reveal_strlit("content-type");
    reveal_strlit("chunked");
    reveal_strlit("identity");
    lemma_ascii_octets_of("transfer-encoding"@);
    lemma_ascii_octets_of("content-type"@);
    lemma_ascii_octets_of("chunked"@);
    lemma_ascii_octets_of("identity"@);
}

/// The line behind `before` ends where it is broken.
proof fn lemma_line(before: Seq<u8>, line: Seq<u8>, after: Seq<u8>)
    requires
        is_one_line(line),
    ensures
        ({
            let all = before + line + seq![0x0du8, 0x0a] + after;
            let at = before.len() as int;
            &&& line_break(all, at) == at + line.len() + 1
            &&& content_end(all, at) == at + line.len()
            &&& all.subrange(at, at + line.len()) == line
        }),
{
    let all = before + line + seq![0x0du8, 0x0a] + after;
    let at = before.len() as int;
    let end = at + line.len();
    assert forall|i: int| at <= i < end implies #[trigger] all[i] != 0x0a && all[i] != 0x0d by {
        assert(all[i] == line[i - at]);
    }
    assert(all[end] == 0x0d && all[end + 1] == 0x0a);
    lemma_position_is(all, 0x0a, at, end + 1);
    assert(all.subrange(at, end) =~= line);
}

/// A field is told apart at its colon.
proof fn lemma_field(field: Field)
    requires
        is_field(field),
    ensures
        is_one_line(field_octets(field)),
        field_octets(field).len() > 0,
        !is_lws(field_octets(field)[0]),
        field_colon(field_octets(field)) == Some(field.name.len() as int),
        field_octets(field).take(field.name.len() as int) == field.name,
        field_octets(field).skip(field.name.len() + 1int) == field.value,
        is_transfer_encoding(field_octets(field)) == spells_word(field.name, coding_name()),
        is_content_type(field_octets(field)) == spells_word(field.name, type_field_name()),
{
    let line = field_octets(field);
    let n = field.name.len() as int;
    assert forall|i: int| 0 <= i < n implies #[trigger] line[i] != 0x3a by {
        assert(line[i] == field.name[i]);
        assert(is_token_char(field.name[i]));
    }
    assert forall|i: int| 0 <= i < line.len() implies #[trigger] line[i] != 0x0a && line[i]
        != 0x0d by {
        if i < n {
            assert(line[i] == field.name[i]);
            assert(is_token_char(field.name[i]));
        } else if i > n {
            assert(line[i] == field.value[i - n - 1]);
        }
    }
    assert(is_token_char(field.name[0]));
    assert(line[0] == field.name[0]);
    assert(line[n] == 0x3a);
    lemma_position_is(line, 0x3a, 0, n);
    assert(line.take(n) =~= field.name);
    assert(line.skip(n + 1) =~= field.value);
    lemma_names();
    lemma_spells_word(field.name, coding_name());
    lemma_spells_word(field.name, type_field_name());
}

/// The fields behind `before` that are no `Transfer-Encoding` are walked over.
proof fn lemma_walk_others(
    before: Seq<u8>,
    fields: Seq<Field>,
    after: Seq<u8>,
    value: Seq<u8>,
    folding: bool,
)
    requires
        are_other_fields(fields, coding_name()),
    ensures
        ({
            let all = before + fields_octets(fields) + after;
            body_start(all, before.len() as int, value, folding) == body_start(
                all,
                (before + fields_octets(fields)).len() as int,
                value,
                if fields.len() == 0 {
                    folding
                } else {
                    false
                },
            )
        }),
    decreases fields.len(),
{
    let all = before + fields_octets(fields) + after;
    if fields.len() > 0 {
        let line = field_octets(fields[0]);
        let rest = fields.skip(1);
        assert(is_field(fields[0]));
        assert forall|i: int| 0 <= i < rest.len() implies is_field(#[trigger] rest[i])
            && !spells_word(rest[i].name, coding_name()) by {
            assert(rest[i] == fields[i + 1]);
        }
        lemma_field(fields[0]);
        let behind = fields_octets(rest) + after;
        assert(all =~= before + line + seq![0x0du8, 0x0a] + behind);
        lemma_line(before, line, behind);
        let walked = before + line + seq![0x0du8, 0x0a];
        assert(all =~= walked + fields_octets(rest) + after);
        assert(before + fields_octets(fields) =~= walked + fields_octets(rest));
        lemma_walk_others(walked, rest, after, value, false);
    }
}

/// The octets of a message behind one of its fields.
spec fn message_tail(later: Seq<Field>, body: Seq<u8>) -> Seq<u8> {
    fields_octets(later) + seq![0x0du8, 0x0a] + body
}

/// From a `Transfer-Encoding` field behind `before` on, its value is taken.
proof fn lemma_walk_coding(before: Seq<u8>, coding: Field, after: Seq<u8>)
    requires
        is_field(coding),
        spells_word(coding.name, coding_name()),
    ensures
        ({
            let line = field_octets(coding) + seq![0x0du8, 0x0a];
            body_start(before + line + after, before.len() as int, Seq::empty(), false)
                == body_start(
                before + line + after,
                (before + line).len() as int,
                coding.value,
                true,
            )
        }),
{
    let line = field_octets(coding);
    let all = before + (line + seq![0x0du8, 0x0a]) + after;
    assert(all =~= before + line + seq![0x0du8, 0x0a] + after);
    lemma_field(coding);
    lemma_line(before, line, after);
    assert(with_line(Seq::empty(), false, line) =~= coding.value);
}

/// The rest of a header section without `Transfer-Encoding` is walked over up to the empty line.
proof fn lemma_walk_to_body(
    before: Seq<u8>,
    fields: Seq<Field>,
    body: Seq<u8>,
    value: Seq<u8>,
    folding: bool,
)
    requires
        are_other_fields(fields, coding_name()),
    ensures
        body_start(before + message_tail(fields, body), before.len() as int, value, folding) == Some(
            ((before + fields_octets(fields)).len() + 2int, value),
        ),
{
    let none = Seq::<u8>::empty();
    let all = before + message_tail(fields, body);
    assert(all =~= before + fields_octets(fields) + (seq![0x0du8, 0x0a] + body));
    lemma_walk_others(before, fields, seq![0x0du8, 0x0a] + body, value, folding);
    let last = before + fields_octets(fields);
    assert(all =~= last + none + seq![0x0du8, 0x0a] + body);
    lemma_line(last, none, body);
}

/// A message with one `Transfer-Encoding` field has that field's value, and its body behind the
/// empty line.
#[verifier::spinoff_prover]
proof fn lemma_parts(
    first: Seq<u8>,
    earlier: Seq<Field>,
    coding: Field,
    later: Seq<Field>,
    body: Seq<u8>,
)
    requires
        is_one_line(first),
        are_other_fields(earlier, coding_name()),
        are_other_fields(later, coding_name()),
        is_field(coding),
        spells_word(coding.name, coding_name()),
    ensures
        ({
            let head = head_octets(first, earlier + seq![coding] + later);
            message_parts(head + body) == Some((head.len() as int, coding.value))
        }),
{
    let head = head_octets(first, earlier + seq![coding] + later);
    let all = head + body;
    let none = Seq::<u8>::empty();
    let line = field_octets(coding) + seq![0x0du8, 0x0a];
    let start = first + seq![0x0du8, 0x0a];
    let here = start + fields_octets(earlier);
    let tail = message_tail(later, body);
    lemma_head_splits(first, earlier, coding, later, body);
    assert(line_break(all, 0) + 1 == start.len()) by {
        let rest = fields_octets(earlier) + (line + tail);
        assert(all =~= none + first + seq![0x0du8, 0x0a] + rest);
        lemma_line(none, first, rest);
    }
    lemma_walk_others(start, earlier, line + tail, none, false);
    lemma_walk_coding(here, coding, tail);
    lemma_walk_to_body(here + line, later, body, coding.value, true);
}

/// The octets of fields are those of some and those of the others.
proof fn lemma_fields_join(a: Seq<Field>, b: Seq<Field>)
    ensures
        fields_octets(a + b) == fields_octets(a) + fields_octets(b),
    decreases a.len(),
{
    if a.len() == 0 {
        assert(a + b =~= b);
        assert(fields_octets(a) + fields_octets(b) =~= fields_octets(b));
    } else {
        lemma_fields_join(a.skip(1), b);
        assert((a + b).skip(1) =~= a.skip(1) + b);
        assert(fields_octets(a + b) =~= fields_octets(a) + fields_octets(b));
    }
}

/// A message without `Transfer-Encoding` has no coding, and its body behind the empty line.
proof fn lemma_plain_parts(first: Seq<u8>, fields: Seq<Field>, body: Seq<u8>)
    requires
        is_one_line(first),
        are_other_fields(fields, coding_name()),
    ensures
        message_parts(head_octets(first, fields) + body) == Some(
            (head_octets(first, fields).len() as int, Seq::<u8>::empty()),
        ),
{
    let head = head_octets(first, fields);
    let all = head + body;
    let none = Seq::<u8>::empty();
    let start = first + seq![0x0du8, 0x0a];
    assert(all =~= none + first + seq![0x0du8, 0x0a] + (fields_octets(fields) + seq![0x0du8, 0x0a]
        + body));
    lemma_line(none, first, fields_octets(fields) + seq![0x0du8, 0x0a] + body);
    assert(all =~= start + fields_octets(fields) + (seq![0x0du8, 0x0a] + body));
    lemma_walk_others(start, fields, seq![0x0du8, 0x0a] + body, none, false);
    let last = start + fields_octets(fields);
    assert(all =~= last + none + seq![0x0du8, 0x0a] + body);
    lemma_line(last, none, body);
    assert(head =~= last + seq![0x0du8, 0x0a]);
}

/// A value that lists one coding lists that coding.
proof fn lemma_one_coding(before: Seq<u8>, coding: Seq<u8>, after: Seq<u8>)
    requires
        is_blank(before),
        is_blank(after),
        is_token(coding),
    ensures
        ({
            let value = before + coding + after;
            &&& trimmed(value) == coding
            &&& codings(value, 0) == if same_but_for_case(coding, octets("identity"@)) {
                Seq::<Seq<u8>>::empty()
            } else {
                seq![coding]
            }
        }),
{
    let value = before + coding + after;
    assert forall|i: int| 0 <= i < value.len() implies #[trigger] value[i] != 0x2c by {
        if i < before.len() {
            assert(value[i] == before[i]);
        } else if i < before.len() + coding.len() {
            assert(value[i] == coding[i - before.len()]);
            assert(is_token_char(coding[i - before.len()]));
        } else {
            assert(value[i] == after[i - before.len() - coding.len()]);
        }
    }
    lemma_position_is(value, 0x2c, 0, value.len() as int);
    assert(value.subrange(0, value.len() as int) =~= value);
    assert forall|i: int| 0 <= i < before.len() implies is_white(#[trigger] before[i]) by {}
    assert forall|i: int| 0 <= i < after.len() implies is_white(#[trigger] after[i]) by {}
    assert(is_token_char(coding[0]) && is_token_char(coding[coding.len() - 1]));
    lemma_trimmed_between(before, coding, after);
}

/// The entity-body of a message whose one transfer-coding is `chunked` is what its chunks hold,
/// joined: dechunking undoes chunking, whatever the pieces, the other fields, the case of the
/// names and digits, the chunk extensions, and the trailers.
pub proof fn lemma_chunked_message(
    first: Seq<u8>,
    earlier: Seq<Field>,
    name: Seq<u8>,
    before: Seq<u8>,
    coding: Seq<u8>,
    after: Seq<u8>,
    later: Seq<Field>,
    body: ChunkedBody,
    rest: Seq<u8>,
)
    requires
        is_one_line(first),
        are_other_fields(earlier, coding_name()),
        are_other_fields(later, coding_name()),
        is_token(name),
        spells_word(name, coding_name()),
        is_blank(before),
        spells_word(coding, octets("chunked"@)),
        is_blank(after),
        is_chunked_body(body, usize::MAX as nat),
    ensures
        ({
            let field = Field { name, value: before + coding + after };
            body_of(
                head_octets(first, earlier + seq![field] + later) + chunked_octets(body) + rest,
            ) == Ok::<Seq<u8>, Fault>(joined_data(body.chunks))
        }),
{
    let field = Field { name, value: before + coding + after };
    lemma_chunked_field(field, before, coding, after);
    let head = head_octets(first, earlier + seq![field] + later);
    let all = head + chunked_octets(body) + rest;
    lemma_parts(first, earlier, field, later, chunked_octets(body) + rest);
    assert(all =~= head + (chunked_octets(body) + rest));
    assert(all.skip(head.len() as int) =~= chunked_octets(body) + rest);
    lemma_opens_with_size(body, rest);
    let none = Seq::<u8>::empty();
    assert(none + chunked_octets(body) + rest =~= chunked_octets(body) + rest);
    lemma_data_is_joined(none, body, rest);
}

proof fn lemma_chunked_field(field: Field, before: Seq<u8>, coding: Seq<u8>, after: Seq<u8>)
    requires
        field.value == before + coding + after,
        is_token(field.name),
        is_blank(before),
        spells_word(coding, octets("chunked"@)),
        is_blank(after),
    ensures
        is_field(field),
        declares_chunks(field.value) == Ok::<bool, Fault>(true),
{
    lemma_names();
    assert(is_token(coding)) by {
        assert forall|i: int| 0 <= i < coding.len() implies is_token_char(#[trigger] coding[i]) by {
            assert(0x61 <= octets("chunked"@)[i] <= 0x7a);
        }
    }
    assert(is_one_line(field.value)) by {
        assert forall|i: int| 0 <= i < field.value.len() implies #[trigger] field.value[i] != 0x0a
            && field.value[i] != 0x0d by {
            if i < before.len() {
                assert(field.value[i] == before[i]);
            } else if i < before.len() + coding.len() {
                assert(field.value[i] == coding[i - before.len()]);
                assert(is_token_char(coding[i - before.len()]));
            } else {
                assert(field.value[i] == after[i - before.len() - coding.len()]);
            }
        }
    }
    lemma_one_coding(before, coding, after);
    lemma_spells_word(coding, octets("chunked"@));
    lemma_spells_word(coding, octets("identity"@));
}

/// The entity-body of a message that declares chunks, and holds a body that does not open with a
/// hexadecimal digit, is the body as it is stored.
pub proof fn lemma_stored_body(
    first: Seq<u8>,
    earlier: Seq<Field>,
    name: Seq<u8>,
    before: Seq<u8>,
    coding: Seq<u8>,
    after: Seq<u8>,
    later: Seq<Field>,
    body: Seq<u8>,
)
    requires
        is_one_line(first),
        are_other_fields(earlier, coding_name()),
        are_other_fields(later, coding_name()),
        is_token(name),
        spells_word(name, coding_name()),
        is_blank(before),
        spells_word(coding, octets("chunked"@)),
        is_blank(after),
        body.len() > 0 ==> !is_hex_digit(body[0]) && !is_white(body[0]),
    ensures
        ({
            let field = Field { name, value: before + coding + after };
            body_of(head_octets(first, earlier + seq![field] + later) + body) == Ok::<
                Seq<u8>,
                Fault,
            >(body)
        }),
{
    let field = Field { name, value: before + coding + after };
    lemma_chunked_field(field, before, coding, after);
    let head = head_octets(first, earlier + seq![field] + later);
    lemma_parts(first, earlier, field, later, body);
    assert((head + body).skip(head.len() as int) =~= body);
    lemma_position(body, 0x0a, 0);
    if opens_with_size(body) {
        let line = body.subrange(0, content_end(body, 0));
        lemma_position(line, 0x3b, 0);
        let text = line.take(position(line, 0x3b, 0));
        if text.len() > 0 {
            assert(text[0] == body[0]);
            lemma_leading_white_is(text, 0);
            assert(text.skip(0) =~= text);
            lemma_trailing_white(text);
            if trimmed(text).len() > 0 {
                assert(trimmed(text)[0] == body[0]);
            }
        } else {
            lemma_trimmed_same(text);
        }
        assert(declared_size(line) is None);
    }
}

/// The entity-body of a message without `Transfer-Encoding` is all that follows its header section.
pub proof fn lemma_plain_message(first: Seq<u8>, fields: Seq<Field>, body: Seq<u8>)
    requires
        is_one_line(first),
        are_other_fields(fields, coding_name()),
    ensures
        body_of(head_octets(first, fields) + body) == Ok::<Seq<u8>, Fault>(body),
{
    let head = head_octets(first, fields);
    lemma_plain_parts(first, fields, body);
    let none = Seq::<u8>::empty();
    assert(position(none, 0x2c, 0) == 0);
    assert(none.subrange(0, 0) =~= none);
    lemma_trimmed_same(none);
    assert(codings(none, 0) =~= Seq::empty());
    assert((head + body).skip(head.len() as int) =~= body);
}

/// A message whose one transfer-coding is `identity` is read as if it had none, and one with any
/// other coding than `chunked` is refused, by the name of the coding.
pub proof fn lemma_other_coding(
    first: Seq<u8>,
    earlier: Seq<Field>,
    name: Seq<u8>,
    before: Seq<u8>,
    coding: Seq<u8>,
    after: Seq<u8>,
    later: Seq<Field>,
    body: Seq<u8>,
)
    requires
        is_one_line(first),
        are_other_fields(earlier, coding_name()),
        are_other_fields(later, coding_name()),
        is_token(name),
        spells_word(name, coding_name()),
        is_blank(before),
        is_token(coding),
        !spells_word(coding, octets("chunked"@)),
        is_blank(after),
    ensures
        ({
            let field = Field { name, value: before + coding + after };
            body_of(head_octets(first, earlier + seq![field] + later) + body) == if spells_word(
                coding,
                octets("identity"@),
            ) {
                Ok::<Seq<u8>, Fault>(body)
            } else {
                Err(Fault::UnsupportedTransferCoding(lossy_text(coding)))
            }
        }),
{
    let field = Field { name, value: before + coding + after };
    lemma_names();
    assert(is_one_line(field.value)) by {
        assert forall|i: int| 0 <= i < field.value.len() implies #[trigger] field.value[i] != 0x0a
            && field.value[i] != 0x0d by {
            if i < before.len() {
                assert(field.value[i] == before[i]);
            } else if i < before.len() + coding.len() {
                assert(field.value[i] == coding[i - before.len()]);
                assert(is_token_char(coding[i - before.len()]));
            } else {
                assert(field.value[i] == after[i - before.len() - coding.len()]);
            }
        }
    }
    lemma_one_coding(before, coding, after);
    lemma_spells_word(coding, octets("chunked"@));
    lemma_spells_word(coding, octets("identity"@));
    let head = head_octets(first, earlier + seq![field] + later);
    lemma_parts(first, earlier, field, later, body);
    assert((head + body).skip(head.len() as int) =~= body);
}

/// A message whose header section is not closed by an empty line has no entity-body.
pub proof fn lemma_open_header_section(first: Seq<u8>, fields: Seq<Field>)
    requires
        is_one_line(first),
        are_other_fields(fields, coding_name()),
    ensures
        body_of(first + seq![0x0du8, 0x0a] + fields_octets(fields)) == Err::<Seq<u8>, Fault>(
            Fault::UnterminatedHeaders,
        ),
{
    let start = first + seq![0x0du8, 0x0a];
    let all = start + fields_octets(fields);
    let none = Seq::<u8>::empty();
    assert(all =~= none + first + seq![0x0du8, 0x0a] + fields_octets(fields));
    lemma_line(none, first, fields_octets(fields));
    assert(all =~= start + fields_octets(fields) + none);
    lemma_walk_others(start, fields, none, none, false);
    assert(line_break(all, all.len() as int) == all.len());
}

/// The fields behind `before` are walked over once a `Content-Type` is known, and those that are
/// none before it is.
proof fn lemma_walk_types(
    before: Seq<u8>,
    fields: Seq<Field>,
    after: Seq<u8>,
    value: Option<Seq<u8>>,
    folding: bool,
)
    requires
        are_fields(fields),
        value is None ==> are_other_fields(fields, type_field_name()),
    ensures
        ({
            let all = before + fields_octets(fields) + after;
            content_type_from(all, before.len() as int, value, folding) == content_type_from(
                all,
                (before + fields_octets(fields)).len() as int,
                value,
                if fields.len() == 0 {
                    folding
                } else {
                    false
                },
            )
        }),
    decreases fields.len(),
{
    let all = before + fields_octets(fields) + after;
    if fields.len() > 0 {
        let line = field_octets(fields[0]);
        let rest = fields.skip(1);
        assert(is_field(fields[0]));
        assert forall|i: int| 0 <= i < rest.len() implies is_field(#[trigger] rest[i]) by {
            assert(rest[i] == fields[i + 1]);
        }
        if value is None {
            assert forall|i: int| 0 <= i < rest.len() implies is_field(#[trigger] rest[i])
                && !spells_word(rest[i].name, type_field_name()) by {
                assert(rest[i] == fields[i + 1]);
            }
        }
        lemma_field(fields[0]);
        let behind = fields_octets(rest) + after;
        assert(all =~= before + line + seq![0x0du8, 0x0a] + behind);
        lemma_line(before, line, behind);
        let walked = before + line + seq![0x0du8, 0x0a];
        assert(all =~= walked + fields_octets(rest) + after);
        assert(before + fields_octets(fields) =~= walked + fields_octets(rest));
        lemma_walk_types(walked, rest, after, value, false);
    }
}

/// From a `Content-Type` field behind `before` on, its value is taken.
proof fn lemma_walk_type(before: Seq<u8>, field: Field, after: Seq<u8>)
    requires
        is_field(field),
        spells_word(field.name, type_field_name()),
    ensures
        ({
            let line = field_octets(field) + seq![0x0du8, 0x0a];
            content_type_from(before + line + after, before.len() as int, None, false)
                == content_type_from(
                before + line + after,
                (before + line).len() as int,
                Some(trimmed(field.value)),
                true,
            )
        }),
{
    let line = field_octets(field);
    let all = before + (line + seq![0x0du8, 0x0a]) + after;
    assert(all =~= before + line + seq![0x0du8, 0x0a] + after);
    lemma_field(field);
    lemma_line(before, line, after);
}

/// The first `Content-Type` field of a message is the one that declares its media type, whatever
/// fields stand before it and behind it.
#[verifier::spinoff_prover]
pub proof fn lemma_first_type_is_declared(
    first: Seq<u8>,
    earlier: Seq<Field>,
    name: Seq<u8>,
    before: Seq<u8>,
    media: Media,
    after: Seq<u8>,
    later: Seq<Field>,
    body: Seq<u8>,
)
    requires
        is_one_line(first),
        are_other_fields(earlier, type_field_name()),
        are_fields(later),
        is_token(name),
        spells_word(name, type_field_name()),
        is_blank(before),
        is_spellable(media),
        is_blank(after),
    ensures
        ({
            let field = Field { name, value: before + media_octets(media) + after };
            declared_type(head_octets(first, earlier + seq![field] + later) + body) == Some(media)
        }),
{
    let field = Field { name, value: before + media_octets(media) + after };
    lemma_type_field(field, before, media, after);
    lemma_type_value(first, earlier, field, later, body);
    lemma_media_type_reads_back(media);
}

/// The rest of a header section is walked over up to the empty line once a `Content-Type` is known.
proof fn lemma_walk_types_to_body(
    before: Seq<u8>,
    fields: Seq<Field>,
    body: Seq<u8>,
    value: Seq<u8>,
    folding: bool,
)
    requires
        are_fields(fields),
    ensures
        content_type_from(
            before + message_tail(fields, body),
            before.len() as int,
            Some(value),
            folding,
        ) == Some(value),
{
    let none = Seq::<u8>::empty();
    let all = before + message_tail(fields, body);
    assert(all =~= before + fields_octets(fields) + (seq![0x0du8, 0x0a] + body));
    lemma_walk_types(before, fields, seq![0x0du8, 0x0a] + body, Some(value), folding);
    let last = before + fields_octets(fields);
    assert(all =~= last + none + seq![0x0du8, 0x0a] + body);
    lemma_line(last, none, body);
}

/// The value of the first `Content-Type` field is taken.
#[verifier::spinoff_prover]
proof fn lemma_type_value(
    first: Seq<u8>,
    earlier: Seq<Field>,
    field: Field,
    later: Seq<Field>,
    body: Seq<u8>,
)
    requires
        is_one_line(first),
        are_other_fields(earlier, type_field_name()),
        are_fields(later),
        is_field(field),
        spells_word(field.name, type_field_name()),
    ensures
        ({
            let all = head_octets(first, earlier + seq![field] + later) + body;
            &&& line_break(all, 0) + 1 <= all.len()
            &&& content_type_from(all, line_break(all, 0) + 1, None, false) == Some(
                trimmed(field.value),
            )
        }),
{
    let all = head_octets(first, earlier + seq![field] + later) + body;
    let none = Seq::<u8>::empty();
    let line = field_octets(field) + seq![0x0du8, 0x0a];
    let start = first + seq![0x0du8, 0x0a];
    let here = start + fields_octets(earlier);
    let tail = message_tail(later, body);
    lemma_head_splits(first, earlier, field, later, body);
    assert(line_break(all, 0) + 1 == start.len()) by {
        let rest = fields_octets(earlier) + (line + tail);
        assert(all =~= none + first + seq![0x0du8, 0x0a] + rest);
        lemma_line(none, first, rest);
    }
    lemma_walk_types(start, earlier, line + tail, None, false);
    lemma_walk_type(here, field, tail);
    lemma_walk_types_to_body(here + line, later, body, trimmed(field.value), true);
}

/// The octets of a message split at one of its fields.
proof fn lemma_head_splits(
    first: Seq<u8>,
    earlier: Seq<Field>,
    field: Field,
    later: Seq<Field>,
    body: Seq<u8>,
)
    ensures
        ({
            let head = head_octets(first, earlier + seq![field] + later);
            let line = field_octets(field) + seq![0x0du8, 0x0a];
            let start = first + seq![0x0du8, 0x0a];
            let here = start + fields_octets(earlier);
            let tail = message_tail(later, body);
            &&& head + body == start + fields_octets(earlier) + (line + tail)
            &&& head + body == here + line + tail
            &&& head.len() == (here + line + fields_octets(later)).len() + 2
        }),
{
    let fields = earlier + seq![field] + later;
    let head = head_octets(first, fields);
    let all = head + body;
    let line = field_octets(field) + seq![0x0du8, 0x0a];
    let start = first + seq![0x0du8, 0x0a];
    let here = start + fields_octets(earlier);
    let tail = message_tail(later, body);
    assert(fields_octets(fields) == fields_octets(earlier) + line + fields_octets(later)) by {
        lemma_fields_join(earlier, seq![field] + later);
        assert(earlier + (seq![field] + later) =~= fields);
        assert((seq![field] + later).skip(1) =~= later);
        assert(fields_octets(earlier) + (line + fields_octets(later)) =~= fields_octets(earlier)
            + line + fields_octets(later));
    }
    assert(all =~= start + fields_octets(earlier) + (line + tail));
    assert(all =~= here + line + tail);
}

proof fn lemma_type_field(field: Field, before: Seq<u8>, media: Media, after: Seq<u8>)
    requires
        field.value == before + media_octets(media) + after,
        is_token(field.name),
        is_blank(before),
        is_spellable(media),
        is_blank(after),
    ensures
        is_field(field),
        trimmed(field.value) == media_octets(media),
{
    let spelled = media_octets(media);
    lemma_media_octets_are_text(media);
    lemma_media_octets_are_trim(media);
    assert forall|i: int| 0 <= i < field.value.len() implies #[trigger] field.value[i] != 0x0a
        && field.value[i] != 0x0d by {
        if i < before.len() {
            assert(field.value[i] == before[i]);
        } else if i < before.len() + spelled.len() {
            assert(field.value[i] == spelled[i - before.len()]);
            assert(is_text_char(spelled[i - before.len()]));
        } else {
            assert(field.value[i] == after[i - before.len() - spelled.len()]);
        }
    }
    assert forall|i: int| 0 <= i < before.len() implies is_white(#[trigger] before[i]) by {}
    assert forall|i: int| 0 <= i < after.len() implies is_white(#[trigger] after[i]) by {}
    assert(is_token_char(octets(media.main_type)[0]));
    assert(spelled.len() > 0);
    lemma_trimmed_between(before, spelled, after);
}

/// A message without `Content-Type` declares no media type.
pub proof fn lemma_no_type_is_declared(first: Seq<u8>, fields: Seq<Field>, body: Seq<u8>)
    requires
        is_one_line(first),
        are_other_fields(fields, type_field_name()),
    ensures
        declared_type(head_octets(first, fields) + body) is None,
{
    let all = head_octets(first, fields) + body;
    let none = Seq::<u8>::empty();
    let start = first + seq![0x0du8, 0x0a];
    assert(all =~= none + first + seq![0x0du8, 0x0a] + (fields_octets(fields) + (seq![0x0du8, 0x0a]
        + body)));
    lemma_line(none, first, fields_octets(fields) + (seq![0x0du8, 0x0a] + body));
    assert(all =~= start + fields_octets(fields) + (seq![0x0du8, 0x0a] + body));
    lemma_walk_types(start, fields, seq![0x0du8, 0x0a] + body, None, false);
    let last = start + fields_octets(fields);
    assert(all =~= last + none + seq![0x0du8, 0x0a] + body);
    lemma_line(last, none, body);
}

/// A message whose first `Content-Type` names JSON, with parameters or without, and whose
/// entity-body is JSON, is identified as `application/json`; under another type it is identified by
/// its octets alone.
pub proof fn lemma_message_is_identified(
    first: Seq<u8>,
    earlier: Seq<Field>,
    name: Seq<u8>,
    before: Seq<u8>,
    media: Media,
    after: Seq<u8>,
    later: Seq<Field>,
    stored: Seq<u8>,
    body: Seq<u8>,
)
    requires
        is_one_line(first),
        are_other_fields(earlier, type_field_name()),
        are_fields(later),
        is_token(name),
        spells_word(name, type_field_name()),
        is_blank(before),
        is_spellable(media),
        is_blank(after),
        ({
            let field = Field { name, value: before + media_octets(media) + after };
            body_of(head_octets(first, earlier + seq![field] + later) + stored) == Ok::<
                Seq<u8>,
                Fault,
            >(body)
        }),
    ensures
        ({
            let field = Field { name, value: before + media_octets(media) + after };
            let message = head_octets(first, earlier + seq![field] + later) + stored;
            &&& body.len() > 0 && is_json(body) && is_json_subtype(media.subtype)
                ==> http_identified(message) == Some(
                (Media { main_type: "application"@, subtype: "json"@, parameters: Seq::empty() }),
            )
            &&& !is_json_subtype(media.subtype) || !is_json(body) ==> http_identified(message)
                == identified(body, None, false, signature(body))
            &&& body.len() == 0 ==> http_identified(message) is None
        }),
{
    lemma_first_type_is_declared(first, earlier, name, before, media, after, later, stored);
    lemma_identified(body, media, media, is_json(body), signature(body));
}

/// The fields that are read of fields: each under its name, with its value without the white space
/// around it.
pub open spec fn read_fields(fields: Seq<Field>) -> Seq<HeaderLine> {
    Seq::new(fields.len(), |i: int| (ascii_text(fields[i].name), trimmed(fields[i].value)))
}

/// The fields behind `before` are read in their order.
proof fn lemma_with_fields(before: Seq<u8>, fields: Seq<Field>, read: Seq<HeaderLine>)
    requires
        are_fields(fields),
    ensures
        with_fields(read, before + fields_octets(fields), before.len() as int) == Some(
            read + read_fields(fields),
        ),
    decreases fields.len(),
{
    let section = before + fields_octets(fields);
    let at = before.len() as int;
    if fields.len() == 0 {
        assert(section =~= before);
        assert(position(section, 0x0a, at) == section.len());
        assert(section.subrange(at, at).len() == 0);
        assert(read + read_fields(fields) =~= read);
    } else {
        let field = fields[0];
        let rest = fields.skip(1);
        let line = field_octets(field);
        assert(is_field(field));
        assert forall|i: int| 0 <= i < rest.len() implies is_field(#[trigger] rest[i]) by {
            assert(rest[i] == fields[i + 1]);
        }
        lemma_field(field);
        assert(section =~= before + line + seq![0x0du8, 0x0a] + fields_octets(rest));
        lemma_line(before, line, fields_octets(rest));
        let end = at + line.len() + 1;
        let whole = section.subrange(at, end);
        assert(whole =~= line.push(0x0d));
        assert(whole.drop_last() =~= line);
        assert(!is_white(line[0])) by {
            assert(is_token_char(field.name[0]));
            assert(line[0] == field.name[0]);
        }
        assert(position(line, 0x3a, 0) == field.name.len());
        assert(valid_utf8(field.name) && decode_utf8(field.name) == ascii_text(field.name)) by {
            assert forall|i: int| 0 <= i < field.name.len() implies #[trigger] field.name[i]
                < 0x80 by {
                assert(is_token_char(field.name[i]));
            }
            lemma_ascii_text(field.name);
            encode_utf8_valid_utf8(ascii_text(field.name));
            encode_utf8_decode_utf8(ascii_text(field.name));
        }
        let walked = before + line + seq![0x0du8, 0x0a];
        assert(section =~= walked + fields_octets(rest));
        let more = read.push((ascii_text(field.name), trimmed(field.value)));
        assert(with_field(read, line) == Some(more));
        lemma_with_fields(walked, rest, more);
        assert(more + read_fields(rest) =~= read + read_fields(fields));
    }
}

/// The lines of a header section, without what ends them.
spec fn head_lines(first: Seq<u8>, fields: Seq<Field>) -> Seq<Seq<u8>> {
    seq![first] + Seq::new(fields.len(), |i: int| field_octets(fields[i]))
}

proof fn lemma_head_lines(fields: Seq<Field>)
    ensures
        lines_octets(Seq::new(fields.len(), |i: int| field_octets(fields[i]))) == fields_octets(
            fields,
        ),
    decreases fields.len(),
{
    let lines = Seq::new(fields.len(), |i: int| field_octets(fields[i]));
    if fields.len() > 0 {
        let rest = fields.skip(1);
        lemma_head_lines(rest);
        assert(lines.skip(1) =~= Seq::new(rest.len(), |i: int| field_octets(rest[i])));
    } else {
        assert(lines_octets(lines) =~= fields_octets(fields));
    }
}

/// The header fields of a response are read in their order, each under its name and without the
/// white space around its value, and its body begins behind the empty line.
pub proof fn lemma_response_is_read(first: Seq<u8>, fields: Seq<Field>, body: Seq<u8>)
    requires
        is_one_line(first),
        first.len() > 0,
        are_fields(fields),
    ensures
        header_end(head_octets(first, fields) + body, 0) == Some(
            head_octets(first, fields).len() as int,
        ),
        response_fields(head_octets(first, fields) + body) == Some(read_fields(fields)),
{
    let head = head_octets(first, fields);
    let all = head + body;
    let none = Seq::<u8>::empty();
    let lines = head_lines(first, fields);
    let each = Seq::new(fields.len(), |i: int| field_octets(fields[i]));
    assert forall|i: int| 0 <= i < lines.len() implies (#[trigger] lines[i]).len() > 0
        && is_one_line(lines[i]) by {
        if i > 0 {
            assert(lines[i] == field_octets(fields[i - 1]));
            assert(is_field(fields[i - 1]));
            lemma_field(fields[i - 1]);
        }
    }
    lemma_head_lines(fields);
    assert(lines.skip(1) =~= each);
    assert(lines_octets(lines) =~= first + seq![0x0du8, 0x0a] + fields_octets(fields));
    assert(all =~= none + lines_octets(lines) + seq![0x0du8, 0x0a] + body);
    lemma_section_ends(none, lines, body);
    assert(none + lines_octets(lines) =~= lines_octets(lines));
    let n = first.len() as int;
    assert forall|i: int| 0 <= i < n implies !(#[trigger] all[i] == 0x0d && all[i + 1] == 0x0a) by {
        assert(all[i] == first[i]);
    }
    assert(all[n] == 0x0d && all[n + 1] == 0x0a);
    lemma_crlf_position_is(all, 0, n);
    assert(all.subrange(n + 2, head.len() - 2) =~= none + fields_octets(fields));
    lemma_with_fields(none, fields, Seq::empty());
    assert(Seq::<HeaderLine>::empty() + read_fields(fields) =~= read_fields(fields));
}

/// A header field of a response is found under its name, whatever its case: the first of the name
/// is, and none where no field has the name.
pub proof fn lemma_first_field_is_found(
    before: Seq<HeaderLine>,
    field: HeaderLine,
    after: Seq<HeaderLine>,
    name: Seq<char>,
)
    requires
        forall|i: int|
            0 <= i < before.len() ==> !same_but_for_case(
                octets((#[trigger] before[i]).0),
                octets(name),
            ),
    ensures
        field_value(before, name, 0) is None,
        same_but_for_case(octets(field.0), octets(name)) ==> field_value(
            before + seq![field] + after,
            name,
            0,
        ) == Some(field.1),
{
    lemma_value_past(before, Seq::empty(), name, 0);
    assert(before + Seq::<HeaderLine>::empty() =~= before);
    let all = before + seq![field] + after;
    assert(all =~= before + (seq![field] + after));
    lemma_value_past(before, seq![field] + after, name, 0);
    assert(all[before.len() as int] == field);
}

proof fn lemma_value_past(
    before: Seq<HeaderLine>,
    after: Seq<HeaderLine>,
    name: Seq<char>,
    i: int,
)
    requires
        0 <= i <= before.len(),
        forall|i: int|
            0 <= i < before.len() ==> !same_but_for_case(
                octets((#[trigger] before[i]).0),
                octets(name),
            ),
    ensures
        field_value(before + after, name, i) == field_value(
            before + after,
            name,
            before.len() as int,
        ),
    decreases before.len() - i,
{
    if i < before.len() {
        assert((before + after)[i] == before[i]);
        assert(!same_but_for_case(octets(before[i].0), octets(name)));
        lemma_value_past(before, after, name, i + 1);
    }
}

} // verus!
