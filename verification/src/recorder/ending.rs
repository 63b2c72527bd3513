//! Where a response ends, and why it is cut short, by what was sent.

use crate::chunked::{
    are_chunks, chunked_octets, chunks_octets, is_chunk, is_chunked_body, is_no_size,
    lemma_chunk_is_ended, lemma_scan_finds_the_end, lemma_wrong_size_is_found, lines_octets,
    size_line, Chunk, ChunkedBody,
};
use crate::octets::{
    crlf_position, decimal_value, is_decimal, is_digit, lemma_ascii_octets_of,
    lemma_crlf_position_is, lemma_octets_concat, lemma_octets_injective, lemma_position,
    lemma_position_is, lossy_text, octets, position,
};
use crate::record::extension::Never;
use crate::record::header::truncated_type::TruncatedType;
use crate::record::http::is_one_line;
use crate::recorder::chunks::{lemma_scan_bounds, lemma_scan_resumes, scan, ChunkStage, Scan};
use crate::recorder::declared::{
    all_agree, all_numbers, are_header_fields, field_text, field_texts, is_header_field,
    lemma_declared_framing, lines_text, section_text, spells_name, HeaderField,
};
use crate::recorder::framing::{response_framing, status_of, BodyFraming, ResponseFault};
use crate::recorder::response::{
    all_data, header_end, lemma_header_end, lemma_status_stays, replayed, with_body, with_header,
    BodyState, Progress, ReadEvent,
};
use vstd::prelude::*;
use vstd::utf8::*;

verus! {

/// The three digits of a status code.
pub open spec fn status_digits(status: u16) -> Seq<u8> {
    seq![
        (0x30 + status / 100) as u8,
        (0x30 + status / 10 % 10) as u8,
        (0x30 + status % 10) as u8,
    ]
}

/// A status line: the name of the protocol and a version, a space, the status code, and nothing or
/// a space and more behind it.
pub open spec fn is_status_line(first: Seq<char>, status: u16) -> bool {
    exists|version: Seq<u8>, tail: Seq<u8>| #[trigger] is_status_line_of(first, version, status, tail)
}

/// A status line with a version, and with what stands behind the status code.
pub open spec fn is_status_line_of(
    first: Seq<char>,
    version: Seq<u8>,
    status: u16,
    tail: Seq<u8>,
) -> bool {
    &&& status <= 999
    &&& octets(first) == seq![0x48u8, 0x54, 0x54, 0x50, 0x2f] + version + seq![0x20u8]
        + status_digits(status) + tail
    &&& is_one_line(octets(first))
    &&& forall|i: int| 0 <= i < version.len() ==> #[trigger] version[i] != 0x20
    &&& tail.len() > 0 ==> tail[0] == 0x20
}

/// The octets of a header section.
pub open spec fn section_octets(first: Seq<char>, fields: Seq<HeaderField>) -> Seq<u8> {
    octets(section_text(first, fields))
}

/// Whether a header section is well-formed, with a status, and is no longer than the recorder
/// accepts.
pub open spec fn is_section(first: Seq<char>, status: u16, fields: Seq<HeaderField>) -> bool {
    &&& is_status_line(first, status)
    &&& are_header_fields(fields)
    &&& section_octets(first, fields).len() <= 65536
}

/// Whether reads all gave octets.
pub open spec fn are_data(events: Seq<ReadEvent>) -> bool {
    forall|i: int| 0 <= i < events.len() ==> #[trigger] events[i] is Data
}

/// Texts as octets.
spec fn octet_lines(all: Seq<Seq<char>>) -> Seq<Seq<u8>> {
    Seq::new(all.len(), |i: int| octets(all[i]))
}

proof fn lemma_break_octets()
    ensures
        octets(seq!['\r', '\n']) == seq![0x0du8, 0x0a],
{
    let text = seq!['\r', '\n'];
    assert(is_ascii_chars(text));
    lemma_ascii_octets_of(text);
    assert(octets(text) =~= seq![0x0du8, 0x0a]);
}

/// The octets of lines are those of each.
proof fn lemma_lines_octets(all: Seq<Seq<char>>)
    ensures
        octets(lines_text(all)) == lines_octets(octet_lines(all)),
    decreases all.len(),
{
    if all.len() == 0 {
        assert(is_ascii_chars(Seq::<char>::empty()));
        lemma_ascii_octets_of(Seq::<char>::empty());
        assert(octets(lines_text(all)) =~= Seq::empty());
    } else {
        let rest = all.skip(1);
        lemma_lines_octets(rest);
        assert(octet_lines(all).skip(1) =~= octet_lines(rest));
        lemma_break_octets();
        lemma_octets_concat(all[0], seq!['\r', '\n']);
        lemma_octets_concat(all[0] + seq!['\r', '\n'], lines_text(rest));
    }
}

/// No empty line ends before a position that none starts before.
proof fn lemma_header_end_skips(s: Seq<u8>, from: int, to: int)
    requires
        0 <= from <= to,
        to + 4 <= s.len(),
        forall|i: int|
            from <= i < to ==> !(#[trigger] s[i] == 0x0d && s[i + 1] == 0x0a && s[i + 2] == 0x0d
                && s[i + 3] == 0x0a),
    ensures
        header_end(s, from) == header_end(s, to),
    decreases to - from,
{
    if from < to {
        assert(!(s[from] == 0x0d && s[from + 1] == 0x0a && s[from + 2] == 0x0d && s[from + 3]
            == 0x0a));
        lemma_header_end_skips(s, from + 1, to);
    }
}

/// A header section ends behind the empty line that follows its lines.
pub(crate) proof fn lemma_section_ends(before: Seq<u8>, lines: Seq<Seq<u8>>, after: Seq<u8>)
    requires
        lines.len() > 0,
        forall|i: int|
            0 <= i < lines.len() ==> (#[trigger] lines[i]).len() > 0 && is_one_line(lines[i]),
    ensures
        header_end(
            before + lines_octets(lines) + seq![0x0du8, 0x0a] + after,
            before.len() as int,
        ) == Some((before + lines_octets(lines)).len() + 2int),
    decreases lines.len(),
{
    let s = before + lines_octets(lines) + seq![0x0du8, 0x0a] + after;
    let at = before.len() as int;
    let line = lines[0];
    let rest = lines.skip(1);
    let end = at + line.len();
    let walked = before + line + seq![0x0du8, 0x0a];
    assert(line.len() > 0 && is_one_line(line));
    assert(s =~= walked + lines_octets(rest) + seq![0x0du8, 0x0a] + after);
    assert forall|i: int| at <= i < end implies #[trigger] s[i] != 0x0d by {
        assert(s[i] == line[i - at]);
    }
    assert(s[end] == 0x0d && s[end + 1] == 0x0a);
    if rest.len() == 0 {
        assert(lines_octets(rest) =~= Seq::empty());
        assert(s[end + 2] == 0x0d && s[end + 3] == 0x0a);
        lemma_header_end_skips(s, at, end);
    } else {
        assert forall|i: int| 0 <= i < rest.len() implies (#[trigger] rest[i]).len() > 0
            && is_one_line(rest[i]) by {
            assert(rest[i] == lines[i + 1]);
        }
        assert(rest[0].len() > 0 && is_one_line(rest[0]));
        assert(rest[0][0] != 0x0d);
        assert(lines_octets(rest)[0] == rest[0][0]);
        assert(s[end + 2] == rest[0][0]);
        lemma_header_end_skips(s, at, end + 2);
        lemma_section_ends(walked, rest, after);
    }
}

/// The status of a response is the one in its status line.
pub(crate) proof fn lemma_status(
    first: Seq<char>,
    version: Seq<u8>,
    status: u16,
    tail: Seq<u8>,
    after: Seq<u8>,
)
    requires
        is_status_line_of(first, version, status, tail),
    ensures
        status_of(octets(first) + seq![0x0du8, 0x0a] + after) == Some(status),
        first.len() > 0,
        first[0] != ' ',
        first[0] != '\t',
{
    let line = octets(first);
    let s = line + seq![0x0du8, 0x0a] + after;
    let end = line.len() as int;
    let protocol = seq![0x48u8, 0x54, 0x54, 0x50, 0x2f];
    assert forall|i: int| 0 <= i < end implies !(#[trigger] s[i] == 0x0d && s[i + 1] == 0x0a) by {
        assert(s[i] == line[i]);
    }
    assert(s[end] == 0x0d && s[end + 1] == 0x0a);
    lemma_crlf_position_is(s, 0, end);
    assert(s.take(end) =~= line);
    let space = 5 + version.len() as int;
    assert(line[space] == 0x20);
    assert forall|i: int| 0 <= i < space implies #[trigger] line[i] != 0x20 by {
        if i >= 5 {
            assert(line[i] == version[i - 5]);
        } else {
            assert(line[i] == protocol[i]);
        }
    }
    lemma_position_is(line, 0x20, 0, space);
    let code = status_digits(status);
    assert(line.len() == space + 4 + tail.len());
    assert(line[space + 1] == code[0] && line[space + 2] == code[1] && line[space + 3] == code[2]);
    if tail.len() > 0 {
        assert(line[space + 4] == tail[0]);
    }
    assert forall|i: int| space + 1 <= i < space + 4 implies #[trigger] line[i] != 0x20 by {
        assert(line[i] == code[i - space - 1]);
    }
    lemma_position_is(line, 0x20, space + 1, space + 4);
    assert(line.subrange(space + 1, space + 4) =~= code);
    reveal_strlit("HTTP/");
    lemma_ascii_octets_of("HTTP/"@);
    assert(octets("HTTP/"@) =~= protocol);
    assert(line.take(space) =~= protocol + version);
    assert(protocol.is_prefix_of(protocol + version));
    assert(is_decimal(code)) by {
        assert forall|i: int| 0 <= i < code.len() implies is_digit(#[trigger] code[i]) by {}
    }
    reveal_with_fuel(decimal_value, 4);
    assert(code.drop_last() =~= seq![code[0], code[1]]);
    assert(seq![code[0], code[1]].drop_last() =~= seq![code[0]]);
    assert(seq![code[0]].drop_last() =~= Seq::empty());
    assert(decimal_value(code) == status);
    lemma_first_char(first);
}

/// A text whose octets open with a letter opens with no blank.
proof fn lemma_first_char(first: Seq<char>)
    requires
        octets(first).len() > 0,
        octets(first)[0] == 0x48,
    ensures
        first.len() > 0,
        first[0] != ' ',
        first[0] != '\t',
{
    if first.len() == 0 {
        assert(first =~= Seq::<char>::empty());
        assert(is_ascii_chars(Seq::<char>::empty()));
        lemma_ascii_octets_of(Seq::<char>::empty());
    } else if first[0] == ' ' || first[0] == '\t' {
        let c = seq![first[0]];
        assert(first =~= c + first.skip(1));
        lemma_octets_concat(c, first.skip(1));
        assert(is_ascii_chars(c));
        lemma_ascii_octets_of(c);
        assert(octets(first)[0] == octets(c)[0]);
    }
}

/// A header section is found whole, with its status and its text.
proof fn lemma_section(first: Seq<char>, status: u16, fields: Seq<HeaderField>, after: Seq<u8>)
    requires
        is_status_line(first, status),
        are_header_fields(fields),
    ensures
        ({
            let head = section_octets(first, fields);
            &&& header_end(head + after, 0) == Some(head.len() as int)
            &&& status_of(head + after) == Some(status)
            &&& lossy_text(head) == section_text(first, fields)
            &&& head.len() > 0
        }),
        first.len() > 0,
        first[0] != ' ',
        first[0] != '\t',
        is_one_line(octets(first)),
{
    let head = section_octets(first, fields);
    let all = seq![first] + field_texts(fields);
    let lines = octet_lines(all);
    let none = Seq::<u8>::empty();
    let (version, tail) = choose|version: Seq<u8>, tail: Seq<u8>|
        #[trigger] is_status_line_of(first, version, status, tail);
    lemma_lines_octets(all);
    lemma_break_octets();
    lemma_octets_concat(lines_text(all), seq!['\r', '\n']);
    assert(head == lines_octets(lines) + seq![0x0du8, 0x0a]);
    assert forall|i: int| 0 <= i < lines.len() implies (#[trigger] lines[i]).len() > 0
        && is_one_line(lines[i]) by {
        if i == 0 {
            assert(lines[i] == octets(first));
        } else {
            let field = fields[i - 1];
            assert(is_header_field(field));
            assert(lines[i] == octets(field_text(field)));
            let text = field_text(field);
            if octets(text).len() == 0 {
                assert(is_ascii_chars(Seq::<char>::empty()));
                lemma_ascii_octets_of(Seq::<char>::empty());
                assert(octets(text) =~= octets(Seq::<char>::empty()));
                lemma_octets_injective(text, Seq::<char>::empty());
                assert(text.len() > 0);
            }
        }
    }
    assert(head + after =~= none + lines_octets(lines) + seq![0x0du8, 0x0a] + after);
    lemma_section_ends(none, lines, after);
    assert(none + lines_octets(lines) =~= lines_octets(lines));
    let rest = lines_octets(lines.skip(1)) + seq![0x0du8, 0x0a] + after;
    assert(lines[0] == octets(first));
    assert(head + after =~= octets(first) + seq![0x0du8, 0x0a] + rest);
    lemma_status(first, version, status, tail, rest);
    encode_utf8_valid_utf8(section_text(first, fields));
    encode_utf8_decode_utf8(section_text(first, fields));
}

/// What is made of a final response and of what stands behind its header section.
proof fn lemma_final(
    first: Seq<char>,
    status: u16,
    fields: Seq<HeaderField>,
    at: int,
    body: Seq<u8>,
    head_request: bool,
)
    requires
        is_section(first, status, fields),
        !(100 <= status < 200),
        -1 <= at < fields.len(),
        at >= 0 ==> fields[at] is Coding,
        forall|i: int| at < i < fields.len() ==> !(#[trigger] fields[i] is Coding),
    ensures
        ({
            let head = section_octets(first, fields);
            let numbers = all_numbers(fields);
            let state = |framing: BodyFraming|
                BodyState {
                    header_end: head.len() as int,
                    framing,
                    offset: head.len() as int,
                    stage: ChunkStage::Size,
                };
            with_header(head + body, head_request, None) == if head_request || status == 204
                || status == 304 {
                Progress::Finished(head, None)
            } else if !all_agree(numbers) {
                Progress::Failed(ResponseFault::ConflictingContentLength)
            } else if at >= 0 && spells_name(fields[at]->Coding_1.last().word, "chunked"@) {
                with_body(head + body, state(BodyFraming::Chunked), None)
            } else if at < 0 && numbers.len() > 0 {
                with_body(head + body, state(BodyFraming::Length(numbers[0].value as u64)), None)
            } else {
                with_body(head + body, state(BodyFraming::Close), None)
            }
        }),
{
    let head = section_octets(first, fields);
    lemma_section(first, status, fields, body);
    lemma_declared_framing(first, fields, at);
    assert((head + body).take(head.len() as int) =~= head);
}

/// More octets move a response on from where it stands, as if they had come with those before.
proof fn lemma_body_goes_on(buffer: Seq<u8>, state: BodyState, more: Seq<u8>)
    requires
        0 <= state.header_end <= buffer.len(),
        0 <= state.offset <= buffer.len(),
    ensures
        match with_body(buffer, state, None) {
            Progress::Reading(held, known) => {
                &&& held == buffer
                &&& known matches Some(next)
                &&& with_body(buffer + more, next, None) == with_body(buffer + more, state, None)
                &&& next.header_end == state.header_end
                &&& 0 <= next.offset <= buffer.len()
                &&& with_body(buffer, next, None) == with_body(buffer, state, None)
            },
            stopped => with_body(buffer + more, state, None) == stopped,
        },
{
    let all = buffer + more;
    lemma_scan_bounds(buffer, state.offset, state.stage);
    lemma_scan_resumes(buffer, more, state.offset, state.stage);
    lemma_scan_resumes(buffer, Seq::empty(), state.offset, state.stage);
    assert(buffer + Seq::empty() =~= buffer);
    assert(all.take(state.header_end) =~= buffer.take(state.header_end));
    match state.framing {
        BodyFraming::Length(length) => {
            if buffer.len() - state.header_end >= length {
                let end = state.header_end + length;
                assert(all.take(end) =~= buffer.take(end));
            }
        },
        BodyFraming::Chunked => {
            match scan(buffer, state.offset, state.stage) {
                Scan::Complete(end) => {
                    assert(all.take(end) =~= buffer.take(end));
                },
                _ => {},
            }
        },
        _ => {},
    }
}

/// An empty line that more octets complete ends within them.
proof fn lemma_late_end(s: Seq<u8>, more: Seq<u8>, from: int)
    requires
        0 <= from,
        header_end(s, from) is None,
    ensures
        header_end(s + more, from) matches Some(end) ==> end > s.len(),
    decreases (s + more).len() - from,
{
    let all = s + more;
    if from + 4 <= all.len() {
        if from + 4 <= s.len() {
            assert(all[from] == s[from] && all[from + 1] == s[from + 1] && all[from + 2] == s[from
                + 2] && all[from + 3] == s[from + 3]);
        }
        lemma_late_end(s, more, from + 1);
    }
}

/// Whether what is known of a response fits the octets held.
spec fn is_sound(buffer: Seq<u8>, body: Option<BodyState>) -> bool {
    body matches Some(state) ==> 0 <= state.header_end <= buffer.len() && 0 <= state.offset
        <= buffer.len() && with_body(buffer, state, None) == Progress::Reading(buffer, body)
}

proof fn lemma_goes_on(s: Seq<u8>, more: Seq<u8>, head_request: bool)
    ensures
        match with_header(s, head_request, None) {
            Progress::Reading(buffer, None) => with_header(buffer + more, head_request, None)
                == with_header(s + more, head_request, None),
            Progress::Reading(buffer, Some(state)) => {
                &&& with_body(buffer + more, state, None) == with_header(
                    s + more,
                    head_request,
                    None,
                )
                &&& is_sound(buffer, Some(state))
            },
            stopped => with_header(s + more, head_request, None) == stopped,
        },
    decreases s.len(),
{
    lemma_header_end(s, 0);
    match header_end(s, 0) {
        None => {
            lemma_late_end(s, more, 0);
        },
        Some(end) => {
            lemma_status_stays(s, more);
            assert((s + more).take(end) =~= s.take(end));
            assert((s + more).skip(end) =~= s.skip(end) + more);
            match status_of(s) {
                None => {},
                Some(status) => {
                    if 100 <= status < 200 {
                        lemma_goes_on(s.skip(end), more, head_request);
                    } else {
                        match response_framing(s.take(end), head_request, status) {
                            Err(_) => {},
                            Ok(framing) => {
                                let state = BodyState {
                                    header_end: end,
                                    framing,
                                    offset: end,
                                    stage: ChunkStage::Size,
                                };
                                lemma_body_goes_on(s, state, more);
                            },
                        }
                    }
                },
            }
        },
    }
}

/// How the octets of a response are split among reads does not matter: whatever the pieces, the
/// reading comes as far as with all of them at once.
pub proof fn lemma_pieces_do_not_matter(events: Seq<ReadEvent>, head_request: bool)
    requires
        are_data(events),
    ensures
        replayed(events, head_request, None) == with_header(all_data(events), head_request, None),
    decreases events.len(),
{
    if events.len() > 0 {
        let earlier = events.drop_last();
        assert forall|i: int| 0 <= i < earlier.len() implies #[trigger] earlier[i] is Data by {
            assert(earlier[i] == events[i]);
        }
        lemma_pieces_do_not_matter(earlier, head_request);
        assert(events[events.len() - 1] is Data);
        match events.last() {
            ReadEvent::Data(data) => {
                lemma_goes_on(all_data(earlier), data@, head_request);
            },
            _ => {},
        }
    }
}

/// Two readings of the same octets, in whichever pieces, come equally far.
pub proof fn lemma_same_octets_read_the_same(
    events: Seq<ReadEvent>,
    others: Seq<ReadEvent>,
    head_request: bool,
)
    requires
        are_data(events),
        are_data(others),
        all_data(events) == all_data(others),
    ensures
        replayed(events, head_request, None) == replayed(others, head_request, None),
{
    lemma_pieces_do_not_matter(events, head_request);
    lemma_pieces_do_not_matter(others, head_request);
}

/// Interim responses are left out: a reading of one, and of what stands behind it, comes as far as
/// a reading of what stands behind it alone.
pub proof fn lemma_interim_is_left_out(
    first: Seq<char>,
    status: u16,
    fields: Seq<HeaderField>,
    events: Seq<ReadEvent>,
    others: Seq<ReadEvent>,
    head_request: bool,
)
    requires
        is_section(first, status, fields),
        100 <= status < 200,
        are_data(events),
        are_data(others),
        all_data(events) == section_octets(first, fields) + all_data(others),
    ensures
        replayed(events, head_request, None) == replayed(others, head_request, None),
{
    let head = section_octets(first, fields);
    let rest = all_data(others);
    lemma_pieces_do_not_matter(events, head_request);
    lemma_pieces_do_not_matter(others, head_request);
    lemma_section(first, status, fields, rest);
    assert((head + rest).skip(head.len() as int) =~= rest);
}

/// A final response has no body where it answers a `HEAD` request or its status is 204 or 304: it is
/// its header section alone, whatever that declares and whatever stands behind it.
pub proof fn lemma_response_without_body(
    first: Seq<char>,
    status: u16,
    fields: Seq<HeaderField>,
    rest: Seq<u8>,
    events: Seq<ReadEvent>,
    head_request: bool,
)
    requires
        is_section(first, status, fields),
        !(100 <= status < 200),
        head_request || status == 204 || status == 304,
        are_data(events),
        all_data(events) == section_octets(first, fields) + rest,
    ensures
        replayed(events, head_request, None) == Progress::Finished(
            section_octets(first, fields),
            None,
        ),
{
    let head = section_octets(first, fields);
    lemma_pieces_do_not_matter(events, head_request);
    lemma_section(first, status, fields, rest);
    assert((head + rest).take(head.len() as int) =~= head);
}

/// Whether a response with a status has a body that its header section frames.
pub open spec fn has_framed_body(status: u16) -> bool {
    !(100 <= status < 200) && status != 204 && status != 304
}

/// A final response that declares lengths which agree, and no transfer-coding, is its header section
/// and so many octets behind it, whatever its status but 204 and 304, and whatever follows.
pub proof fn lemma_response_of_a_length(
    first: Seq<char>,
    status: u16,
    fields: Seq<HeaderField>,
    length: nat,
    body: Seq<u8>,
    rest: Seq<u8>,
    events: Seq<ReadEvent>,
)
    requires
        is_section(first, status, fields),
        has_framed_body(status),
        forall|i: int| 0 <= i < fields.len() ==> !(#[trigger] fields[i] is Coding),
        all_numbers(fields).len() > 0,
        forall|i: int|
            0 <= i < all_numbers(fields).len() ==> #[trigger] all_numbers(fields)[i].value
                == length,
        body.len() == length,
        are_data(events),
        all_data(events) == section_octets(first, fields) + body + rest,
    ensures
        replayed(events, false, None) == Progress::Finished(
            section_octets(first, fields) + body,
            None,
        ),
        response_framing(section_octets(first, fields), false, status) == Ok::<
            BodyFraming,
            ResponseFault,
        >(BodyFraming::Length(length as u64)),
{
    let head = section_octets(first, fields);
    let all = head + (body + rest);
    assert(head + body + rest =~= all);
    lemma_pieces_do_not_matter(events, false);
    lemma_numbers_fit(fields);
    lemma_final(first, status, fields, -1, body + rest, false);
    lemma_section(first, status, fields, body + rest);
    lemma_declared_framing(first, fields, -1);
    assert(all.take(head.len() + length as int) =~= head + body);
}

/// Every number that fields list is one that a length can be.
proof fn lemma_numbers_fit(fields: Seq<HeaderField>)
    requires
        are_header_fields(fields),
    ensures
        forall|i: int|
            0 <= i < all_numbers(fields).len() ==> #[trigger] all_numbers(fields)[i].value
                <= u64::MAX,
    decreases fields.len(),
{
    if fields.len() > 0 {
        let rest = fields.skip(1);
        assert(is_header_field(fields[0]));
        assert forall|i: int| 0 <= i < rest.len() implies is_header_field(#[trigger] rest[i]) by {
            assert(rest[i] == fields[i + 1]);
        }
        lemma_numbers_fit(rest);
        match fields[0] {
            HeaderField::Length(_, numbers) => {
                let all = numbers + all_numbers(rest);
                assert forall|i: int| 0 <= i < all.len() implies #[trigger] all[i].value
                    <= u64::MAX by {
                    if i < numbers.len() {
                        assert(crate::recorder::declared::is_number(numbers[i]));
                    } else {
                        assert(all[i] == all_numbers(rest)[i - numbers.len()]);
                    }
                }
            },
            _ => {},
        }
    }
}

/// A final response whose last transfer-coding is `chunked` is its header section and a chunked
/// body behind it, whatever lengths it declares beside, and whatever follows.
pub proof fn lemma_chunked_response(
    first: Seq<char>,
    status: u16,
    fields: Seq<HeaderField>,
    at: int,
    body: ChunkedBody,
    rest: Seq<u8>,
    events: Seq<ReadEvent>,
)
    requires
        is_section(first, status, fields),
        has_framed_body(status),
        0 <= at < fields.len(),
        fields[at] is Coding,
        spells_name(fields[at]->Coding_1.last().word, "chunked"@),
        forall|i: int| at < i < fields.len() ==> !(#[trigger] fields[i] is Coding),
        all_agree(all_numbers(fields)),
        is_chunked_body(body, (u64::MAX - 2) as nat),
        are_data(events),
        all_data(events) == section_octets(first, fields) + chunked_octets(body) + rest,
    ensures
        replayed(events, false, None) == Progress::Finished(
            section_octets(first, fields) + chunked_octets(body),
            None,
        ),
{
    let head = section_octets(first, fields);
    let octets = chunked_octets(body);
    let all = head + (octets + rest);
    assert(head + octets + rest =~= all);
    lemma_pieces_do_not_matter(events, false);
    lemma_final(first, status, fields, at, octets + rest, false);
    lemma_scan_finds_the_end(head, body, rest);
    assert(all.take((head + octets).len() as int) =~= head + octets);
}

/// A final response whose declared lengths disagree is refused.
pub proof fn lemma_conflicting_lengths(
    first: Seq<char>,
    status: u16,
    fields: Seq<HeaderField>,
    at: int,
    rest: Seq<u8>,
    events: Seq<ReadEvent>,
)
    requires
        is_section(first, status, fields),
        has_framed_body(status),
        !all_agree(all_numbers(fields)),
        -1 <= at < fields.len(),
        at >= 0 ==> fields[at] is Coding,
        forall|i: int| at < i < fields.len() ==> !(#[trigger] fields[i] is Coding),
        are_data(events),
        all_data(events) == section_octets(first, fields) + rest,
    ensures
        replayed(events, false, None) == Progress::Failed(ResponseFault::ConflictingContentLength),
{
    lemma_pieces_do_not_matter(events, false);
    lemma_final(first, status, fields, at, rest, false);
}

/// How a response that is still being read ends where the connection closes or a read times out.
pub open spec fn ends_as(
    events: Seq<ReadEvent>,
    response: Seq<u8>,
    closed: Option<TruncatedType>,
) -> bool {
    &&& replayed(events.push(ReadEvent::Closed), false, None) == Progress::Finished(
        response,
        closed,
    )
    &&& replayed(events.push(ReadEvent::TimedOut), false, None) == Progress::Finished(
        response,
        Some(TruncatedType::Time),
    )
}

/// A final response that declares neither a length nor `chunked` as its last coding is all that
/// came when the connection closes, and not cut short; a timeout before that cuts it short.
pub proof fn lemma_response_until_close(
    first: Seq<char>,
    status: u16,
    fields: Seq<HeaderField>,
    at: int,
    body: Seq<u8>,
    events: Seq<ReadEvent>,
)
    requires
        is_section(first, status, fields),
        has_framed_body(status),
        -1 <= at < fields.len(),
        at < 0 ==> all_numbers(fields).len() == 0,
        at >= 0 ==> fields[at] is Coding && !spells_name(
            fields[at]->Coding_1.last().word,
            "chunked"@,
        ),
        forall|i: int| at < i < fields.len() ==> !(#[trigger] fields[i] is Coding),
        all_agree(all_numbers(fields)),
        are_data(events),
        all_data(events) == section_octets(first, fields) + body,
    ensures
        ends_as(events, section_octets(first, fields) + body, None),
{
    let head = section_octets(first, fields);
    lemma_pieces_do_not_matter(events, false);
    lemma_final(first, status, fields, at, body, false);
    assert(events.push(ReadEvent::Closed).drop_last() =~= events);
    assert(events.push(ReadEvent::TimedOut).drop_last() =~= events);
}

/// A final response of a declared length that the connection closes before is cut short by that,
/// and holds what came; so does one that a timeout cuts short.
pub proof fn lemma_short_response(
    first: Seq<char>,
    status: u16,
    fields: Seq<HeaderField>,
    length: nat,
    body: Seq<u8>,
    events: Seq<ReadEvent>,
)
    requires
        is_section(first, status, fields),
        has_framed_body(status),
        forall|i: int| 0 <= i < fields.len() ==> !(#[trigger] fields[i] is Coding),
        all_numbers(fields).len() > 0,
        forall|i: int|
            0 <= i < all_numbers(fields).len() ==> #[trigger] all_numbers(fields)[i].value
                == length,
        body.len() < length,
        are_data(events),
        all_data(events) == section_octets(first, fields) + body,
    ensures
        ends_as(events, section_octets(first, fields) + body, Some(TruncatedType::Disconnect)),
{
    lemma_pieces_do_not_matter(events, false);
    lemma_numbers_fit(fields);
    lemma_final(first, status, fields, -1, body, false);
    assert(all_numbers(fields)[0].value == length);
    assert(events.push(ReadEvent::Closed).drop_last() =~= events);
    assert(events.push(ReadEvent::TimedOut).drop_last() =~= events);
}

/// A chunked response that the connection closes before its end is cut short by that, and holds what
/// came; so does one that a timeout cuts short.
pub proof fn lemma_short_chunked_response(
    first: Seq<char>,
    status: u16,
    fields: Seq<HeaderField>,
    at: int,
    body: ChunkedBody,
    held: nat,
    events: Seq<ReadEvent>,
)
    requires
        is_section(first, status, fields),
        has_framed_body(status),
        0 <= at < fields.len(),
        fields[at] is Coding,
        spells_name(fields[at]->Coding_1.last().word, "chunked"@),
        forall|i: int| at < i < fields.len() ==> !(#[trigger] fields[i] is Coding),
        all_agree(all_numbers(fields)),
        is_chunked_body(body, (u64::MAX - 2) as nat),
        held < chunked_octets(body).len(),
        are_data(events),
        all_data(events) == section_octets(first, fields) + chunked_octets(body).take(held as int),
    ensures
        ends_as(
            events,
            section_octets(first, fields) + chunked_octets(body).take(held as int),
            Some(TruncatedType::Disconnect),
        ),
{
    let head = section_octets(first, fields);
    let octets = chunked_octets(body);
    let some = octets.take(held as int);
    lemma_pieces_do_not_matter(events, false);
    lemma_final(first, status, fields, at, some, false);
    let none = Seq::<u8>::empty();
    lemma_scan_finds_the_end(head, body, none);
    lemma_scan_resumes(head + some, octets.skip(held as int), head.len() as int, ChunkStage::Size);
    lemma_scan_bounds(head + some, head.len() as int, ChunkStage::Size);
    assert(head + some + octets.skip(held as int) =~= head + octets + none);
    assert(scan(head + some, head.len() as int, ChunkStage::Size) is Incomplete);
    assert(events.push(ReadEvent::Closed).drop_last() =~= events);
    assert(events.push(ReadEvent::TimedOut).drop_last() =~= events);
}

/// Octets in which no header section ends are no response where the connection closes or a read
/// times out, and are too many once they are more than a header section may hold.
pub proof fn lemma_no_section(events: Seq<ReadEvent>, head_request: bool)
    requires
        are_data(events),
        ({
            let s = all_data(events);
            forall|i: int|
                0 <= i && i + 4 <= s.len() && i + 4 <= 65536 ==> !(#[trigger] s[i] == 0x0d && s[i
                    + 1] == 0x0a && s[i + 2] == 0x0d && s[i + 3] == 0x0a)
        }),
    ensures
        all_data(events).len() > 65536 ==> replayed(events, head_request, None)
            == Progress::Failed(ResponseFault::OversizedHeaderSection),
        all_data(events).len() <= 65536 ==> {
            &&& replayed(events, head_request, None) == Progress::Reading(all_data(events), None)
            &&& replayed(events.push(ReadEvent::Closed), head_request, None) == Progress::Failed(
                ResponseFault::IncompleteHeaderSection,
            )
            &&& replayed(events.push(ReadEvent::TimedOut), head_request, None) == Progress::Failed(
                ResponseFault::IncompleteHeaderSection,
            )
        },
{
    let s = all_data(events);
    lemma_pieces_do_not_matter(events, head_request);
    lemma_no_early_end(s, 0);
    lemma_header_end(s, 0);
    assert(events.push(ReadEvent::Closed).drop_last() =~= events);
    assert(events.push(ReadEvent::TimedOut).drop_last() =~= events);
}

proof fn lemma_no_early_end(s: Seq<u8>, from: int)
    requires
        0 <= from,
        forall|i: int|
            from <= i && i + 4 <= s.len() && i + 4 <= 65536 ==> !(#[trigger] s[i] == 0x0d && s[i
                + 1] == 0x0a && s[i + 2] == 0x0d && s[i + 3] == 0x0a),
    ensures
        header_end(s, from) matches Some(end) ==> end > 65536,
    decreases s.len() - from,
{
    if from + 4 <= s.len() {
        lemma_no_early_end(s, from + 1);
    }
}

/// A chunked body that more octets complete ends within them.
proof fn lemma_scan_ends_late(buffer: Seq<u8>, more: Seq<u8>, offset: int, stage: ChunkStage)
    requires
        0 <= offset <= buffer.len(),
        scan(buffer, offset, stage) is Incomplete,
    ensures
        scan(buffer + more, offset, stage) matches Scan::Complete(end) ==> end > buffer.len(),
{
    let whole = buffer + more;
    match scan(whole, offset, stage) {
        Scan::Complete(end) => {
            if end <= buffer.len() {
                lemma_scan_is_local(whole, buffer.len() as int, offset, stage);
                assert(whole.take(buffer.len() as int) =~= buffer);
            }
        },
        _ => {},
    }
}

/// The end of a chunked body depends on the octets before it alone.
proof fn lemma_scan_is_local(whole: Seq<u8>, held: int, offset: int, stage: ChunkStage)
    requires
        0 <= offset <= held <= whole.len(),
        scan(whole, offset, stage) matches Scan::Complete(end) && end <= held,
    ensures
        scan(whole.take(held), offset, stage) == scan(whole, offset, stage),
    decreases whole.len() - offset,
{
    let some = whole.take(held);
    lemma_scan_bounds(whole, offset, stage);
    crate::octets::lemma_crlf_position(whole, offset);
    let end = crlf_position(whole, offset);
    let next = match stage {
        ChunkStage::Size => match crate::recorder::chunks::chunk_size_of(
            crate::recorder::chunks::size_text(whole.subrange(offset, end)),
        ) {
            Some(size) if size != 0 => ChunkStage::Data(size as u64),
            _ => ChunkStage::Trailers,
        },
        ChunkStage::Data(_) => ChunkStage::Size,
        ChunkStage::Trailers => ChunkStage::Trailers,
    };
    match stage {
        ChunkStage::Data(size) => {
            let after = offset + size + 2;
            lemma_scan_bounds(whole, after, next);
            assert(some[offset + size] == whole[offset + size]);
            assert(some[offset + size + 1] == whole[offset + size + 1]);
            lemma_scan_is_local(whole, held, after, next);
        },
        _ => {
            if !(stage is Trailers && end == offset) {
                lemma_scan_bounds(whole, end + 2, next);
            }
            assert(end + 2 <= held);
            assert forall|i: int| offset <= i < end implies !(#[trigger] some[i] == 0x0d && some[i
                + 1] == 0x0a) by {
                assert(some[i] == whole[i] && some[i + 1] == whole[i + 1]);
            }
            assert(some[end] == whole[end] && some[end + 1] == whole[end + 1]);
            lemma_crlf_position_is(some, offset, end);
            assert(some.subrange(offset, end) =~= whole.subrange(offset, end));
            if !(stage is Trailers && end == offset) {
                lemma_scan_is_local(whole, held, end + 2, next);
            }
        },
    }
}

/// What a bound does to a reading: nothing while less than the bound is held, and otherwise it cuts
/// the response at the bound and says so. A header section that is longer than the bound fails.
pub open spec fn is_bounded(unbounded: Progress, bounded: Progress, cap: u64) -> bool {
    match (unbounded, bounded) {
        (Progress::Reading(_, body), Progress::Reading(held, _)) => bounded == unbounded && (
        body is Some ==> held.len() < cap),
        (Progress::Reading(held, body), Progress::Finished(response, reason)) => {
            &&& body is Some
            &&& held.len() >= cap
            &&& response == held.take(cap as int)
            &&& reason == Some(TruncatedType::<Never>::Length)
        },
        (Progress::Finished(whole, why), Progress::Finished(response, reason)) => {
            &&& whole.len() < cap ==> response == whole && reason == why
            &&& whole.len() == cap ==> response == whole && (reason == why || reason == Some(
                TruncatedType::<Never>::Length,
            ))
            &&& whole.len() > cap ==> response == whole.take(cap as int) && reason == Some(
                TruncatedType::<Never>::Length,
            )
        },
        (Progress::Failed(_), Progress::Finished(response, reason)) => response.len() == cap
            && reason == Some(TruncatedType::<Never>::Length),
        (_, Progress::Reading(_, _)) => false,
        (_, Progress::Failed(fault)) => bounded == unbounded || (cap < 65536
            && fault is OversizedHeaderSection),
    }
}

proof fn lemma_body_is_bounded(buffer: Seq<u8>, state: BodyState, cap: u64)
    requires
        0 <= state.header_end <= buffer.len(),
        0 <= state.offset <= buffer.len(),
    ensures
        is_bounded(with_body(buffer, state, None), with_body(buffer, state, Some(cap)), cap),
{
    lemma_scan_bounds(buffer, state.offset, state.stage);
    if buffer.len() == cap {
        assert(buffer.take(cap as int) =~= buffer);
    }
}

proof fn lemma_header_is_bounded(buffer: Seq<u8>, head_request: bool, cap: u64)
    ensures
        is_bounded(
            with_header(buffer, head_request, None),
            with_header(buffer, head_request, Some(cap)),
            cap,
        ),
    decreases buffer.len(),
{
    lemma_header_end(buffer, 0);
    match header_end(buffer, 0) {
        None => {},
        Some(end) => {
            match status_of(buffer) {
                None => {},
                Some(status) => {
                    if 100 <= status < 200 {
                        lemma_header_is_bounded(buffer.skip(end), head_request, cap);
                    } else {
                        match response_framing(buffer.take(end), head_request, status) {
                            Err(_) => {},
                            Ok(framing) => {
                                let state = BodyState {
                                    header_end: end,
                                    framing,
                                    offset: end,
                                    stage: ChunkStage::Size,
                                };
                                lemma_body_is_bounded(buffer, state, cap);
                            },
                        }
                    }
                },
            }
        },
    }
}

/// A reading that goes on is one that its octets alone do not end.
proof fn lemma_reading_is_sound(events: Seq<ReadEvent>, head_request: bool)
    ensures
        replayed(events, head_request, None) matches Progress::Reading(buffer, body) ==> is_sound(
            buffer,
            body,
        ),
    decreases events.len(),
{
    if events.len() > 0 {
        lemma_reading_is_sound(events.drop_last(), head_request);
        match replayed(events.drop_last(), head_request, None) {
            Progress::Reading(buffer, body) => {
                match events.last() {
                    ReadEvent::Data(data) => {
                        let none = Seq::<u8>::empty();
                        match body {
                            None => {
                                lemma_goes_on(buffer + data@, none, head_request);
                            },
                            Some(state) => {
                                lemma_body_goes_on(buffer + data@, state, none);
                            },
                        }
                    },
                    _ => {},
                }
            },
            _ => {},
        }
    }
}

/// A bound on a response only cuts it: whatever the reads, a reading under the bound stores what one
/// without a bound stores where that is shorter, and otherwise the first octets of it, as many as
/// the bound says, which it says are cut at the bound. It fails where the other does, or where the
/// bound is too short for a header section.
pub proof fn lemma_bound_only_cuts(events: Seq<ReadEvent>, head_request: bool, cap: u64)
    ensures
        is_bounded(
            replayed(events, head_request, None),
            replayed(events, head_request, Some(cap)),
            cap,
        ),
    decreases events.len(),
{
    if events.len() > 0 {
        let earlier = events.drop_last();
        lemma_bound_only_cuts(earlier, head_request, cap);
        lemma_reading_is_sound(earlier, head_request);
        match (replayed(earlier, head_request, None), replayed(earlier, head_request, Some(cap))) {
            (Progress::Reading(buffer, body), Progress::Reading(_, _)) => {
                match events.last() {
                    ReadEvent::Data(data) => {
                        match body {
                            None => {
                                lemma_header_is_bounded(buffer + data@, head_request, cap);
                            },
                            Some(state) => {
                                lemma_body_is_bounded(buffer + data@, state, cap);
                            },
                        }
                    },
                    _ => {},
                }
            },
            (Progress::Reading(buffer, Some(state)), Progress::Finished(response, _)) => {
                match events.last() {
                    ReadEvent::Data(data) => {
                        lemma_body_grows(buffer, state, data@, cap);
                    },
                    _ => {
                        if buffer.len() == cap {
                            assert(buffer.take(cap as int) =~= buffer);
                        }
                    },
                }
            },
            _ => {},
        }
    }
}

/// A body that goes on holds more with more octets, of which the first stay as they are.
proof fn lemma_body_grows(buffer: Seq<u8>, state: BodyState, more: Seq<u8>, cap: u64)
    requires
        is_sound(buffer, Some(state)),
        buffer.len() >= cap,
    ensures
        match with_body(buffer + more, state, None) {
            Progress::Reading(held, body) => body is Some && held.len() >= cap && held.take(
                cap as int,
            ) == buffer.take(cap as int),
            Progress::Finished(whole, _) => whole.len() > cap && whole.take(cap as int)
                == buffer.take(cap as int),
            Progress::Failed(_) => true,
        },
{
    let all = buffer + more;
    assert(all.take(cap as int) =~= buffer.take(cap as int));
    match state.framing {
        BodyFraming::Length(length) => {
            if all.len() - state.header_end >= length {
                assert(all.take(state.header_end + length).take(cap as int) =~= buffer.take(
                    cap as int,
                ));
            }
        },
        BodyFraming::Chunked => {
            lemma_scan_ends_late(buffer, more, state.offset, state.stage);
            lemma_scan_bounds(all, state.offset, state.stage);
            match scan(all, state.offset, state.stage) {
                Scan::Complete(end) => {
                    assert(all.take(end).take(cap as int) =~= buffer.take(cap as int));
                },
                _ => {},
            }
        },
        _ => {},
    }
}

/// A chunked response in which a word stands where the size of a chunk belongs is refused, with the
/// word.
pub proof fn lemma_malformed_chunk(
    first: Seq<char>,
    status: u16,
    fields: Seq<HeaderField>,
    at: int,
    chunks: Seq<Chunk>,
    word: Seq<u8>,
    extensions: Seq<u8>,
    rest: Seq<u8>,
    events: Seq<ReadEvent>,
)
    requires
        is_section(first, status, fields),
        has_framed_body(status),
        0 <= at < fields.len(),
        fields[at] is Coding,
        spells_name(fields[at]->Coding_1.last().word, "chunked"@),
        forall|i: int| at < i < fields.len() ==> !(#[trigger] fields[i] is Coding),
        all_agree(all_numbers(fields)),
        are_chunks(chunks, (u64::MAX - 2) as nat),
        is_no_size(word),
        extensions.len() > 0 ==> extensions[0] == 0x3b,
        is_one_line(extensions),
        are_data(events),
        all_data(events) == section_octets(first, fields) + (chunks_octets(chunks) + (word
            + extensions + seq![0x0du8, 0x0a] + rest)),
    ensures
        replayed(events, false, None) == Progress::Failed(
            ResponseFault::MalformedChunkSize(lossy_text(word)),
        ),
{
    let head = section_octets(first, fields);
    lemma_pieces_do_not_matter(events, false);
    lemma_final(
        first,
        status,
        fields,
        at,
        chunks_octets(chunks) + (word + extensions + seq![0x0du8, 0x0a] + rest),
        false,
    );
    lemma_wrong_size_is_found(head, chunks, word, extensions, rest);
}

/// A chunked response in which the data of a chunk does not end where its size says is refused.
pub proof fn lemma_unterminated_chunk(
    first: Seq<char>,
    status: u16,
    fields: Seq<HeaderField>,
    at: int,
    chunks: Seq<Chunk>,
    chunk: Chunk,
    rest: Seq<u8>,
    events: Seq<ReadEvent>,
)
    requires
        is_section(first, status, fields),
        has_framed_body(status),
        0 <= at < fields.len(),
        fields[at] is Coding,
        spells_name(fields[at]->Coding_1.last().word, "chunked"@),
        forall|i: int| at < i < fields.len() ==> !(#[trigger] fields[i] is Coding),
        all_agree(all_numbers(fields)),
        are_chunks(chunks, (u64::MAX - 2) as nat),
        is_chunk(chunk),
        chunk.data.len() <= u64::MAX - 2,
        rest.len() >= 2,
        rest[0] != 0x0d || rest[1] != 0x0a,
        are_data(events),
        all_data(events) == section_octets(first, fields) + (chunks_octets(chunks) + (size_line(
            chunk.line,
        ) + seq![0x0du8, 0x0a] + chunk.data + rest)),
    ensures
        replayed(events, false, None) == Progress::Failed(ResponseFault::UnterminatedChunk),
{
    let head = section_octets(first, fields);
    lemma_pieces_do_not_matter(events, false);
    lemma_final(
        first,
        status,
        fields,
        at,
        chunks_octets(chunks) + (size_line(chunk.line) + seq![0x0du8, 0x0a] + chunk.data + rest),
        false,
    );
    lemma_chunk_is_ended(head, chunks, chunk, rest);
}

/// Octets that hold a header section but do not open with the name of the protocol are no response.
pub proof fn lemma_no_status_line(
    lines: Seq<Seq<u8>>,
    rest: Seq<u8>,
    events: Seq<ReadEvent>,
    head_request: bool,
)
    requires
        lines.len() > 0,
        forall|i: int|
            0 <= i < lines.len() ==> (#[trigger] lines[i]).len() > 0 && is_one_line(lines[i]),
        !octets("HTTP/"@).is_prefix_of(lines[0]),
        lines_octets(lines).len() + 2 <= 65536,
        are_data(events),
        all_data(events) == lines_octets(lines) + seq![0x0du8, 0x0a] + rest,
    ensures
        replayed(events, head_request, None) == Progress::Failed(
            ResponseFault::MalformedStatusLine,
        ),
{
    let none = Seq::<u8>::empty();
    let s = all_data(events);
    let first = lines[0];
    lemma_pieces_do_not_matter(events, head_request);
    lemma_section_ends(none, lines, rest);
    assert(none + lines_octets(lines) + seq![0x0du8, 0x0a] + rest =~= s);
    assert(none + lines_octets(lines) =~= lines_octets(lines));
    let n = first.len() as int;
    let behind = lines_octets(lines.skip(1)) + seq![0x0du8, 0x0a] + rest;
    assert(s =~= first + seq![0x0du8, 0x0a] + behind);
    assert forall|i: int| 0 <= i < n implies !(#[trigger] s[i] == 0x0d && s[i + 1] == 0x0a) by {
        assert(s[i] == first[i]);
    }
    assert(s[n] == 0x0d && s[n + 1] == 0x0a);
    lemma_crlf_position_is(s, 0, n);
    assert(s.take(n) =~= first);
    let space = position(first, 0x20, 0);
    lemma_position(first, 0x20, 0);
    let opening = octets("HTTP/"@);
    if opening.is_prefix_of(first.take(space)) {
        assert forall|i: int| 0 <= i < opening.len() implies #[trigger] opening[i] == first[i] by {
            assert(first.take(space)[i] == first[i]);
        }
        assert(opening =~= first.take(opening.len() as int));
        assert(false);
    }
}

} // verus!
