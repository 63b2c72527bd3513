//! Reading a stream of records.
//!
//! The readers here are handed what each read of a stream gives, and say what comes of it. A reader
//! that has met the end of its stream, or an error in it, is finished: whatever it is handed from
//! there on, it says that the stream has ended, since an error leaves the stream at an unspecified
//! position. The one error that leaves it at a known position is a well-formed header block that
//! lacks what a record requires: a streaming reader goes on behind its body.

use crate::octets::{copied, equal, octets, starts_with, utf8_string};
use crate::parsing::{content_end, is_token, is_token_char, line_break, next_line};
use crate::record::fields::parser::{all_written, field_at, fields_from, read_fields, written};
use crate::warc_record::{
    body_length, check_record, fields_in, keyed, record_fault, Error, Fault, Header,
    RawRecordHeader,
};
use vstd::prelude::*;
use vstd::slice::slice_subrange;
use vstd::string::*;
use vstd::utf8::{decode_utf8, encode_utf8_decode_utf8, valid_utf8};

verus! {

/// The octets that end a line.
pub open spec fn crlf() -> Seq<u8> {
    seq![0x0du8, 0x0a]
}

/// The octets that end a record.
pub open spec fn terminator() -> Seq<u8> {
    seq![0x0du8, 0x0a, 0x0d, 0x0a]
}

/// How many octets stand before the first carriage return or line feed from `i` on.
pub open spec fn line_length(s: Seq<u8>, i: int) -> int
    decreases s.len() - i,
{
    if i < 0 || i >= s.len() || s[i] == 0x0d || s[i] == 0x0a {
        i
    } else {
        line_length(s, i + 1)
    }
}

/// The first line of octets, without what ends it.
pub open spec fn first_line(s: Seq<u8>) -> Seq<u8> {
    s.take(line_length(s, 0))
}

/// What a header block holds, with the length that it declares for the body, or what is wrong with
/// it.
///
/// A block is a version line, fields, and an empty line. A line that is none of these is refused
/// rather than dropped with every line behind it.
pub open spec fn header_block(block: Seq<u8>) -> Result<(Header, nat), Fault> {
    let at = line_break(block, 0);
    let version = block.subrange(5, content_end(block, 0));
    if !octets("WARC/"@).is_prefix_of(block) || at >= block.len() || content_end(block, 0) <= 5
        || !valid_utf8(version) {
        Err(Fault::ParseHeaders(first_line(block)))
    } else {
        let (fields, stop) = fields_from(block, at + 1);
        let rest = block.skip(stop);
        if rest != crlf() {
            Err(Fault::ParseHeaders(first_line(rest)))
        } else {
            let header = Header { version: decode_utf8(version), fields: keyed(fields) };
            match body_length(header.fields) {
                Err(fault) => Err(fault),
                Ok(length) => Ok((header, length)),
            }
        }
    }
}

/// The first line of octets, without what ends it.
fn opening_line(s: &[u8]) -> (r: Vec<u8>)
    ensures
        r@ == first_line(s@),
{
    let mut i: usize = 0;
    while i < s.len() && s[i] != 0x0d && s[i] != 0x0a
        invariant
            i <= s.len(),
            line_length(s@, 0) == line_length(s@, i as int),
        decreases s.len() - i,
    {
        i = i + 1;
    }
    let line = slice_subrange(s, 0, i);
    assert(line@ =~= first_line(s@));
    copied(line)
}

/// Check that a parsed header block was consumed in full.
///
/// Reading fields stops at the first line that does not match the named-field grammar, so a
/// remainder other than the blank line that terminates the block means such a line was present.
fn check_header_block_end(remainder: &[u8]) -> (r: Result<(), Error>)
    ensures
        match r {
            Ok(_) => remainder@ == crlf(),
            Err(error) => remainder@ != crlf() && error@ == Fault::ParseHeaders(
                first_line(remainder@),
            ),
        },
{
    if remainder.len() == 2 && remainder[0] == 0x0d && remainder[1] == 0x0a {
        assert(remainder@ =~= crlf());
        return Ok(());
    }
    assert(remainder@ != crlf());
    Err(Error::ParseHeaders(opening_line(remainder)))
}

/// The names of fields that are read are tokens.
proof fn lemma_names_are_tokens(s: Seq<u8>, offset: int)
    requires
        0 <= offset <= s.len(),
    ensures
        forall|i: int|
            0 <= i < fields_from(s, offset).0.len() ==> is_token(
                octets((#[trigger] fields_from(s, offset).0[i]).0),
            ),
    decreases s.len() - offset,
{
    if let Some((field, next)) = field_at(s, offset) {
        if 0 <= offset < next <= s.len() {
            lemma_names_are_tokens(s, next);
            let (rest, _) = fields_from(s, next);
            let all = fields_from(s, offset).0;
            assert(all == seq![field] + rest);
            let colon = crate::octets::position(s, 0x3a, offset);
            let name = s.subrange(offset, colon);
            assert forall|i: int| 0 <= i < name.len() implies #[trigger] name[i] < 0x80 by {
                assert(is_token_char(name[i]));
            }
            crate::octets::lemma_ascii_text(name);
            assert forall|i: int| 0 <= i < all.len() implies is_token(
                octets((#[trigger] all[i]).0),
            ) by {
                if i > 0 {
                    assert(all[i] == rest[i - 1]);
                }
            }
        }
    }
}

/// Read a header block, and the length that it declares for the body.
///
/// # Errors
///
/// Returns an error for a line that the grammar does not match, and for a length that is missing or
/// malformed.
pub fn read_header(block: &[u8]) -> (r: Result<(RawRecordHeader, u64), Error>)
    ensures
        match r {
            Ok((header, length)) => header_block(block@) == Ok::<(Header, nat), Fault>(
                (header@, length as nat),
            ),
            Err(error) => header_block(block@) == Err::<(Header, nat), Fault>(error@),
        },
{
    if !starts_with(block, "WARC/".as_bytes()) {
        return Err(Error::ParseHeaders(opening_line(block)));
    }
    let line = match next_line(block, 0) {
        Some(line) => line,
        None => {
            return Err(Error::ParseHeaders(opening_line(block)));
        },
    };
    if line.end <= 5 {
        return Err(Error::ParseHeaders(opening_line(block)));
    }
    let version = match utf8_string(copied(slice_subrange(block, 5, line.end))) {
        Some(version) => version,
        None => {
            return Err(Error::ParseHeaders(opening_line(block)));
        },
    };
    proof {
        encode_utf8_decode_utf8(version@);
        lemma_names_are_tokens(block@, line.next as int);
    }
    let (fields, stop) = read_fields(block, line.next);
    let remainder = slice_subrange(block, stop, block.len());
    assert(remainder@ =~= block@.skip(stop as int));
    match check_header_block_end(remainder) {
        Ok(_) => {},
        Err(error) => {
            return Err(error);
        },
    }
    proof {
        assert(fields_in(fields@) =~= all_written(fields@));
        assert forall|i: int| 0 <= i < fields.len() implies crate::octets::is_ascii(
            octets(#[trigger] fields@[i].0@),
        ) by {
            let all = fields_from(block@, line.next as int).0;
            assert(all[i] == written(fields@[i]));
            assert(is_token(octets(all[i].0)));
            let name = octets(fields@[i].0@);
            assert forall|j: int| 0 <= j < name.len() implies #[trigger] name[j] < 0x80 by {
                assert(is_token_char(name[j]));
            }
        }
    }
    let header = RawRecordHeader::from_fields(version, fields);
    match header.content_length() {
        Ok(length) => Ok((header, length)),
        Err(error) => Err(error),
    }
}

/// How far a reader has come.
pub ghost enum Reading {
    /// In a header block, of which these octets are read.
    Header(Seq<u8>),
    /// In a body, behind its header, of which these octets are read.
    Body(Header, nat, Seq<u8>),
    /// At the end, or behind an error.
    Finished,
}

/// What comes of a read.
pub ghost enum Came {
    /// More is to be read.
    More,
    /// A record.
    Record(Header, Seq<u8>),
    /// An error.
    Failed(Fault),
    /// The stream has ended.
    Ended,
}

/// What a read of a stream gives: a line with the line feed that ends it, or nothing at the end.
pub open spec fn header_step(so_far: Seq<u8>, line: Seq<u8>) -> (Reading, Came) {
    let block = so_far + line;
    if line.len() == 0 {
        (Reading::Finished, Came::Ended)
    } else if line != crlf() {
        (Reading::Header(block), Came::More)
    } else {
        match header_block(block) {
            Err(fault) => (Reading::Finished, Came::Failed(fault)),
            Ok((header, length)) => (Reading::Body(header, length, Seq::empty()), Came::More),
        }
    }
}

/// What comes of a further line of a body and of the terminator behind it.
pub open spec fn body_step(header: Header, length: nat, so_far: Seq<u8>, line: Seq<u8>) -> (
    Reading,
    Came,
) {
    let all = so_far + line;
    if line.len() == 0 {
        (Reading::Finished, Came::Failed(Fault::UnexpectedEOB))
    } else if line.len() == 2 && all.len() == length + 4 {
        if all.skip(length as int) != terminator() {
            (Reading::Finished, Came::Failed(Fault::ParseHeaders(terminator())))
        } else {
            (Reading::Header(Seq::empty()), Came::Record(header, all.take(length as int)))
        }
    } else if all.len() > length + 4 {
        (Reading::Finished, Came::Failed(Fault::ReadOverflow))
    } else {
        (Reading::Body(header, length, all), Came::More)
    }
}

/// What comes of a line, where an empty one is the end of the stream.
pub open spec fn step(reading: Reading, line: Seq<u8>) -> (Reading, Came) {
    match reading {
        Reading::Header(so_far) => header_step(so_far, line),
        Reading::Body(header, length, so_far) => body_step(header, length, so_far, line),
        Reading::Finished => (Reading::Finished, Came::Ended),
    }
}

/// Where a reader stands.
#[derive(Debug)]
enum State {
    Header(Vec<u8>),
    Body(RawRecordHeader, u64, Vec<u8>),
    Finished,
}

/// What comes of a line that a reader is handed.
#[derive(Debug)]
pub enum Outcome {
    /// More is to be read.
    More,
    /// A record: its header, and its body.
    Record(RawRecordHeader, Vec<u8>),
    /// An error.
    Failed(Error),
    /// The stream has ended.
    Ended,
}

impl View for Outcome {
    type V = Came;

    open spec fn view(&self) -> Came {
        match self {
            Outcome::More => Came::More,
            Outcome::Record(header, body) => Came::Record(header@, body@),
            Outcome::Failed(error) => Came::Failed(error@),
            Outcome::Ended => Came::Ended,
        }
    }
}

/// A reader of raw records, which is handed the lines of a stream.
///
/// This only does well-formedness checks on the headers. See [`RawRecordHeader`] for more
/// information.
#[derive(Debug)]
pub struct RawRecordReader {
    state: State,
}

impl RawRecordReader {
    /// How far the reader has come.
    pub closed spec fn reading(&self) -> Reading {
        match self.state {
            State::Header(block) => Reading::Header(block@),
            State::Body(header, length, body) => Reading::Body(header@, length as nat, body@),
            State::Finished => Reading::Finished,
        }
    }

    /// A reader at the start of a stream.
    pub fn new() -> (r: Self)
        ensures
            r.reading() == Reading::Header(Seq::empty()),
    {
        let r = RawRecordReader { state: State::Header(Vec::new()) };
        assert(r.reading()->Header_0 =~= Seq::empty());
        r
    }

    /// Whether the reader takes no more lines.
    pub fn is_finished(&self) -> (r: bool)
        ensures
            r == (self.reading() is Finished),
    {
        match &self.state {
            State::Finished => true,
            _ => false,
        }
    }

    /// Take the next line of the stream with the line feed that ends it, or no octets at the end.
    pub fn receive(&mut self, line: &[u8]) -> (r: Outcome)
        ensures
            (final(self).reading(), r@) == step(old(self).reading(), line@),
    {
        let mut state = State::Finished;
        std::mem::swap(&mut state, &mut self.state);
        match state {
            State::Finished => Outcome::Ended,
            State::Header(block) => {
                let mut block = block;
                let ghost before = block@;
                if line.len() == 0 {
                    return Outcome::Ended;
                }
                crate::octets::append(&mut block, line);
                if !(line.len() == 2 && line[0] == 0x0d && line[1] == 0x0a) {
                    assert(line@ != crlf());
                    self.state = State::Header(block);
                    return Outcome::More;
                }
                assert(line@ =~= crlf());
                match read_header(block.as_slice()) {
                    Ok((header, length)) => {
                        self.state = State::Body(header, length, Vec::new());
                        assert(self.reading()->Body_2 =~= Seq::empty());
                        Outcome::More
                    },
                    Err(error) => Outcome::Failed(error),
                }
            },
            State::Body(header, length, body) => {
                let mut body = body;
                let ghost before = body@;
                if line.len() == 0 {
                    return Outcome::Failed(Error::UnexpectedEOB);
                }
                crate::octets::append(&mut body, line);
                let ghost all = body@;
                let read: u64 = body.len() as u64;
                if line.len() == 2 && read >= 4 && read - 4 == length {
                    let behind = body.split_off(length as usize);
                    assert(behind@ =~= all.skip(length as int));
                    assert(body@ =~= all.take(length as int));
                    if !equal(behind.as_slice(), "\r\n\r\n".as_bytes()) {
                        proof {
                            lemma_terminator();
                        }
                        return Outcome::Failed(
                            Error::ParseHeaders(copied("\r\n\r\n".as_bytes())),
                        );
                    }
                    proof {
                        lemma_terminator();
                    }
                    self.state = State::Header(Vec::new());
                    assert(self.reading()->Header_0 =~= Seq::empty());
                    return Outcome::Record(header, body);
                }
                if read >= 4 && read - 4 > length {
                    return Outcome::Failed(Error::ReadOverflow);
                }
                self.state = State::Body(header, length, body);
                Outcome::More
            },
        }
    }
}

/// The octets that end a record as text.
proof fn lemma_terminator()
    ensures
        octets("\r\n\r\n"@) == terminator(),
{
    reveal_strlit("\r\n\r\n");
    crate::octets::lemma_ascii_octets_of("\r\n\r\n"@);
    assert(octets("\r\n\r\n"@) =~= terminator());
}

/// A reader that has met the end of its stream, or an error in it, gives nothing from there on.
pub proof fn lemma_reader_is_fused(reading: Reading, line: Seq<u8>, next: Seq<u8>)
    ensures
        ({
            let (after, came) = step(reading, line);
            came is Failed || came is Ended ==> after is Finished && step(after, next) == (
                Reading::Finished,
                Came::Ended,
            )
        }),
{
}

/// How far a reader has come that leaves bodies to its caller.
pub ghost enum Streaming {
    /// In a header block, of which these octets are read.
    Header(Seq<u8>),
    /// In a body, of which so many octets are left, or at the terminator where none is.
    Body(nat),
    /// At the end, or behind an error.
    Finished,
}

/// What a read gives to a reader that leaves bodies to its caller.
pub ghost enum Given {
    /// A line with the line feed that ends it, or nothing at the end.
    Line(Seq<u8>),
    /// So many octets of a body, none at the end of the stream.
    Body(nat),
    /// What stands where a terminator is due: four octets, or fewer at the end of the stream.
    Closing(Seq<u8>),
}

/// What comes of a read.
pub ghost enum Item {
    /// More is to be read.
    More,
    /// The header of a record, and the declared length of its body.
    Record(Header, nat),
    /// An error.
    Failed(Fault),
    /// The stream has ended.
    Ended,
}

/// What a reader is to be given next.
pub open spec fn takes(streaming: Streaming, given: Given) -> bool {
    match streaming {
        Streaming::Header(_) => given is Line,
        Streaming::Body(left) => if left > 0 {
            given matches Given::Body(read) && read <= left
        } else {
            given is Closing
        },
        Streaming::Finished => true,
    }
}

/// What comes of a read.
pub open spec fn stream_step(streaming: Streaming, given: Given) -> (Streaming, Item) {
    match (streaming, given) {
        (Streaming::Header(so_far), Given::Line(line)) => match header_step(so_far, line) {
            (Reading::Header(block), _) => (Streaming::Header(block), Item::More),
            (Reading::Body(header, length, _), _) => (
                Streaming::Body(length),
                match record_fault(header) {
                    Some(fault) => Item::Failed(fault),
                    None => Item::Record(header, length),
                },
            ),
            (Reading::Finished, Came::Failed(fault)) => (Streaming::Finished, Item::Failed(fault)),
            _ => (Streaming::Finished, Item::Ended),
        },
        (Streaming::Body(left), Given::Body(read)) => if read == 0 {
            (Streaming::Finished, Item::Failed(Fault::UnexpectedEOB))
        } else {
            (Streaming::Body((left - read) as nat), Item::More)
        },
        (Streaming::Body(_), Given::Closing(closing)) => if closing.len() < 4 {
            (Streaming::Finished, Item::Failed(Fault::UnexpectedEOB))
        } else if closing != terminator() {
            (Streaming::Finished, Item::Failed(Fault::ParseHeaders(terminator())))
        } else {
            (Streaming::Header(Seq::empty()), Item::More)
        },
        _ => (Streaming::Finished, Item::Ended),
    }
}

/// Where a streaming reader stands.
#[derive(Debug)]
enum StreamState {
    Header(Vec<u8>),
    Body(u64),
    Finished,
}

/// What a streaming reader needs in order to come to the next record.
#[derive(Clone, Copy, Debug, PartialEq, Eq, Structural)]
pub enum Need {
    /// A line.
    Line,
    /// At most so many octets of the body, read or skipped.
    Body(u64),
    /// The four octets behind a body.
    Closing,
    /// Nothing: the stream has ended.
    Nothing,
}

/// What comes of a read.
#[derive(Debug)]
pub enum StreamOutcome {
    /// More is to be read.
    More,
    /// The header of a record, and the declared length of its body.
    Record(RawRecordHeader, u64),
    /// An error.
    Failed(Error),
    /// The stream has ended.
    Ended,
}

impl View for StreamOutcome {
    type V = Item;

    open spec fn view(&self) -> Item {
        match self {
            StreamOutcome::More => Item::More,
            StreamOutcome::Record(header, length) => Item::Record(header@, *length as nat),
            StreamOutcome::Failed(error) => Item::Failed(error@),
            StreamOutcome::Ended => Item::Ended,
        }
    }
}

/// A reader that gives headers and leaves bodies to its caller, to be read or skipped as desired.
///
/// A header in which a field that a record requires is missing or malformed is given as an error.
/// What is left of a body when the next record is asked for is skipped.
#[derive(Debug)]
pub struct StreamingReader {
    state: StreamState,
}

impl StreamingReader {
    /// How far the reader has come.
    pub closed spec fn streaming(&self) -> Streaming {
        match self.state {
            StreamState::Header(block) => Streaming::Header(block@),
            StreamState::Body(left) => Streaming::Body(left as nat),
            StreamState::Finished => Streaming::Finished,
        }
    }

    /// A reader at the start of a stream.
    pub fn new() -> (r: Self)
        ensures
            r.streaming() == Streaming::Header(Seq::empty()),
    {
        let r = StreamingReader { state: StreamState::Header(Vec::new()) };
        assert(r.streaming()->Header_0 =~= Seq::empty());
        r
    }

    /// What the reader needs next.
    pub fn need(&self) -> (r: Need)
        ensures
            match self.streaming() {
                Streaming::Header(_) => r == Need::Line,
                Streaming::Body(left) => if left > 0 {
                    r matches Need::Body(bound) && bound == left
                } else {
                    r == Need::Closing
                },
                Streaming::Finished => r == Need::Nothing,
            },
    {
        match &self.state {
            StreamState::Header(_) => Need::Line,
            StreamState::Body(left) => if *left > 0 {
                Need::Body(*left)
            } else {
                Need::Closing
            },
            StreamState::Finished => Need::Nothing,
        }
    }

    /// Take the next line of a header with the line feed that ends it, or no octets at the end.
    pub fn receive_line(&mut self, line: &[u8]) -> (r: StreamOutcome)
        requires
            takes(old(self).streaming(), Given::Line(line@)),
        ensures
            (final(self).streaming(), r@) == stream_step(
                old(self).streaming(),
                Given::Line(line@),
            ),
    {
        let mut state = StreamState::Finished;
        std::mem::swap(&mut state, &mut self.state);
        match state {
            StreamState::Header(block) => {
                let mut block = block;
                if line.len() == 0 {
                    return StreamOutcome::Ended;
                }
                crate::octets::append(&mut block, line);
                if !(line.len() == 2 && line[0] == 0x0d && line[1] == 0x0a) {
                    assert(line@ != crlf());
                    self.state = StreamState::Header(block);
                    return StreamOutcome::More;
                }
                assert(line@ =~= crlf());
                match read_header(block.as_slice()) {
                    Ok((header, length)) => {
                        self.state = StreamState::Body(length);
                        match check_record(&header) {
                            Ok(_) => StreamOutcome::Record(header, length),
                            Err(error) => StreamOutcome::Failed(error),
                        }
                    },
                    Err(error) => StreamOutcome::Failed(error),
                }
            },
            _ => StreamOutcome::Ended,
        }
    }

    /// Take note that so many octets of the body were read or skipped, none at the end.
    pub fn receive_body(&mut self, read: u64) -> (r: StreamOutcome)
        requires
            takes(old(self).streaming(), Given::Body(read as nat)),
        ensures
            (final(self).streaming(), r@) == stream_step(
                old(self).streaming(),
                Given::Body(read as nat),
            ),
    {
        let mut state = StreamState::Finished;
        std::mem::swap(&mut state, &mut self.state);
        match state {
            StreamState::Body(left) => {
                if read == 0 {
                    return StreamOutcome::Failed(Error::UnexpectedEOB);
                }
                self.state = StreamState::Body(left - read);
                StreamOutcome::More
            },
            _ => StreamOutcome::Ended,
        }
    }

    /// Take the four octets behind a body, or fewer at the end.
    pub fn receive_closing(&mut self, closing: &[u8]) -> (r: StreamOutcome)
        requires
            takes(old(self).streaming(), Given::Closing(closing@)),
        ensures
            (final(self).streaming(), r@) == stream_step(
                old(self).streaming(),
                Given::Closing(closing@),
            ),
    {
        let mut state = StreamState::Finished;
        std::mem::swap(&mut state, &mut self.state);
        match state {
            StreamState::Body(_) => {
                proof {
                    lemma_terminator();
                }
                if closing.len() < 4 {
                    return StreamOutcome::Failed(Error::UnexpectedEOB);
                }
                if !equal(closing, "\r\n\r\n".as_bytes()) {
                    return StreamOutcome::Failed(
                        Error::ParseHeaders(copied("\r\n\r\n".as_bytes())),
                    );
                }
                self.state = StreamState::Header(Vec::new());
                assert(self.streaming()->Header_0 =~= Seq::empty());
                StreamOutcome::More
            },
            _ => StreamOutcome::Ended,
        }
    }
}

/// Whether a line ends a header block that is well-formed and not the header of a record.
pub open spec fn is_refused(streaming: Streaming, given: Given) -> bool {
    match (streaming, given) {
        (Streaming::Header(so_far), Given::Line(line)) => match header_step(so_far, line) {
            (Reading::Body(header, _, _), _) => record_fault(header) is Some,
            _ => false,
        },
        _ => false,
    }
}

/// A streaming reader that has met the end of its stream, or an error that leaves the stream at an
/// unspecified position, gives nothing from there on.
pub proof fn lemma_streaming_is_fused(streaming: Streaming, given: Given, next: Given)
    requires
        !is_refused(streaming, given),
    ensures
        ({
            let (after, item) = stream_step(streaming, given);
            item is Failed || item is Ended ==> after is Finished && stream_step(after, next) == (
                Streaming::Finished,
                Item::Ended,
            )
        }),
{
}

/// A header that is not that of a record is an error, and leaves the reader where a record with as
/// long a body would: the records behind it are read.
pub proof fn lemma_refused_header_is_passed(streaming: Streaming, given: Given)
    requires
        is_refused(streaming, given),
    ensures
        ({
            let (after, item) = stream_step(streaming, given);
            &&& item is Failed
            &&& header_step(streaming->Header_0, given->Line_0).0 matches Reading::Body(
                header,
                length,
                _,
            )
            &&& item == Item::Failed(record_fault(header).unwrap())
            &&& after == Streaming::Body(length)
        }),
{
}

/// What comes of the lines of a stream from `at` on, up to the first record, error, or end, and
/// where the line behind it starts.
pub open spec fn read_from(reading: Reading, s: Seq<u8>, at: int) -> (Came, int)
    decreases s.len() - at,
{
    let next = if line_break(s, at) < s.len() {
        line_break(s, at) + 1
    } else {
        s.len() as int
    };
    if !(0 <= at < next <= s.len()) {
        (step(reading, Seq::empty()).1, at)
    } else {
        let (after, came) = step(reading, s.subrange(at, next));
        if came is More {
            read_from(after, s, next)
        } else {
            (came, next)
        }
    }
}

/// What a reader that leaves bodies to its caller makes of the lines of a stream from `at` on, up to
/// the first header, error, or end, and where the line behind it starts.
pub open spec fn stream_from(so_far: Seq<u8>, s: Seq<u8>, at: int) -> (Item, int)
    decreases s.len() - at,
{
    let next = if line_break(s, at) < s.len() {
        line_break(s, at) + 1
    } else {
        s.len() as int
    };
    if !(0 <= at < next <= s.len()) {
        (stream_step(Streaming::Header(so_far), Given::Line(Seq::empty())).1, at)
    } else {
        match stream_step(Streaming::Header(so_far), Given::Line(s.subrange(at, next))) {
            (Streaming::Header(block), Item::More) => stream_from(block, s, next),
            (_, item) => (item, next),
        }
    }
}

/// The two readers agree: where one gives the header of a record, the other reads a body under that
/// header from there; where one meets the end or an error, so does the other. A header that is not
/// that of a record is an error of the one, behind which the other reads its body.
pub proof fn lemma_readers_agree(so_far: Seq<u8>, s: Seq<u8>, at: int)
    ensures
        ({
            let (item, next) = stream_from(so_far, s, at);
            let came = read_from(Reading::Header(so_far), s, at);
            match item {
                Item::Record(header, length) => {
                    &&& record_fault(header) is None
                    &&& came == read_from(Reading::Body(header, length, Seq::empty()), s, next)
                },
                Item::Failed(fault) => came == (Came::Failed(fault), next) || exists|
                    header: Header,
                    length: nat,
                |
                    record_fault(header) == Some(fault) && came == #[trigger] read_from(
                        Reading::Body(header, length, Seq::empty()),
                        s,
                        next,
                    ),
                Item::Ended => came == (Came::Ended, next),
                Item::More => false,
            }
        }),
    decreases s.len() - at,
{
    let next = if line_break(s, at) < s.len() {
        line_break(s, at) + 1
    } else {
        s.len() as int
    };
    if 0 <= at < next <= s.len() {
        let line = s.subrange(at, next);
        match header_step(so_far, line) {
            (Reading::Header(block), _) => {
                lemma_readers_agree(block, s, next);
            },
            (Reading::Body(header, length, _), _) => {
                let reading = Reading::Body(header, length, Seq::empty());
                assert(read_from(Reading::Header(so_far), s, at) == read_from(reading, s, next));
            },
            _ => {},
        }
    }
}

/// The octets that reads of a body took, in all.
pub open spec fn total(reads: Seq<nat>) -> nat
    decreases reads.len(),
{
    if reads.len() == 0 {
        0
    } else {
        total(reads.drop_last()) + reads.last()
    }
}

/// Where a reader stands behind reads of a body.
pub open spec fn behind_reads(streaming: Streaming, reads: Seq<nat>) -> Streaming
    decreases reads.len(),
{
    if reads.len() == 0 {
        streaming
    } else {
        stream_step(behind_reads(streaming, reads.drop_last()), Given::Body(reads.last())).0
    }
}

/// A body is left behind in whichever pieces it is read or skipped. Behind it stands the terminator,
/// and behind that the next header; anything else there is an error, and so is a stream that ends
/// before.
pub proof fn lemma_body_is_left_behind(length: nat, reads: Seq<nat>, closing: Seq<u8>)
    requires
        forall|i: int| 0 <= i < reads.len() ==> #[trigger] reads[i] > 0,
        total(reads) <= length,
    ensures
        behind_reads(Streaming::Body(length), reads) == Streaming::Body(
            (length - total(reads)) as nat,
        ),
        closing == seq![0x0du8, 0x0a, 0x0d, 0x0a] ==> stream_step(
            Streaming::Body(0),
            Given::Closing(closing),
        ) == (Streaming::Header(Seq::empty()), Item::More),
        closing != seq![0x0du8, 0x0a, 0x0d, 0x0a] ==> {
            let (after, item) = stream_step(Streaming::Body(0), Given::Closing(closing));
            after is Finished && item is Failed
        },
        total(reads) < length ==> stream_step(
            behind_reads(Streaming::Body(length), reads),
            Given::Body(0),
        ) == (Streaming::Finished, Item::Failed(Fault::UnexpectedEOB)),
    decreases reads.len(),
{
    if reads.len() > 0 {
        let earlier = reads.drop_last();
        assert forall|i: int| 0 <= i < earlier.len() implies #[trigger] earlier[i] > 0 by {
            assert(earlier[i] == reads[i]);
        }
        assert(reads[reads.len() - 1] > 0);
        lemma_body_is_left_behind(length, earlier, closing);
    }
}

} // verus!
