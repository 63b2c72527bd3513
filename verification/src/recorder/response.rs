//! Reading one response verbatim, up to its end or to the reason it is cut short.

use crate::octets::{
    append, crlf_position, lemma_crlf_position, lemma_crlf_position_is, lossy_text,
};
use crate::record::extension::Never;
use crate::record::header::truncated_type::TruncatedType;
use crate::recorder::chunks::{lemma_scan_bounds, scan, ChunkError, ChunkScanner, ChunkStage, Scan};
use crate::recorder::framing::{
    body_framing, parse_status, response_framing, status_of, BodyFraming, ResponseError,
    ResponseFault,
};
use vstd::prelude::*;
use vstd::slice::slice_subrange;

verus! {

/// The longest header section that the recorder accepts.
pub const MAX_HEADER_LENGTH: u64 = 65536;

/// Where the first empty line from `from` on ends, if there is one.
pub open spec fn header_end(s: Seq<u8>, from: int) -> Option<int>
    decreases s.len() - from,
{
    if from < 0 || from + 4 > s.len() {
        None
    } else if s[from] == 0x0d && s[from + 1] == 0x0a && s[from + 2] == 0x0d && s[from + 3]
        == 0x0a {
        Some(from + 4)
    } else {
        header_end(s, from + 1)
    }
}

/// The longest header section that is stored under a bound on the response.
pub open spec fn header_bound(max_length: Option<u64>) -> u64 {
    match max_length {
        Some(cap) if cap < MAX_HEADER_LENGTH => cap,
        _ => MAX_HEADER_LENGTH,
    }
}

/// What the reader knows of a response's body.
pub struct BodyState {
    /// Where the header section ends.
    pub header_end: int,
    /// How the body's end is found.
    pub framing: BodyFraming,
    /// Where the scan of a chunked body goes on.
    pub offset: int,
    /// What the scan reads next.
    pub stage: ChunkStage,
}

/// How far the reading of a response has come.
pub enum Progress {
    /// The octets held, and what is known of the body once its header section is whole.
    Reading(Seq<u8>, Option<BodyState>),
    /// The response, and why it is cut short if it is.
    Finished(Seq<u8>, Option<TruncatedType>),
    /// The response is malformed.
    Failed(ResponseFault),
}

/// Whether the octets held reach the bound on the response.
pub open spec fn reaches(len: nat, max_length: Option<u64>) -> bool {
    max_length matches Some(cap) && len >= cap
}

/// The response once no more of it is read, cut to the bound.
pub open spec fn finished(
    buffer: Seq<u8>,
    truncated: Option<TruncatedType>,
    max_length: Option<u64>,
) -> Progress {
    match max_length {
        Some(cap) if buffer.len() > cap => Progress::Finished(
            buffer.take(cap as int),
            Some(TruncatedType::Length),
        ),
        _ => Progress::Finished(buffer, truncated),
    }
}

/// What is made of the octets held, once the header section is whole. A body that the bound leaves
/// incomplete is cut at the bound, whether it is met or passed.
pub open spec fn with_body(
    buffer: Seq<u8>,
    state: BodyState,
    max_length: Option<u64>,
) -> Progress {
    match state.framing {
        BodyFraming::Empty => finished(buffer.take(state.header_end), None, max_length),
        BodyFraming::Length(length) => if buffer.len() - state.header_end >= length {
            finished(buffer.take(state.header_end + length), None, max_length)
        } else if reaches(buffer.len(), max_length) {
            finished(buffer, Some(TruncatedType::Length), max_length)
        } else {
            Progress::Reading(buffer, Some(state))
        },
        BodyFraming::Chunked => match scan(buffer, state.offset, state.stage) {
            Scan::Complete(end) => finished(buffer.take(end), None, max_length),
            Scan::Incomplete(offset, stage) => if reaches(buffer.len(), max_length) {
                finished(buffer, Some(TruncatedType::Length), max_length)
            } else {
                Progress::Reading(buffer, Some((BodyState { offset, stage, ..state })))
            },
            Scan::MalformedSize(_, text) => Progress::Failed(
                ResponseFault::MalformedChunkSize(lossy_text(text)),
            ),
            Scan::Unterminated(_, _) => Progress::Failed(ResponseFault::UnterminatedChunk),
        },
        BodyFraming::Close => if reaches(buffer.len(), max_length) {
            finished(buffer, Some(TruncatedType::Length), max_length)
        } else {
            Progress::Reading(buffer, Some(state))
        },
    }
}

/// What is made of the octets held, from their first status line on. Interim responses are left
/// out.
pub open spec fn with_header(
    buffer: Seq<u8>,
    head_request: bool,
    max_length: Option<u64>,
) -> Progress
    decreases buffer.len(),
{
    match header_end(buffer, 0) {
        Some(end) => if end > header_bound(max_length) {
            Progress::Failed(ResponseFault::OversizedHeaderSection)
        } else {
            match status_of(buffer) {
                None => Progress::Failed(ResponseFault::MalformedStatusLine),
                Some(status) => if 100 <= status < 200 {
                    if 0 < end <= buffer.len() {
                        with_header(buffer.skip(end), head_request, max_length)
                    } else {
                        Progress::Failed(ResponseFault::MalformedStatusLine)
                    }
                } else {
                    match response_framing(buffer.take(end), head_request, status) {
                        Err(fault) => Progress::Failed(fault),
                        Ok(framing) => with_body(
                            buffer,
                            BodyState {
                                header_end: end,
                                framing,
                                offset: end,
                                stage: ChunkStage::Size,
                            },
                            max_length,
                        ),
                    }
                },
            }
        },
        None => if buffer.len() > header_bound(max_length) {
            Progress::Failed(ResponseFault::OversizedHeaderSection)
        } else {
            Progress::Reading(buffer, None)
        },
    }
}

/// What one read of the connection gives.
pub enum ReadEvent {
    /// Octets came.
    Data(Vec<u8>),
    /// The connection closed, cleanly or not.
    Closed,
    /// The read timed out.
    TimedOut,
}

/// How the reading goes on after one read of the connection.
pub open spec fn received(
    buffer: Seq<u8>,
    body: Option<BodyState>,
    event: ReadEvent,
    head_request: bool,
    max_length: Option<u64>,
) -> Progress {
    match event {
        ReadEvent::Data(data) => match body {
            None => with_header(buffer + data@, head_request, max_length),
            Some(state) => with_body(buffer + data@, state, max_length),
        },
        ReadEvent::Closed => match body {
            None => Progress::Failed(ResponseFault::IncompleteHeaderSection),
            Some(state) => finished(
                buffer,
                if state.framing is Close {
                    None
                } else {
                    Some(TruncatedType::Disconnect)
                },
                max_length,
            ),
        },
        ReadEvent::TimedOut => match body {
            None => Progress::Failed(ResponseFault::IncompleteHeaderSection),
            Some(_) => finished(buffer, Some(TruncatedType::Time), max_length),
        },
    }
}

/// How far the reading of a response comes with a sequence of reads.
pub open spec fn replayed(
    events: Seq<ReadEvent>,
    head_request: bool,
    max_length: Option<u64>,
) -> Progress
    decreases events.len(),
{
    if events.len() == 0 {
        Progress::Reading(Seq::empty(), None)
    } else {
        match replayed(events.drop_last(), head_request, max_length) {
            Progress::Reading(buffer, body) => received(
                buffer,
                body,
                events.last(),
                head_request,
                max_length,
            ),
            stopped => stopped,
        }
    }
}

/// All octets that a sequence of reads gives.
pub open spec fn all_data(events: Seq<ReadEvent>) -> Seq<u8>
    decreases events.len(),
{
    if events.len() == 0 {
        Seq::empty()
    } else {
        match events.last() {
            ReadEvent::Data(data) => all_data(events.drop_last()) + data@,
            _ => all_data(events.drop_last()),
        }
    }
}

/// Whether octets open with the whole header section of an interim response.
pub open spec fn is_interim(s: Seq<u8>) -> bool {
    &&& header_end(s, 0) is Some
    &&& status_of(s) matches Some(status)
    &&& 100 <= status < 200
}

/// Whether octets open with the whole header section of a response that is none of the interim
/// ones.
pub open spec fn is_final_section(s: Seq<u8>) -> bool {
    &&& header_end(s, 0) is Some
    &&& status_of(s) matches Some(status)
    &&& !(100 <= status < 200)
}

/// The total length of the header sections of the interim responses that octets open with.
pub open spec fn interim_length(s: Seq<u8>) -> int
    decreases s.len(),
{
    match header_end(s, 0) {
        Some(end) => if is_interim(s) && 0 < end <= s.len() {
            end + interim_length(s.skip(end))
        } else {
            0
        },
        None => 0,
    }
}

/// The octets behind the interim responses that octets open with.
pub open spec fn behind_interim(s: Seq<u8>) -> Seq<u8> {
    s.skip(interim_length(s))
}

/// Whether what is held or stored so far is verbatim, from where the interim responses end, and
/// bounded once it is stored.
pub open spec fn is_verbatim(progress: Progress, whole: Seq<u8>, max_length: Option<u64>) -> bool {
    match progress {
        Progress::Reading(buffer, body) => {
            &&& buffer == behind_interim(whole)
            &&& match body {
                None => header_end(buffer, 0) is None,
                Some(state) => is_final_section(buffer) && 0 <= state.header_end <= buffer.len()
                    && 0 <= state.offset <= buffer.len(),
            }
        },
        Progress::Finished(response, truncated) => {
            &&& is_final_section(behind_interim(whole))
            &&& response.is_prefix_of(behind_interim(whole))
            &&& max_length matches Some(cap) ==> response.len() <= cap
            &&& truncated == Some(TruncatedType::<Never>::Length) ==> max_length == Some(
                response.len() as u64,
            )
        },
        Progress::Failed(_) => true,
    }
}

pub proof fn lemma_header_end(s: Seq<u8>, from: int)
    requires
        0 <= from,
    ensures
        header_end(s, from) matches Some(end) ==> from + 4 <= end <= s.len(),
    decreases s.len() - from,
{
    if from + 4 <= s.len() {
        lemma_header_end(s, from + 1);
    }
}

/// A header section that is whole stays so with more octets behind it, and says the same.
proof fn lemma_section_stays(s: Seq<u8>, more: Seq<u8>, from: int)
    requires
        0 <= from,
        header_end(s, from) is Some,
    ensures
        header_end(s + more, from) == header_end(s, from),
    decreases s.len() - from,
{
    let all = s + more;
    assert(all[from] == s[from] && all[from + 1] == s[from + 1] && all[from + 2] == s[from + 2]
        && all[from + 3] == s[from + 3]);
    if !(s[from] == 0x0d && s[from + 1] == 0x0a && s[from + 2] == 0x0d && s[from + 3] == 0x0a) {
        lemma_section_stays(s, more, from + 1);
    }
}

/// The line break that ends a status line is found before the header section ends.
pub(crate) proof fn lemma_status_stays(s: Seq<u8>, more: Seq<u8>)
    requires
        header_end(s, 0) is Some,
    ensures
        header_end(s + more, 0) == header_end(s, 0),
        status_of(s + more) == status_of(s),
{
    lemma_section_stays(s, more, 0);
    lemma_break_is_there(s, 0);
    let end = crlf_position(s, 0);
    lemma_crlf_position(s, 0);
    let all = s + more;
    assert forall|j: int| 0 <= j < end implies !(#[trigger] all[j] == 0x0d && all[j + 1]
        == 0x0a) by {
        assert(all[j] == s[j] && all[j + 1] == s[j + 1]);
    }
    assert(all[end] == s[end] && all[end + 1] == s[end + 1]);
    lemma_crlf_position_is(all, 0, end);
    assert(all.take(end) =~= s.take(end));
}

/// Octets that hold the end of a header section hold a line break before it.
proof fn lemma_break_is_there(s: Seq<u8>, from: int)
    requires
        0 <= from,
        header_end(s, from) is Some,
    ensures
        from <= crlf_position(s, from) < s.len(),
    decreases s.len() - from,
{
    if !(s[from] == 0x0d && s[from + 1] == 0x0a) {
        lemma_break_is_there(s, from + 1);
    }
}

/// The interim responses that octets open with are told apart piece by piece.
proof fn lemma_interim_length(s: Seq<u8>, more: Seq<u8>)
    ensures
        0 <= interim_length(s) <= s.len(),
        behind_interim(s + more) == behind_interim(behind_interim(s) + more),
        is_final_section(behind_interim(s)) ==> is_final_section(behind_interim(s + more))
            && behind_interim(s + more) == behind_interim(s) + more,
    decreases s.len(),
{
    lemma_header_end(s, 0);
    if is_interim(s) {
        let end = header_end(s, 0)->0;
        lemma_status_stays(s, more);
        lemma_interim_length(s.skip(end), more);
        assert((s + more).skip(end) =~= s.skip(end) + more);
        let k = interim_length(s.skip(end));
        assert(s.skip(end + k) =~= s.skip(end).skip(k));
        let l = interim_length(s.skip(end) + more);
        lemma_interim_bounds(s.skip(end) + more);
        assert((s + more).skip(end + l) =~= (s.skip(end) + more).skip(l));
    } else {
        assert(behind_interim(s) =~= s);
        if is_final_section(s) {
            lemma_status_stays(s, more);
            assert(behind_interim(s + more) =~= s + more);
        }
    }
}

proof fn lemma_interim_bounds(s: Seq<u8>)
    ensures
        0 <= interim_length(s) <= s.len(),
    decreases s.len(),
{
    lemma_header_end(s, 0);
    if is_interim(s) {
        lemma_interim_bounds(s.skip(header_end(s, 0)->0));
    }
}

proof fn lemma_finished_is_verbatim(
    buffer: Seq<u8>,
    truncated: Option<TruncatedType>,
    max_length: Option<u64>,
    whole: Seq<u8>,
)
    requires
        is_final_section(behind_interim(whole)),
        buffer.is_prefix_of(behind_interim(whole)),
        truncated == Some(TruncatedType::<Never>::Length) ==> reaches(buffer.len(), max_length),
    ensures
        is_verbatim(finished(buffer, truncated, max_length), whole, max_length),
{
    match max_length {
        Some(cap) if buffer.len() > cap => {
            assert(buffer.take(cap as int).is_prefix_of(behind_interim(whole)));
        },
        _ => {},
    }
}

proof fn lemma_body_is_verbatim(
    buffer: Seq<u8>,
    state: BodyState,
    max_length: Option<u64>,
    whole: Seq<u8>,
)
    requires
        buffer == behind_interim(whole),
        is_final_section(buffer),
        0 <= state.header_end <= buffer.len(),
        0 <= state.offset <= buffer.len(),
    ensures
        is_verbatim(with_body(buffer, state, max_length), whole, max_length),
{
    lemma_scan_bounds(buffer, state.offset, state.stage);
    lemma_finished_is_verbatim(buffer.take(state.header_end), None, max_length, whole);
    if reaches(buffer.len(), max_length) {
        lemma_finished_is_verbatim(buffer, Some(TruncatedType::Length), max_length, whole);
    }
    match state.framing {
        BodyFraming::Length(length) => {
            if buffer.len() - state.header_end >= length {
                let end = state.header_end + length;
                lemma_finished_is_verbatim(buffer.take(end), None, max_length, whole);
            }
        },
        BodyFraming::Chunked => {
            match scan(buffer, state.offset, state.stage) {
                Scan::Complete(end) => {
                    lemma_finished_is_verbatim(buffer.take(end), None, max_length, whole);
                },
                _ => {},
            }
        },
        _ => {},
    }
}

proof fn lemma_header_is_verbatim(
    buffer: Seq<u8>,
    head_request: bool,
    max_length: Option<u64>,
    whole: Seq<u8>,
)
    requires
        behind_interim(buffer) == behind_interim(whole),
    ensures
        is_verbatim(with_header(buffer, head_request, max_length), whole, max_length),
    decreases buffer.len(),
{
    lemma_header_end(buffer, 0);
    match header_end(buffer, 0) {
        Some(end) => {
            match status_of(buffer) {
                Some(status) => {
                    if 100 <= status < 200 {
                        let rest = buffer.skip(end);
                        let k = interim_length(rest);
                        lemma_interim_bounds(rest);
                        assert(buffer.skip(end + k) =~= rest.skip(k));
                        lemma_header_is_verbatim(rest, head_request, max_length, whole);
                    } else {
                        assert(behind_interim(buffer) =~= buffer);
                        match response_framing(buffer.take(end), head_request, status) {
                            Ok(framing) => {
                                lemma_body_is_verbatim(
                                    buffer,
                                    BodyState {
                                        header_end: end,
                                        framing,
                                        offset: end,
                                        stage: ChunkStage::Size,
                                    },
                                    max_length,
                                    whole,
                                );
                            },
                            Err(_) => {},
                        }
                    }
                },
                None => {},
            }
        },
        None => {
            assert(behind_interim(buffer) =~= buffer);
        },
    }
}

/// A response is recorded verbatim: whatever the reads, what is stored opens the octets that came
/// behind the header sections of the interim responses, it is never longer than the bound, and it
/// is said to be cut at the bound only where it is as long as the bound.
pub proof fn lemma_response_is_verbatim(
    events: Seq<ReadEvent>,
    head_request: bool,
    max_length: Option<u64>,
)
    ensures
        is_verbatim(replayed(events, head_request, max_length), all_data(events), max_length),
    decreases events.len(),
{
    let whole = all_data(events);
    if events.len() == 0 {
        assert(behind_interim(whole) =~= whole);
    } else {
        lemma_response_is_verbatim(events.drop_last(), head_request, max_length);
        let before = all_data(events.drop_last());
        match replayed(events.drop_last(), head_request, max_length) {
            Progress::Reading(buffer, body) => {
                match events.last() {
                    ReadEvent::Data(data) => {
                        lemma_interim_length(before, data@);
                        match body {
                            None => {
                                lemma_header_is_verbatim(
                                    buffer + data@,
                                    head_request,
                                    max_length,
                                    whole,
                                );
                            },
                            Some(state) => {
                                lemma_body_is_verbatim(buffer + data@, state, max_length, whole);
                            },
                        }
                    },
                    _ => {
                        if body is Some {
                            lemma_finished_is_verbatim(
                                buffer,
                                Some(TruncatedType::Time),
                                max_length,
                                whole,
                            );
                            lemma_finished_is_verbatim(
                                buffer,
                                Some(TruncatedType::Disconnect),
                                max_length,
                                whole,
                            );
                            lemma_finished_is_verbatim(buffer, None, max_length, whole);
                        }
                    },
                }
            },
            Progress::Finished(response, truncated) => {
                match events.last() {
                    ReadEvent::Data(data) => {
                        lemma_interim_length(before, data@);
                    },
                    _ => {},
                }
            },
            Progress::Failed(_) => {},
        }
    }
}

/// Finds where the header section ends.
pub fn find_header_end(buffer: &[u8]) -> (r: Option<usize>)
    ensures
        match r {
            Some(end) => header_end(buffer@, 0) == Some(end as int) && 4 <= end <= buffer.len(),
            None => header_end(buffer@, 0) is None,
        },
{
    let mut i: usize = 0;
    while buffer.len() - i >= 4
        invariant
            i <= buffer.len(),
            header_end(buffer@, 0) == header_end(buffer@, i as int),
        decreases buffer.len() - i,
    {
        if buffer[i] == 0x0d && buffer[i + 1] == 0x0a && buffer[i + 2] == 0x0d && buffer[i + 3]
            == 0x0a {
            return Some(i + 4);
        }
        i = i + 1;
    }
    None
}

/// What a reader knows of the body of the response it reads.
struct Body {
    header_end: usize,
    framing: BodyFraming,
    scanner: ChunkScanner,
}

/// Reads one response verbatim.
///
/// The reader is handed what each read of the connection gives. It discards interim responses, so
/// that what it stores begins at the final status line.
pub struct ResponseReader {
    buffer: Vec<u8>,
    body: Option<Body>,
    head_request: bool,
    max_length: Option<u64>,
}

/// What a reader asks for, or what it has read.
pub enum Step {
    /// The connection is to be read again.
    Read(ResponseReader),
    /// The response is whole, or as much of it as is stored.
    Finished {
        /// The octets of the response.
        response: Vec<u8>,
        /// Why the response was truncated, if applicable.
        truncated: Option<TruncatedType>,
    },
    /// The response is malformed.
    Failed(ResponseError),
}

impl ResponseReader {
    /// How far the reading has come.
    pub closed spec fn progress(&self) -> Progress {
        Progress::Reading(
            self.buffer@,
            match self.body {
                None => None,
                Some(body) => Some(
                    (BodyState {
                        header_end: body.header_end as int,
                        framing: body.framing,
                        offset: body.scanner.offset as int,
                        stage: body.scanner.stage,
                    }),
                ),
            },
        )
    }

    /// Whether the response is to a `HEAD` request.
    pub closed spec fn is_head(&self) -> bool {
        self.head_request
    }

    /// The bound on the octets stored.
    pub closed spec fn bound(&self) -> Option<u64> {
        self.max_length
    }

    #[verifier::type_invariant]
    spec fn is_well_formed(&self) -> bool {
        match self.body {
            None => true,
            Some(body) => body.header_end <= self.buffer.len() && body.scanner.offset
                <= self.buffer.len(),
        }
    }

    /// Starts before the first octet of a response.
    pub fn new(head_request: bool, max_length: Option<u64>) -> (r: Self)
        ensures
            r.progress() == replayed(Seq::empty(), head_request, max_length),
            r.is_head() == head_request,
            r.bound() == max_length,
    {
        let r = ResponseReader { buffer: Vec::new(), body: None, head_request, max_length };
        assert(r.buffer@ =~= Seq::empty());
        r
    }

    /// Goes on with what a read of the connection gave.
    ///
    /// A close or a timeout behind the header section truncates the response and is no failure.
    pub fn receive(self, event: ReadEvent) -> (r: Step)
        ensures
            self.progress() is Reading,
            received(
                self.progress()->Reading_0,
                self.progress()->Reading_1,
                event,
                self.is_head(),
                self.bound(),
            ) == match r {
                Step::Read(next) => next.progress(),
                Step::Finished { response, truncated } => Progress::Finished(response@, truncated),
                Step::Failed(e) => Progress::Failed(e@),
            },
            r matches Step::Read(next) ==> next.is_head() == self.is_head() && next.bound()
                == self.bound(),
    {
        proof {
            use_type_invariant(&self);
        }
        let ResponseReader { buffer, body, head_request, max_length } = self;
        let mut held = buffer;
        match event {
            ReadEvent::Data(data) => {
                append(&mut held, data.as_slice());
                match body {
                    None => read_header(held, head_request, max_length),
                    Some(known) => read_body(held, known, head_request, max_length),
                }
            },
            ReadEvent::Closed => match body {
                None => Step::Failed(ResponseError::IncompleteHeaderSection),
                Some(known) => {
                    let truncated = match known.framing {
                        BodyFraming::Close => None,
                        _ => Some(TruncatedType::Disconnect),
                    };
                    finish(held, truncated, max_length)
                },
            },
            ReadEvent::TimedOut => match body {
                None => Step::Failed(ResponseError::IncompleteHeaderSection),
                Some(_) => finish(held, Some(TruncatedType::Time), max_length),
            },
        }
    }
}

/// What a step says of the progress.
spec fn step_progress(step: Step) -> Progress {
    match step {
        Step::Read(next) => next.progress(),
        Step::Finished { response, truncated } => Progress::Finished(response@, truncated),
        Step::Failed(e) => Progress::Failed(e@),
    }
}

/// Cuts the response to the bound.
fn finish(held: Vec<u8>, truncated: Option<TruncatedType>, max_length: Option<u64>) -> (r: Step)
    ensures
        step_progress(r) == finished(held@, truncated, max_length),
        !(r is Read),
{
    match max_length {
        Some(cap) => {
            if held.len() as u64 > cap {
                let mut response = held;
                response.truncate(cap as usize);
                assert(response@ =~= held@.take(cap as int));
                return Step::Finished { response, truncated: Some(TruncatedType::Length) };
            }
        },
        None => {},
    }
    Step::Finished { response: held, truncated }
}

/// Whether the octets held reach the bound.
fn reached_cap(held: &Vec<u8>, max_length: Option<u64>) -> (r: bool)
    ensures
        r == reaches(held@.len(), max_length),
{
    match max_length {
        Some(cap) => held.len() as u64 >= cap,
        None => false,
    }
}

fn read_body(held: Vec<u8>, known: Body, head_request: bool, max_length: Option<u64>) -> (r: Step)
    requires
        known.header_end <= held.len(),
        known.scanner.offset <= held.len(),
    ensures
        step_progress(r) == with_body(
            held@,
            BodyState {
                header_end: known.header_end as int,
                framing: known.framing,
                offset: known.scanner.offset as int,
                stage: known.scanner.stage,
            },
            max_length,
        ),
        r matches Step::Read(next) ==> next.is_head() == head_request && next.bound()
            == max_length,
{
    let mut held = held;
    let Body { header_end, framing, scanner } = known;
    let ghost all = held@;
    match framing {
        BodyFraming::Empty => {
            held.truncate(header_end);
            assert(held@ =~= all.take(header_end as int));
            finish(held, None, max_length)
        },
        BodyFraming::Length(length) => {
            if (held.len() - header_end) as u64 >= length {
                held.truncate(header_end + length as usize);
                assert(held@ =~= all.take(header_end + length));
                return finish(held, None, max_length);
            }
            if reached_cap(&held, max_length) {
                return finish(held, Some(TruncatedType::Length), max_length);
            }
            Step::Read(
                ResponseReader {
                    buffer: held,
                    body: Some(Body { header_end, framing, scanner }),
                    head_request,
                    max_length,
                },
            )
        },
        BodyFraming::Chunked => {
            let mut scanner = scanner;
            proof {
                lemma_scan_bounds(held@, scanner.offset as int, scanner.stage);
            }
            match scanner.advance(held.as_slice()) {
                Ok(Some(end)) => {
                    held.truncate(end);
                    assert(held@ =~= all.take(end as int));
                    finish(held, None, max_length)
                },
                Ok(None) => {
                    if reached_cap(&held, max_length) {
                        return finish(held, Some(TruncatedType::Length), max_length);
                    }
                    Step::Read(
                        ResponseReader {
                            buffer: held,
                            body: Some(Body { header_end, framing, scanner }),
                            head_request,
                            max_length,
                        },
                    )
                },
                Err(ChunkError::MalformedSize(text)) => Step::Failed(
                    ResponseError::MalformedChunkSize(text),
                ),
                Err(ChunkError::Unterminated) => Step::Failed(ResponseError::UnterminatedChunk),
            }
        },
        BodyFraming::Close => {
            if reached_cap(&held, max_length) {
                return finish(held, Some(TruncatedType::Length), max_length);
            }
            Step::Read(
                ResponseReader {
                    buffer: held,
                    body: Some(Body { header_end, framing, scanner }),
                    head_request,
                    max_length,
                },
            )
        },
    }
}

fn read_header(start: Vec<u8>, head_request: bool, max_length: Option<u64>) -> (r: Step)
    ensures
        step_progress(r) == with_header(start@, head_request, max_length),
        r matches Step::Read(next) ==> next.is_head() == head_request && next.bound()
            == max_length,
{
    let ghost all = start@;
    let mut held = start;
    let bound: u64 = match max_length {
        Some(cap) => if cap < MAX_HEADER_LENGTH {
            cap
        } else {
            MAX_HEADER_LENGTH
        },
        None => MAX_HEADER_LENGTH,
    };
    loop
        invariant
            all == start@,
            with_header(all, head_request, max_length) == with_header(
                held@,
                head_request,
                max_length,
            ),
            bound == header_bound(max_length),
        decreases held@.len(),
    {
        let end = match find_header_end(held.as_slice()) {
            Some(end) => end,
            None => {
                if held.len() as u64 > bound {
                    return Step::Failed(ResponseError::OversizedHeaderSection);
                }
                return Step::Read(
                    ResponseReader { buffer: held, body: None, head_request, max_length },
                );
            },
        };
        if end as u64 > bound {
            return Step::Failed(ResponseError::OversizedHeaderSection);
        }
        let status = match parse_status(held.as_slice()) {
            Ok(status) => status,
            Err(e) => {
                return Step::Failed(e);
            },
        };
        if 100 <= status && status < 200 {
            let ghost before = held@;
            held = held.split_off(end);
            assert(held@ =~= before.skip(end as int));
            continue ;
        }
        let section = slice_subrange(held.as_slice(), 0, end);
        assert(section@ =~= held@.take(end as int));
        let framing = match body_framing(section, head_request, status) {
            Ok(framing) => framing,
            Err(e) => {
                return Step::Failed(e);
            },
        };
        return read_body(
            held,
            Body { header_end: end, framing, scanner: ChunkScanner::new(end) },
            head_request,
            max_length,
        );
    }
}

} // verus!
