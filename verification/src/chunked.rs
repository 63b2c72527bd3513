//! Chunked bodies as they are written, and what the readers of chunks make of them.
//!
//! A chunked body is a sequence of chunks, each its length in hexadecimal digits on a line of its
//! own and then its data on another, closed by a chunk of length zero, trailer lines, and an empty
//! line.

use crate::octets::{
    crlf_position, hex_digit_value, hex_value, is_hex, is_hex_digit, is_white,
    lemma_crlf_position_is, lemma_position, lemma_position_is, lemma_trimmed_between,
    lemma_trimmed_same, lossy_text, position, trimmed,
};
use crate::parsing::{content_end, line_break};
use crate::record::http::is_one_line;
use crate::record::payload::{chunk_data, declared_size, opens_with_size, Fault};
use crate::recorder::chunks::{chunk_size_of, scan, size_text, ChunkStage, Scan};
use vstd::prelude::*;

verus! {

/// The hexadecimal digit of a number below sixteen, with letters in lower case.
pub open spec fn hex_digit(n: nat) -> u8 {
    if n < 10 {
        (0x30 + n) as u8
    } else {
        (0x57 + n) as u8
    }
}

/// The shortest hexadecimal spelling of a number, with letters in lower case.
pub open spec fn hex(n: nat) -> Seq<u8>
    decreases n,
{
    if n < 16 {
        seq![hex_digit(n)]
    } else {
        hex(n / 16).push(hex_digit(n % 16))
    }
}

/// Whether digits spell a number in hexadecimal, with letters in either case.
pub open spec fn are_hex_digits_of(digits: Seq<u8>, n: nat) -> bool {
    &&& digits.len() == hex(n).len()
    &&& forall|i: int|
        0 <= i < digits.len() ==> #[trigger] digits[i] == hex(n)[i] || (hex(n)[i] >= 0x61
            && digits[i] == hex(n)[i] - 0x20)
}

/// Whether octets are spaces and tabs alone.
pub open spec fn is_blank(s: Seq<u8>) -> bool {
    forall|i: int| 0 <= i < s.len() ==> #[trigger] s[i] == 0x20 || s[i] == 0x09
}

/// So many digits zero.
pub open spec fn no_value(n: nat) -> Seq<u8> {
    Seq::new(n, |i: int| 0x30u8)
}

/// The parts of a line that declares the size of a chunk.
pub ghost struct SizeLine {
    /// What stands before the digits.
    pub before: Seq<u8>,
    /// How many zeros open the digits.
    pub zeros: nat,
    /// The digits behind those.
    pub digits: Seq<u8>,
    /// What stands behind the digits.
    pub after: Seq<u8>,
    /// The extensions, with the semicolon that opens them.
    pub extensions: Seq<u8>,
}

/// Whether a line declares a size.
pub open spec fn declares(line: SizeLine, size: nat) -> bool {
    &&& is_blank(line.before)
    &&& are_hex_digits_of(line.digits, size)
    &&& is_blank(line.after)
    &&& line.extensions.len() > 0 ==> line.extensions[0] == 0x3b
    &&& is_one_line(line.extensions)
}

/// The octets of a line that declares a size.
pub open spec fn size_line(line: SizeLine) -> Seq<u8> {
    line.before + no_value(line.zeros) + line.digits + line.after + line.extensions
}

/// A chunk that is not the last.
pub ghost struct Chunk {
    /// The line that declares its size.
    pub line: SizeLine,
    /// Its data.
    pub data: Seq<u8>,
}

/// Whether a chunk declares the length of its data, and holds some.
pub open spec fn is_chunk(chunk: Chunk) -> bool {
    chunk.data.len() > 0 && declares(chunk.line, chunk.data.len())
}

/// The octets of a chunk.
pub open spec fn chunk_octets(chunk: Chunk) -> Seq<u8> {
    size_line(chunk.line) + seq![0x0du8, 0x0a] + chunk.data + seq![0x0du8, 0x0a]
}

/// The octets of chunks.
pub open spec fn chunks_octets(chunks: Seq<Chunk>) -> Seq<u8>
    decreases chunks.len(),
{
    if chunks.len() == 0 {
        Seq::empty()
    } else {
        chunk_octets(chunks[0]) + chunks_octets(chunks.skip(1))
    }
}

/// The data of chunks, joined.
pub open spec fn joined_data(chunks: Seq<Chunk>) -> Seq<u8>
    decreases chunks.len(),
{
    if chunks.len() == 0 {
        Seq::empty()
    } else {
        chunks[0].data + joined_data(chunks.skip(1))
    }
}

/// The octets of lines.
pub open spec fn lines_octets(lines: Seq<Seq<u8>>) -> Seq<u8>
    decreases lines.len(),
{
    if lines.len() == 0 {
        Seq::empty()
    } else {
        lines[0] + seq![0x0du8, 0x0a] + lines_octets(lines.skip(1))
    }
}

/// A chunked body.
pub ghost struct ChunkedBody {
    /// The chunks that hold data.
    pub chunks: Seq<Chunk>,
    /// The line that declares the last chunk, of length zero.
    pub last: SizeLine,
    /// The trailer lines.
    pub trailers: Seq<Seq<u8>>,
}

/// Whether a chunked body is well-formed, with chunks no longer than a bound.
pub open spec fn is_chunked_body(body: ChunkedBody, bound: nat) -> bool {
    &&& forall|i: int| 0 <= i < body.chunks.len() ==> is_chunk(#[trigger] body.chunks[i])
    &&& forall|i: int| 0 <= i < body.chunks.len() ==> #[trigger] body.chunks[i].data.len() <= bound
    &&& declares(body.last, 0)
    &&& forall|i: int|
        0 <= i < body.trailers.len() ==> #[trigger] body.trailers[i].len() > 0 && is_one_line(
            body.trailers[i],
        )
}

/// The octets of a chunked body.
pub open spec fn chunked_octets(body: ChunkedBody) -> Seq<u8> {
    chunks_octets(body.chunks) + size_line(body.last) + seq![0x0du8, 0x0a] + lines_octets(
        body.trailers,
    ) + seq![0x0du8, 0x0a]
}

/// The digits that spell a number are hexadecimal, and have it as their value.
proof fn lemma_hex(digits: Seq<u8>, n: nat)
    requires
        are_hex_digits_of(digits, n),
    ensures
        is_hex(digits),
        hex_value(digits) == n,
    decreases n,
{
    lemma_hex_length(n);
    let last = digits.last();
    assert(digits[digits.len() - 1] == last);
    if n < 16 {
        assert(digits.drop_last().len() == 0);
        assert(hex_value(digits.drop_last()) == 0);
        assert(hex_value(digits) == hex_digit_value(last));
        assert(is_hex_digit(digits[0]));
    } else {
        let shorter = digits.drop_last();
        assert forall|i: int| 0 <= i < shorter.len() implies #[trigger] shorter[i] == hex(
            n / 16,
        )[i] || (hex(n / 16)[i] >= 0x61 && shorter[i] == hex(n / 16)[i] - 0x20) by {
            assert(shorter[i] == digits[i]);
            assert(hex(n)[i] == hex(n / 16)[i]);
        }
        lemma_hex(shorter, n / 16);
        assert(hex(n).last() == hex_digit(n % 16));
        assert(hex_digit_value(last) == n % 16);
        assert forall|i: int| 0 <= i < digits.len() implies is_hex_digit(#[trigger] digits[i]) by {
            if i < shorter.len() {
                assert(is_hex_digit(shorter[i]));
            }
        }
    }
}

proof fn lemma_hex_length(n: nat)
    ensures
        hex(n).len() > 0,
    decreases n,
{
    if n >= 16 {
        lemma_hex_length(n / 16);
    }
}

/// Zeros before digits leave their value as it is.
proof fn lemma_zeros_before(zeros: nat, digits: Seq<u8>)
    requires
        is_hex(digits),
    ensures
        is_hex(no_value(zeros) + digits),
        hex_value(no_value(zeros) + digits) == hex_value(digits),
    decreases digits.len(),
{
    let all = no_value(zeros) + digits;
    assert forall|i: int| 0 <= i < all.len() implies is_hex_digit(#[trigger] all[i]) by {
        if i >= zeros {
            assert(is_hex_digit(digits[i - zeros]));
        }
    }
    lemma_zeros_value(zeros, digits);
}

proof fn lemma_zeros_value(zeros: nat, digits: Seq<u8>)
    ensures
        hex_value(no_value(zeros) + digits) == hex_value(digits),
    decreases zeros, digits.len(),
{
    let all = no_value(zeros) + digits;
    if digits.len() > 0 {
        lemma_zeros_value(zeros, digits.drop_last());
        assert(all.drop_last() =~= no_value(zeros) + digits.drop_last());
    } else if zeros > 0 {
        lemma_zeros_value((zeros - 1) as nat, digits);
        assert(all.drop_last() =~= no_value((zeros - 1) as nat) + digits);
        assert(all.last() == 0x30);
    } else {
        assert(all =~= digits);
    }
}

/// The digits of a line that declares a size are what stands before its extensions.
proof fn lemma_size_line(line: SizeLine, size: nat)
    requires
        declares(line, size),
    ensures
        is_one_line(size_line(line)),
        ({
            let digits = trimmed(size_line(line).take(position(size_line(line), 0x3b, 0)));
            is_hex(digits) && hex_value(digits) == size
        }),
{
    let all = size_line(line);
    lemma_hex(line.digits, size);
    lemma_zeros_before(line.zeros, line.digits);
    let digits = no_value(line.zeros) + line.digits;
    let text = line.before + digits + line.after;
    assert(all =~= text + line.extensions);
    assert forall|i: int| 0 <= i < text.len() implies #[trigger] text[i] != 0x0a && text[i] != 0x0d
        && text[i] != 0x3b by {
        if i < line.before.len() {
            assert(text[i] == line.before[i]);
        } else if i < line.before.len() + digits.len() {
            assert(text[i] == digits[i - line.before.len()]);
            assert(is_hex_digit(digits[i - line.before.len()]));
        } else {
            assert(text[i] == line.after[i - line.before.len() - digits.len()]);
        }
    }
    assert forall|i: int| 0 <= i < all.len() implies #[trigger] all[i] != 0x0a && all[i] != 0x0d by {
        if i < text.len() {
            assert(all[i] == text[i]);
        } else {
            assert(all[i] == line.extensions[i - text.len()]);
        }
    }
    assert forall|i: int| 0 <= i < text.len() implies #[trigger] all[i] != 0x3b by {
        assert(all[i] == text[i]);
    }
    if line.extensions.len() > 0 {
        assert(all[text.len() as int] == line.extensions[0]);
    }
    lemma_position_is(all, 0x3b, 0, text.len() as int);
    assert(all.take(text.len() as int) =~= text);
    assert forall|i: int| 0 <= i < line.before.len() implies is_white(#[trigger] line.before[i]) by {
    }
    assert forall|i: int| 0 <= i < line.after.len() implies is_white(#[trigger] line.after[i]) by {
    }
    assert(is_hex_digit(digits[0]) && is_hex_digit(digits[digits.len() - 1]));
    lemma_trimmed_between(line.before, digits, line.after);
}

/// The first line break behind `before` is the one that ends the line there.
proof fn lemma_line(before: Seq<u8>, line: Seq<u8>, after: Seq<u8>)
    requires
        is_one_line(line),
    ensures
        ({
            let all = before + line + seq![0x0du8, 0x0a] + after;
            let at = before.len() as int;
            &&& crlf_position(all, at) == at + line.len()
            &&& line_break(all, at) == at + line.len() + 1
            &&& content_end(all, at) == at + line.len()
            &&& all.subrange(at, at + line.len()) == line
        }),
{
    let all = before + line + seq![0x0du8, 0x0a] + after;
    let at = before.len() as int;
    let end = at + line.len();
    assert forall|i: int| at <= i < end implies #[trigger] all[i] != 0x0a && all[i] != 0x0d by {
        assert(all[i] == line[i - at]);
    }
    assert(all[end] == 0x0d && all[end + 1] == 0x0a);
    lemma_crlf_position_is(all, at, end);
    lemma_position_is(all, 0x0a, at, end + 1);
    assert(all.subrange(at, end) =~= line);
}

/// A scan finds the end of a chunked body exactly: behind its trailer section, whatever octets
/// stand before it and behind it.
pub proof fn lemma_scan_finds_the_end(before: Seq<u8>, body: ChunkedBody, after: Seq<u8>)
    requires
        is_chunked_body(body, (u64::MAX - 2) as nat),
    ensures
        scan(before + chunked_octets(body) + after, before.len() as int, ChunkStage::Size)
            == Scan::Complete((before + chunked_octets(body)).len() as int),
    decreases body.chunks.len(),
{
    let all = before + chunked_octets(body) + after;
    let at = before.len() as int;
    if body.chunks.len() == 0 {
        let line = size_line(body.last);
        lemma_size_line(body.last, 0);
        let rest = lines_octets(body.trailers) + seq![0x0du8, 0x0a];
        assert(all =~= before + line + seq![0x0du8, 0x0a] + (rest + after));
        lemma_line(before, line, rest + after);
        let walked = before + line + seq![0x0du8, 0x0a];
        assert(chunk_size_of(size_text(line)) == Some(0nat));
        lemma_scan_passes_trailers(walked, body.trailers, after);
        assert(all =~= walked + rest + after);
        assert(before + chunked_octets(body) =~= walked + rest);
    } else {
        let chunk = body.chunks[0];
        let rest = ChunkedBody { chunks: body.chunks.skip(1), ..body };
        assert(is_chunk(chunk));
        assert forall|i: int| 0 <= i < rest.chunks.len() implies is_chunk(#[trigger] rest.chunks[i])
            && rest.chunks[i].data.len() <= u64::MAX - 2 by {
            assert(rest.chunks[i] == body.chunks[i + 1]);
        }
        lemma_opens_with_chunk(body);
        let walked = before + chunk_octets(chunk);
        assert(all =~= before + chunk_octets(chunk) + (chunked_octets(rest) + after));
        assert(all =~= walked + chunked_octets(rest) + after);
        assert(before + chunked_octets(body) =~= walked + chunked_octets(rest));
        lemma_scan_passes_chunk(before, chunk, chunked_octets(rest) + after);
        lemma_scan_finds_the_end(walked, rest, after);
    }
}

/// A chunked body that holds data opens with its first chunk.
proof fn lemma_opens_with_chunk(body: ChunkedBody)
    requires
        body.chunks.len() > 0,
    ensures
        chunked_octets(body) == chunk_octets(body.chunks[0]) + chunked_octets(
            (ChunkedBody { chunks: body.chunks.skip(1), ..body }),
        ),
{
    let rest = ChunkedBody { chunks: body.chunks.skip(1), ..body };
    assert(chunked_octets(body) =~= chunk_octets(body.chunks[0]) + chunked_octets(rest));
}

proof fn lemma_scan_passes_chunk(before: Seq<u8>, chunk: Chunk, after: Seq<u8>)
    requires
        is_chunk(chunk),
        chunk.data.len() <= u64::MAX - 2,
    ensures
        scan(before + chunk_octets(chunk) + after, before.len() as int, ChunkStage::Size) == scan(
            before + chunk_octets(chunk) + after,
            (before + chunk_octets(chunk)).len() as int,
            ChunkStage::Size,
        ),
{
    let all = before + chunk_octets(chunk) + after;
    let at = before.len() as int;
    let line = size_line(chunk.line);
    let size = chunk.data.len();
    lemma_size_line(chunk.line, size);
    let behind = chunk.data + seq![0x0du8, 0x0a] + after;
    assert(all =~= before + line + seq![0x0du8, 0x0a] + behind);
    lemma_line(before, line, behind);
    assert(chunk_size_of(size_text(line)) == Some(size));
    let start = at + line.len() + 2;
    assert(all[start + size] == 0x0d && all[start + size + 1] == 0x0a);
    assert(scan(all, at, ChunkStage::Size) == scan(all, start, ChunkStage::Data(size as u64)));
    assert(scan(all, start, ChunkStage::Data(size as u64)) == scan(
        all,
        start + size + 2,
        ChunkStage::Size,
    ));
}

proof fn lemma_scan_passes_trailers(before: Seq<u8>, trailers: Seq<Seq<u8>>, after: Seq<u8>)
    requires
        forall|i: int|
            0 <= i < trailers.len() ==> #[trigger] trailers[i].len() > 0 && is_one_line(
                trailers[i],
            ),
    ensures
        ({
            let rest = lines_octets(trailers) + seq![0x0du8, 0x0a];
            scan(before + rest + after, before.len() as int, ChunkStage::Trailers)
                == Scan::Complete((before + rest).len() as int)
        }),
    decreases trailers.len(),
{
    let rest = lines_octets(trailers) + seq![0x0du8, 0x0a];
    let all = before + rest + after;
    if trailers.len() == 0 {
        let none = Seq::<u8>::empty();
        assert(all =~= before + none + seq![0x0du8, 0x0a] + after);
        lemma_line(before, none, after);
    } else {
        let line = trailers[0];
        let others = trailers.skip(1);
        assert forall|i: int| 0 <= i < others.len() implies #[trigger] others[i].len() > 0
            && is_one_line(others[i]) by {
            assert(others[i] == trailers[i + 1]);
        }
        let fewer = lines_octets(others) + seq![0x0du8, 0x0a];
        assert(all =~= before + line + seq![0x0du8, 0x0a] + (fewer + after));
        lemma_line(before, line, fewer + after);
        let walked = before + line + seq![0x0du8, 0x0a];
        assert(all =~= walked + fewer + after);
        assert(before + rest =~= walked + fewer);
        lemma_scan_passes_trailers(walked, others, after);
    }
}

/// Dechunking undoes chunking: the data of a chunked body is that of its chunks, joined, whatever
/// octets stand before it and behind it.
pub proof fn lemma_data_is_joined(before: Seq<u8>, body: ChunkedBody, after: Seq<u8>)
    requires
        is_chunked_body(body, usize::MAX as nat),
    ensures
        chunk_data(before + chunked_octets(body) + after, before.len() as int) == Ok::<
            Seq<u8>,
            Fault,
        >(joined_data(body.chunks)),
    decreases body.chunks.len(),
{
    let all = before + chunked_octets(body) + after;
    let at = before.len() as int;
    if body.chunks.len() == 0 {
        let line = size_line(body.last);
        lemma_size_line(body.last, 0);
        let rest = lines_octets(body.trailers) + seq![0x0du8, 0x0a] + after;
        assert(all =~= before + line + seq![0x0du8, 0x0a] + rest);
        lemma_line(before, line, rest);
        assert(declared_size(line) == Some(0nat));
    } else {
        let chunk = body.chunks[0];
        let rest = ChunkedBody { chunks: body.chunks.skip(1), ..body };
        assert(is_chunk(chunk));
        assert forall|i: int| 0 <= i < rest.chunks.len() implies is_chunk(#[trigger] rest.chunks[i])
            && rest.chunks[i].data.len() <= usize::MAX by {
            assert(rest.chunks[i] == body.chunks[i + 1]);
        }
        lemma_opens_with_chunk(body);
        let walked = before + chunk_octets(chunk);
        assert(all =~= before + chunk_octets(chunk) + (chunked_octets(rest) + after));
        assert(all =~= walked + chunked_octets(rest) + after);
        lemma_data_of_chunk(before, chunk, chunked_octets(rest) + after);
        lemma_data_is_joined(walked, rest, after);
    }
}

proof fn lemma_data_of_chunk(before: Seq<u8>, chunk: Chunk, after: Seq<u8>)
    requires
        is_chunk(chunk),
        chunk.data.len() <= usize::MAX,
    ensures
        ({
            let all = before + chunk_octets(chunk) + after;
            chunk_data(all, before.len() as int) == match chunk_data(
                all,
                (before + chunk_octets(chunk)).len() as int,
            ) {
                Ok(rest) => Ok(chunk.data + rest),
                Err(fault) => Err(fault),
            }
        }),
{
    let all = before + chunk_octets(chunk) + after;
    let at = before.len() as int;
    let line = size_line(chunk.line);
    let size = chunk.data.len();
    lemma_size_line(chunk.line, size);
    let behind = chunk.data + seq![0x0du8, 0x0a] + after;
    assert(all =~= before + line + seq![0x0du8, 0x0a] + behind);
    lemma_line(before, line, behind);
    assert(declared_size(line) == Some(size));
    let start = at + line.len() + 2;
    let held = before + line + seq![0x0du8, 0x0a] + chunk.data;
    let none = Seq::<u8>::empty();
    assert(all =~= held + none + seq![0x0du8, 0x0a] + after);
    lemma_line(held, none, after);
    assert(all.subrange(start, start + size) =~= chunk.data);
}

/// A chunked body opens with a line that declares a size.
pub proof fn lemma_opens_with_size(body: ChunkedBody, after: Seq<u8>)
    requires
        is_chunked_body(body, usize::MAX as nat),
    ensures
        opens_with_size(chunked_octets(body) + after),
{
    let all = chunked_octets(body) + after;
    let none = Seq::<u8>::empty();
    let (line, size) = if body.chunks.len() == 0 {
        (body.last, 0)
    } else {
        assert(is_chunk(body.chunks[0]));
        (body.chunks[0].line, body.chunks[0].data.len())
    };
    lemma_size_line(line, size);
    let first = size_line(line);
    assert(first + seq![0x0du8, 0x0a] =~= all.take(first.len() + 2int));
    let rest = all.skip(first.len() + 2int);
    assert(all =~= none + first + seq![0x0du8, 0x0a] + rest);
    lemma_line(none, first, rest);
}

/// Whether chunks are well-formed and no longer than a bound.
pub open spec fn are_chunks(chunks: Seq<Chunk>, bound: nat) -> bool {
    forall|i: int|
        0 <= i < chunks.len() ==> is_chunk(#[trigger] chunks[i]) && chunks[i].data.len() <= bound
}

proof fn lemma_opens_with_first(chunks: Seq<Chunk>, after: Seq<u8>)
    requires
        chunks.len() > 0,
    ensures
        chunks_octets(chunks) + after == chunk_octets(chunks[0]) + (chunks_octets(chunks.skip(1))
            + after),
{
    assert(chunks_octets(chunks) + after =~= chunk_octets(chunks[0]) + (chunks_octets(
        chunks.skip(1),
    ) + after));
}

/// A scan passes over the chunks of a body.
proof fn lemma_scan_passes_chunks(before: Seq<u8>, chunks: Seq<Chunk>, after: Seq<u8>)
    requires
        are_chunks(chunks, (u64::MAX - 2) as nat),
    ensures
        ({
            let all = before + (chunks_octets(chunks) + after);
            scan(all, before.len() as int, ChunkStage::Size) == scan(
                all,
                before.len() + chunks_octets(chunks).len() as int,
                ChunkStage::Size,
            )
        }),
    decreases chunks.len(),
{
    let all = before + (chunks_octets(chunks) + after);
    if chunks.len() > 0 {
        let chunk = chunks[0];
        let rest = chunks.skip(1);
        assert(is_chunk(chunk));
        assert forall|i: int| 0 <= i < rest.len() implies is_chunk(#[trigger] rest[i])
            && rest[i].data.len() <= u64::MAX - 2 by {
            assert(rest[i] == chunks[i + 1]);
        }
        lemma_opens_with_first(chunks, after);
        let behind = chunks_octets(rest) + after;
        let walked = before + chunk_octets(chunk);
        assert(all =~= walked + behind);
        lemma_scan_passes_chunk(before, chunk, behind);
        lemma_scan_passes_chunks(walked, rest, after);
    }
}

/// What is wrong behind chunks is what is wrong with a body.
proof fn lemma_data_passes_chunks(before: Seq<u8>, chunks: Seq<Chunk>, after: Seq<u8>)
    requires
        are_chunks(chunks, usize::MAX as nat),
    ensures
        ({
            let all = before + (chunks_octets(chunks) + after);
            chunk_data(all, before.len() + chunks_octets(chunks).len() as int) matches Err(fault)
                ==> chunk_data(all, before.len() as int) == Err::<Seq<u8>, Fault>(fault)
        }),
    decreases chunks.len(),
{
    let all = before + (chunks_octets(chunks) + after);
    if chunks.len() > 0 {
        let chunk = chunks[0];
        let rest = chunks.skip(1);
        assert(is_chunk(chunk));
        assert forall|i: int| 0 <= i < rest.len() implies is_chunk(#[trigger] rest[i])
            && rest[i].data.len() <= usize::MAX by {
            assert(rest[i] == chunks[i + 1]);
        }
        lemma_opens_with_first(chunks, after);
        let behind = chunks_octets(rest) + after;
        let walked = before + chunk_octets(chunk);
        assert(all =~= walked + behind);
        lemma_data_of_chunk(before, chunk, behind);
        lemma_data_passes_chunks(walked, rest, after);
    }
}

/// Whether a word stands where a chunk size belongs but is none: it is visible, and not all of it
/// is hexadecimal digits.
pub open spec fn is_no_size(word: Seq<u8>) -> bool {
    &&& forall|i: int|
        0 <= i < word.len() ==> 0x21 <= #[trigger] word[i] <= 0x7e && word[i] != 0x3b
    &&& exists|i: int|
        0 <= i < word.len() && !(0x30 <= #[trigger] word[i] <= 0x39) && !(0x61 <= word[i] <= 0x66)
            && !(0x41 <= word[i] <= 0x46)
}

proof fn lemma_no_size(word: Seq<u8>, extensions: Seq<u8>)
    requires
        is_no_size(word),
        extensions.len() > 0 ==> extensions[0] == 0x3b,
        is_one_line(extensions),
    ensures
        size_text(word + extensions) == word,
        chunk_size_of(word) is None,
        declared_size(word + extensions) is None,
        is_one_line(word + extensions),
{
    let line = word + extensions;
    let n = word.len() as int;
    assert forall|i: int| 0 <= i < n implies #[trigger] line[i] != 0x3b by {
        assert(line[i] == word[i]);
    }
    if extensions.len() > 0 {
        assert(line[n] == 0x3b);
    }
    lemma_position_is(line, 0x3b, 0, n);
    assert(line.take(n) =~= word);
    let i = choose|i: int|
        0 <= i < word.len() && !(0x30 <= #[trigger] word[i] <= 0x39) && !(0x61 <= word[i] <= 0x66)
            && !(0x41 <= word[i] <= 0x46);
    assert(!is_hex_digit(word[i]));
    assert(0x21 <= word[0] <= 0x7e && 0x21 <= word[n - 1] <= 0x7e);
    lemma_trimmed_same(word);
    assert forall|j: int| 0 <= j < line.len() implies #[trigger] line[j] != 0x0a && line[j]
        != 0x0d by {
        if j < n {
            assert(line[j] == word[j]);
        } else {
            assert(line[j] == extensions[j - n]);
        }
    }
}

/// A word that is no size, where the size of a chunk belongs, is found behind the chunks before it,
/// and no data is given.
pub proof fn lemma_wrong_size_is_found(
    before: Seq<u8>,
    chunks: Seq<Chunk>,
    word: Seq<u8>,
    extensions: Seq<u8>,
    after: Seq<u8>,
)
    requires
        is_no_size(word),
        extensions.len() > 0 ==> extensions[0] == 0x3b,
        is_one_line(extensions),
    ensures
        ({
            let all = before + (chunks_octets(chunks) + (word + extensions + seq![0x0du8, 0x0a]
                + after));
            let at = before.len() + chunks_octets(chunks).len() as int;
            &&& are_chunks(chunks, (u64::MAX - 2) as nat) ==> scan(
                all,
                before.len() as int,
                ChunkStage::Size,
            ) == Scan::MalformedSize(at, word)
            &&& are_chunks(chunks, usize::MAX as nat) ==> chunk_data(all, before.len() as int)
                == Err::<Seq<u8>, Fault>(Fault::MalformedChunkSize(lossy_text(word + extensions)))
        }),
{
    let line = word + extensions;
    let tail = line + seq![0x0du8, 0x0a] + after;
    let all = before + (chunks_octets(chunks) + tail);
    let passed = before + chunks_octets(chunks);
    lemma_no_size(word, extensions);
    assert(all =~= passed + line + seq![0x0du8, 0x0a] + after);
    lemma_line(passed, line, after);
    if are_chunks(chunks, (u64::MAX - 2) as nat) {
        lemma_scan_passes_chunks(before, chunks, tail);
    }
    if are_chunks(chunks, usize::MAX as nat) {
        lemma_data_passes_chunks(before, chunks, tail);
    }
}

/// Data that no line break ends where its chunk does makes a body malformed, and no data is given.
#[verifier::spinoff_prover]
pub proof fn lemma_chunk_is_ended(
    before: Seq<u8>,
    chunks: Seq<Chunk>,
    chunk: Chunk,
    after: Seq<u8>,
)
    requires
        is_chunk(chunk),
        chunk.data.len() <= u64::MAX - 2,
        after.len() >= 2,
        after[0] != 0x0d || after[1] != 0x0a,
    ensures
        ({
            let line = size_line(chunk.line) + seq![0x0du8, 0x0a];
            let all = before + (chunks_octets(chunks) + (line + chunk.data + after));
            let at = before.len() + chunks_octets(chunks).len() + line.len() as int;
            &&& are_chunks(chunks, (u64::MAX - 2) as nat) ==> scan(
                all,
                before.len() as int,
                ChunkStage::Size,
            ) == Scan::Unterminated(at, chunk.data.len() as u64)
            &&& are_chunks(chunks, usize::MAX as nat) && chunk.data.len() <= usize::MAX && after[0]
                != 0x0a ==> chunk_data(all, before.len() as int) == Err::<Seq<u8>, Fault>(
                Fault::IncompleteChunkedBody,
            )
        }),
{
    let first = size_line(chunk.line);
    let line = first + seq![0x0du8, 0x0a];
    let size = chunk.data.len();
    let tail = line + chunk.data + after;
    let all = before + (chunks_octets(chunks) + tail);
    let passed = before + chunks_octets(chunks);
    let at = passed.len() as int;
    lemma_size_line(chunk.line, size);
    let behind = chunk.data + after;
    assert(all =~= passed + first + seq![0x0du8, 0x0a] + behind);
    lemma_line(passed, first, behind);
    let start = at + first.len() + 2;
    assert(all[start + size] == after[0] && all[start + size + 1] == after[1]);
    if are_chunks(chunks, (u64::MAX - 2) as nat) {
        lemma_scan_passes_chunks(before, chunks, tail);
        assert(chunk_size_of(size_text(first)) == Some(size));
        assert(scan(all, at, ChunkStage::Size) == scan(all, start, ChunkStage::Data(size as u64)));
    }
    if are_chunks(chunks, usize::MAX as nat) && size <= usize::MAX && after[0] != 0x0a {
        lemma_data_passes_chunks(before, chunks, tail);
        assert(declared_size(first) == Some(size));
        lemma_position(all, 0x0a, start + size);
        assert(chunk_data(all, at) == Err::<Seq<u8>, Fault>(Fault::IncompleteChunkedBody));
    }
}

/// A chunk that the octets end within makes a body incomplete, and no data is given.
#[verifier::spinoff_prover]
pub proof fn lemma_chunk_is_whole(before: Seq<u8>, chunks: Seq<Chunk>, chunk: Chunk, kept: int)
    requires
        is_chunk(chunk),
        chunk.data.len() <= u64::MAX - 2,
        0 <= kept <= chunk.data.len(),
    ensures
        ({
            let line = size_line(chunk.line) + seq![0x0du8, 0x0a];
            let all = before + (chunks_octets(chunks) + (line + chunk.data.take(kept)));
            let at = before.len() + chunks_octets(chunks).len() + line.len() as int;
            &&& are_chunks(chunks, (u64::MAX - 2) as nat) ==> scan(
                all,
                before.len() as int,
                ChunkStage::Size,
            ) == Scan::Incomplete(at, ChunkStage::Data(chunk.data.len() as u64))
            &&& are_chunks(chunks, usize::MAX as nat) && chunk.data.len() <= usize::MAX
                ==> chunk_data(all, before.len() as int) == Err::<Seq<u8>, Fault>(
                Fault::IncompleteChunkedBody,
            )
        }),
{
    let first = size_line(chunk.line);
    let line = first + seq![0x0du8, 0x0a];
    let size = chunk.data.len();
    let part = chunk.data.take(kept);
    let tail = line + part;
    let all = before + (chunks_octets(chunks) + tail);
    let passed = before + chunks_octets(chunks);
    let at = passed.len() as int;
    lemma_size_line(chunk.line, size);
    assert(all =~= passed + first + seq![0x0du8, 0x0a] + part);
    lemma_line(passed, first, part);
    let start = at + first.len() + 2;
    if are_chunks(chunks, (u64::MAX - 2) as nat) {
        lemma_scan_passes_chunks(before, chunks, tail);
        assert(chunk_size_of(size_text(first)) == Some(size));
        assert(scan(all, at, ChunkStage::Size) == scan(all, start, ChunkStage::Data(size as u64)));
    }
    if are_chunks(chunks, usize::MAX as nat) && size <= usize::MAX {
        lemma_data_passes_chunks(before, chunks, tail);
        assert(declared_size(first) == Some(size));
        if start + size <= all.len() {
            lemma_position(all, 0x0a, start + size);
        }
        assert(chunk_data(all, at) == Err::<Seq<u8>, Fault>(Fault::IncompleteChunkedBody));
    }
}

} // verus!
