//! Finding the end of a chunked body.

use crate::octets::{
    crlf_position, find, find_crlf, hex_value, is_hex, lemma_crlf_position, lemma_crlf_position_is,
    lossy, lossy_text, parse_hex, position, trim, trimmed,
};
use vstd::prelude::*;
use vstd::slice::slice_subrange;

verus! {

/// The largest chunk size, which leaves room for the CR LF behind the data.
pub open spec fn largest_chunk() -> nat {
    (u64::MAX - 2) as nat
}

/// What a chunk-size line declares in front of its extensions.
pub open spec fn size_text(line: Seq<u8>) -> Seq<u8> {
    trimmed(line.take(position(line, 0x3b, 0)))
}

/// The chunk size that a text spells, where it spells one.
pub open spec fn chunk_size_of(text: Seq<u8>) -> Option<nat> {
    if is_hex(text) && hex_value(text) <= largest_chunk() {
        Some(hex_value(text))
    } else {
        None
    }
}

/// What a chunked body is read as next.
#[derive(Clone, Copy)]
pub enum ChunkStage {
    /// A chunk-size line.
    Size,
    /// Chunk data and the CR LF that ends it.
    Data(u64),
    /// The trailer section, which an empty line ends.
    Trailers,
}

/// Where a scan of a chunked body stops.
pub enum Scan {
    /// The body ends at this offset.
    Complete(int),
    /// The octets run out at this offset, before what is read next is whole.
    Incomplete(int, ChunkStage),
    /// This text stands in the line at this offset, where a chunk size belongs.
    MalformedSize(int, Seq<u8>),
    /// A chunk's data, which starts at this offset and is so long, is not followed by CR LF.
    Unterminated(int, u64),
}

/// Where the scan of a chunked body stops that goes on at an offset.
pub open spec fn scan(buffer: Seq<u8>, offset: int, stage: ChunkStage) -> Scan
    decreases buffer.len() - offset,
{
    if !(0 <= offset <= buffer.len()) {
        Scan::Incomplete(offset, stage)
    } else {
        match stage {
            ChunkStage::Size => {
                let end = crlf_position(buffer, offset);
                if !(offset <= end && end + 2 <= buffer.len()) {
                    Scan::Incomplete(offset, stage)
                } else {
                    let text = size_text(buffer.subrange(offset, end));
                    match chunk_size_of(text) {
                        None => Scan::MalformedSize(offset, text),
                        Some(size) => scan(
                            buffer,
                            end + 2,
                            if size == 0 {
                                ChunkStage::Trailers
                            } else {
                                ChunkStage::Data(size as u64)
                            },
                        ),
                    }
                }
            },
            ChunkStage::Data(size) => {
                let end = offset + size;
                if end + 2 > buffer.len() {
                    Scan::Incomplete(offset, stage)
                } else if buffer[end] != 0x0d || buffer[end + 1] != 0x0a {
                    Scan::Unterminated(offset, size)
                } else {
                    scan(buffer, end + 2, ChunkStage::Size)
                }
            },
            ChunkStage::Trailers => {
                let end = crlf_position(buffer, offset);
                if !(offset <= end && end + 2 <= buffer.len()) {
                    Scan::Incomplete(offset, stage)
                } else if end == offset {
                    Scan::Complete(end + 2)
                } else {
                    scan(buffer, end + 2, ChunkStage::Trailers)
                }
            },
        }
    }
}

/// A scan never stops outside of the octets it is given.
pub proof fn lemma_scan_bounds(buffer: Seq<u8>, offset: int, stage: ChunkStage)
    requires
        0 <= offset <= buffer.len(),
    ensures
        match scan(buffer, offset, stage) {
            Scan::Complete(end) => offset <= end <= buffer.len(),
            Scan::Incomplete(at, _) => offset <= at <= buffer.len(),
            Scan::MalformedSize(at, _) => offset <= at <= buffer.len(),
            Scan::Unterminated(at, size) => offset <= at && at + size + 2 <= buffer.len(),
        },
    decreases buffer.len() - offset,
{
    lemma_crlf_position(buffer, offset);
    let end = crlf_position(buffer, offset);
    match stage {
        ChunkStage::Size => {
            if end + 2 <= buffer.len() {
                match chunk_size_of(size_text(buffer.subrange(offset, end))) {
                    None => {},
                    Some(size) => {
                        lemma_scan_bounds(
                            buffer,
                            end + 2,
                            if size == 0 {
                                ChunkStage::Trailers
                            } else {
                                ChunkStage::Data(size as u64)
                            },
                        );
                    },
                }
            }
        },
        ChunkStage::Data(size) => {
            if offset + size + 2 <= buffer.len() {
                lemma_scan_bounds(buffer, offset + size + 2, ChunkStage::Size);
            }
        },
        ChunkStage::Trailers => {
            if end + 2 <= buffer.len() && end != offset {
                lemma_scan_bounds(buffer, end + 2, ChunkStage::Trailers);
            }
        },
    }
}

/// The end of a chunked body can be found in pieces: where the octets run out, a scan of more of
/// them that goes on from there stops where a scan of them all from the start does.
pub proof fn lemma_scan_resumes(
    buffer: Seq<u8>,
    more: Seq<u8>,
    offset: int,
    stage: ChunkStage,
)
    requires
        0 <= offset <= buffer.len(),
    ensures
        match scan(buffer, offset, stage) {
            Scan::Incomplete(at, then_stage) => scan(buffer + more, offset, stage) == scan(
                buffer + more,
                at,
                then_stage,
            ),
            stopped => scan(buffer + more, offset, stage) == stopped,
        },
    decreases buffer.len() - offset,
{
    let whole = buffer + more;
    lemma_crlf_position(buffer, offset);
    let end = crlf_position(buffer, offset);
    if end + 2 <= buffer.len() {
        assert forall|i: int| offset <= i < end implies !(#[trigger] whole[i] == 0x0d && whole[i + 1]
            == 0x0a) by {
            assert(whole[i] == buffer[i]);
            assert(whole[i + 1] == buffer[i + 1]);
        }
        lemma_crlf_position_is(whole, offset, end);
        assert(whole.subrange(offset, end) =~= buffer.subrange(offset, end));
    }
    match stage {
        ChunkStage::Size => {
            if end + 2 <= buffer.len() {
                match chunk_size_of(size_text(buffer.subrange(offset, end))) {
                    None => {},
                    Some(size) => {
                        lemma_scan_resumes(
                            buffer,
                            more,
                            end + 2,
                            if size == 0 {
                                ChunkStage::Trailers
                            } else {
                                ChunkStage::Data(size as u64)
                            },
                        );
                    },
                }
            }
        },
        ChunkStage::Data(size) => {
            if offset + size + 2 <= buffer.len() {
                assert(whole[offset + size] == buffer[offset + size]);
                assert(whole[offset + size + 1] == buffer[offset + size + 1]);
                lemma_scan_resumes(buffer, more, offset + size + 2, ChunkStage::Size);
            }
        },
        ChunkStage::Trailers => {
            if end + 2 <= buffer.len() && end != offset {
                lemma_scan_resumes(buffer, more, end + 2, ChunkStage::Trailers);
            }
        },
    }
}

/// What is wrong with a chunked body.
pub enum ChunkError {
    /// This text stands where a chunk size belongs.
    MalformedSize(String),
    /// A chunk's data is not followed by CR LF.
    Unterminated,
}

/// The chunk size that a text spells.
///
/// # Errors
///
/// Returns the text where it is not a hexadecimal length that leaves room for CR LF.
pub fn parse_chunk_size(text: &[u8]) -> (r: Result<u64, String>)
    ensures
        match r {
            Ok(size) => chunk_size_of(text@) == Some(size as nat),
            Err(shown) => chunk_size_of(text@) is None && shown@ == lossy_text(text@),
        },
{
    match parse_hex(text, u64::MAX - 2) {
        Some(size) => Ok(size),
        None => Err(lossy(text)),
    }
}

/// Finds the end of a chunked body piece by piece, without changing its octets.
pub struct ChunkScanner {
    /// The offset of the next octet to look at.
    pub offset: usize,
    /// What is read next.
    pub stage: ChunkStage,
}

impl ChunkScanner {
    /// Starts at the first chunk-size line.
    pub fn new(offset: usize) -> (r: Self)
        ensures
            r.offset == offset,
            r.stage == ChunkStage::Size,
    {
        ChunkScanner { offset, stage: ChunkStage::Size }
    }

    /// Looks at the octets that have come, and returns the end of the body once it is there.
    ///
    /// The scanner then stands at the end, or where it waits for more octets, or at the line or the
    /// data that is malformed.
    pub fn advance(&mut self, buffer: &[u8]) -> (r: Result<Option<usize>, ChunkError>)
        requires
            old(self).offset <= buffer.len(),
        ensures
            match scan(buffer@, old(self).offset as int, old(self).stage) {
                Scan::Complete(end) => {
                    &&& r matches Ok(Some(found))
                    &&& found == end
                    &&& end <= buffer.len()
                    &&& final(self).offset == end
                    &&& final(self).stage == ChunkStage::Trailers
                },
                Scan::Incomplete(at, stage) => {
                    &&& r matches Ok(None)
                    &&& at <= buffer.len()
                    &&& final(self).offset == at
                    &&& final(self).stage == stage
                },
                Scan::MalformedSize(at, text) => {
                    &&& r matches Err(ChunkError::MalformedSize(shown))
                    &&& shown@ == lossy_text(text)
                    &&& final(self).offset == at
                    &&& final(self).stage == ChunkStage::Size
                },
                Scan::Unterminated(at, size) => {
                    &&& r matches Err(ChunkError::Unterminated)
                    &&& final(self).offset == at
                    &&& final(self).stage == ChunkStage::Data(size)
                },
            },
    {
        let ghost start = self.offset as int;
        let ghost stage = self.stage;
        proof {
            lemma_scan_bounds(buffer@, start, stage);
        }
        loop
            invariant
                self.offset <= buffer.len(),
                scan(buffer@, start, stage) == scan(buffer@, self.offset as int, self.stage),
                start == old(self).offset,
                stage == old(self).stage,
            decreases buffer.len() - self.offset,
        {
            proof {
                lemma_crlf_position(buffer@, self.offset as int);
            }
            match self.stage {
                ChunkStage::Size => {
                    let line_end = match find_crlf(buffer, self.offset) {
                        Some(line_end) => line_end,
                        None => {
                            return Ok(None);
                        },
                    };
                    let line = slice_subrange(buffer, self.offset, line_end);
                    let text_end = find(line, 0x3b, 0);
                    let size_octets = trim(slice_subrange(line, 0, text_end));
                    assert(line@.subrange(0, text_end as int) =~= line@.take(text_end as int));
                    assert(size_octets@ == size_text(line@));
                    let size = match parse_chunk_size(size_octets) {
                        Ok(size) => size,
                        Err(shown) => {
                            return Err(ChunkError::MalformedSize(shown));
                        },
                    };
                    self.offset = line_end + 2;
                    self.stage = if size == 0 {
                        ChunkStage::Trailers
                    } else {
                        ChunkStage::Data(size)
                    };
                },
                ChunkStage::Data(size) => {
                    let held: u64 = (buffer.len() - self.offset) as u64;
                    if held < 2 || held - 2 < size {
                        return Ok(None);
                    }
                    let data_end: usize = self.offset + size as usize;
                    if buffer[data_end] != 0x0d || buffer[data_end + 1] != 0x0a {
                        return Err(ChunkError::Unterminated);
                    }
                    self.offset = data_end + 2;
                    self.stage = ChunkStage::Size;
                },
                ChunkStage::Trailers => {
                    let line_end = match find_crlf(buffer, self.offset) {
                        Some(line_end) => line_end,
                        None => {
                            return Ok(None);
                        },
                    };
                    let empty = line_end == self.offset;
                    self.offset = line_end + 2;
                    if empty {
                        return Ok(Some(line_end + 2));
                    }
                },
            }
        }
    }
}

} // verus!
