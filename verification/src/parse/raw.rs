//! Records as they stand in a file: header lines with their spelling and a block.

use crate::octets::{octets, same_but_for_case};
use crate::record::extension::same_name;
use crate::record::fields::parser::{all_written, written, Written};
use crate::text::same_ignoring_case;
use crate::version::WarcVersion;
use vstd::prelude::*;

verus! {

/// The header block of a record as it is written.
#[derive(Clone, Debug, PartialEq, Eq)]
pub struct RecordHeader {
    /// The version that the record declares.
    pub version: WarcVersion,
    /// The header lines in order: each name as it is spelled, and the octets behind its colon.
    pub headers: Vec<(String, Vec<u8>)>,
}

/// A record as it is written.
#[derive(Clone, Debug, PartialEq, Eq)]
pub struct Record {
    /// The header block.
    pub header: RecordHeader,
    /// The content block.
    pub body: Vec<u8>,
}

/// The first line from `i` on with a name, whatever its case.
pub open spec fn first_line(lines: Seq<Written>, name: Seq<char>, i: int) -> Option<Seq<u8>>
    decreases lines.len() - i,
{
    if i < 0 || i >= lines.len() {
        None
    } else if same_name(lines[i].0, name) {
        Some(lines[i].1)
    } else {
        first_line(lines, name, i + 1)
    }
}

impl RecordHeader {
    /// The lines of the header.
    pub open spec fn lines(self) -> Seq<Written> {
        all_written(self.headers@)
    }

    /// The octets behind the colon of the first line with a name, whatever its case.
    pub fn get(&self, name: &str) -> (r: Option<&[u8]>)
        ensures
            match r {
                Some(value) => first_line(self.lines(), name@, 0) == Some(value@),
                None => first_line(self.lines(), name@, 0) is None,
            },
    {
        let mut i: usize = 0;
        while i < self.headers.len()
            invariant
                i <= self.headers.len(),
                first_line(self.lines(), name@, 0) == first_line(self.lines(), name@, i as int),
            decreases self.headers.len() - i,
        {
            assert(self.lines()[i as int] == written(self.headers@[i as int]));
            if same_ignoring_case(self.headers[i].0.as_str(), name) {
                return Some(self.headers[i].1.as_slice());
            }
            i = i + 1;
        }
        None
    }

    /// The record that the header makes up with a content block.
    pub fn with_body(self, body: Vec<u8>) -> (r: Record)
        ensures
            r.header == self,
            r.body == body,
    {
        Record { header: self, body }
    }
}

impl Record {
    /// The length of the content block.
    pub fn content_length(&self) -> (r: u64)
        ensures
            r == self.body.len(),
    {
        self.body.len() as u64
    }
}

/// The first line whose name differs from a name in the case of letters alone is the one that is
/// found under it, and none is found where there is no such line.
pub proof fn lemma_first_line_is_found(lines: Seq<Written>, name: Seq<char>, at: int)
    requires
        0 <= at <= lines.len(),
        forall|i: int|
            0 <= i < at ==> !same_but_for_case(octets((#[trigger] lines[i]).0), octets(name)),
        at < lines.len() ==> same_but_for_case(octets(lines[at].0), octets(name)),
    ensures
        first_line(lines, name, 0) == if at < lines.len() {
            Some(lines[at].1)
        } else {
            None
        },
{
    lemma_first_line_from(lines, name, 0, at);
}

proof fn lemma_first_line_from(lines: Seq<Written>, name: Seq<char>, from: int, at: int)
    requires
        0 <= from <= at <= lines.len(),
        forall|i: int|
            0 <= i < at ==> !same_but_for_case(octets((#[trigger] lines[i]).0), octets(name)),
        at < lines.len() ==> same_but_for_case(octets(lines[at].0), octets(name)),
    ensures
        first_line(lines, name, from) == if at < lines.len() {
            Some(lines[at].1)
        } else {
            None
        },
    decreases at - from,
{
    if from < at {
        assert(!same_but_for_case(octets(lines[from].0), octets(name)));
        lemma_first_line_from(lines, name, from + 1, at);
    }
}

} // verus!
