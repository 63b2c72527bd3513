//! Records whose values are read by the grammar of their field.

pub mod name;
pub mod value;

use crate::parse::raw;
use crate::parse::untyped::name::{field_named, Field, HeaderName, Named};
use crate::parse::untyped::value::{rule_for, rule_of, said, FieldValue, Said};
use crate::record::lift::is_well_formed;
use crate::record::fields::parser::{all_written, written, Written};
use crate::version::WarcVersion;
use vstd::prelude::*;

verus! {

/// A field whose value does not match its grammar.
#[derive(Clone, Debug, PartialEq, Eq)]
pub struct Error {
    /// The field.
    pub field: Field,
    /// The rule that its value did not match.
    pub source: crate::value::Error,
}

/// The header block of a record, with each value read by the grammar of its field.
#[derive(Clone, Debug)]
pub struct RecordHeader {
    /// The version that the record declares.
    pub version: WarcVersion,
    /// The header lines in order.
    pub headers: Vec<(HeaderName, FieldValue)>,
}

/// A record whose header values are read by the grammar of their field.
#[derive(Clone, Debug)]
pub struct Record {
    /// The header block.
    pub header: RecordHeader,
    /// The content block.
    pub body: Vec<u8>,
}

/// What a header line says.
pub type Entry = (Named, Said);

/// What a header line says.
pub open spec fn entry(line: (HeaderName, FieldValue)) -> Entry {
    (line.0@, line.1@)
}

/// What header lines say.
pub open spec fn entries(lines: Seq<(HeaderName, FieldValue)>) -> Seq<Entry> {
    lines.map_values(|line: (HeaderName, FieldValue)| entry(line))
}

/// The line that an entry is written as.
pub open spec fn entry_line(entry: Entry) -> Written {
    (entry.0.name, entry.1.octets)
}

/// What written lines say from line `i` on, or the first field whose value does not match its
/// grammar.
pub open spec fn read_entries(lines: Seq<Written>, i: int) -> Result<
    Seq<Entry>,
    (Field, crate::value::Fault),
>
    decreases lines.len() - i,
{
    if i < 0 || i >= lines.len() {
        Ok(Seq::empty())
    } else {
        let field = field_named(lines[i].0);
        match said(field, lines[i].1) {
            Err(fault) => Err((field->0, fault)),
            Ok(value) => match read_entries(lines, i + 1) {
                Ok(rest) => Ok(seq![(Named { field, name: lines[i].0 }, value)] + rest),
                Err(fault) => Err(fault),
            },
        }
    }
}

/// What lines say follows the rules of their fields.
pub proof fn lemma_read_entries(lines: Seq<Written>, i: int)
    requires
        read_entries(lines, i) is Ok,
    ensures
        is_well_formed(read_entries(lines, i)->Ok_0),
    decreases lines.len() - i,
{
    if 0 <= i < lines.len() {
        lemma_read_entries(lines, i + 1);
        let all = read_entries(lines, i)->Ok_0;
        let rest = read_entries(lines, i + 1)->Ok_0;
        assert forall|j: int| 0 <= j < all.len() && (#[trigger] all[j]).0.field is Some implies
            all[j].1.form is Some && rule_for(all[j].1.form->0) == rule_of(all[j].0.field->0) by {
            if j > 0 {
                assert(all[j] == rest[j - 1]);
            }
        }
    }
}

impl RecordHeader {
    /// What the header lines say.
    pub open spec fn entries(self) -> Seq<Entry> {
        entries(self.headers@)
    }

    /// Read the values of a header by the grammars of its fields.
    pub fn try_from(header: raw::RecordHeader) -> (r: Result<Self, Error>)
        ensures
            match r {
                Ok(read) => read.version == header.version && read_entries(header.lines(), 0)
                    == Ok::<Seq<Entry>, (Field, crate::value::Fault)>(read.entries())
                    && is_well_formed(read.entries()),
                Err(error) => read_entries(header.lines(), 0) == Err::<
                    Seq<Entry>,
                    (Field, crate::value::Fault),
                >((error.field, error.source@)),
            },
    {
        let ghost lines = header.lines();
        let mut headers: Vec<(HeaderName, FieldValue)> = Vec::new();
        let mut i: usize = 0;
        while i < header.headers.len()
            invariant
                i <= header.headers.len(),
                lines == header.lines(),
                read_entries(lines, 0) == (match read_entries(lines, i as int) {
                    Ok(rest) => Ok(entries(headers@) + rest),
                    Err(fault) => Err(fault),
                }),
            decreases header.headers.len() - i,
        {
            assert(lines[i as int] == written(header.headers@[i as int]));
            let name = HeaderName::as_read(header.headers[i].0.as_str());
            let field = name.field();
            match FieldValue::parse(field, header.headers[i].1.as_slice()) {
                Err(source) => match field {
                    Some(field) => {
                        return Err(Error { field, source });
                    },
                    None => {},
                },
                Ok(value) => {
                    let ghost before = headers@;
                    let ghost line = (name, value);
                    headers.push((name, value));
                    proof {
                        match read_entries(lines, i + 1) {
                            Ok(rest) => {
                                assert(entries(headers@) + rest =~= entries(before) + (seq![
                                    entry(line),
                                ] + rest));
                            },
                            Err(_) => {},
                        }
                    }
                },
            }
            i = i + 1;
        }
        proof {
            assert(entries(headers@) + Seq::empty() =~= entries(headers@));
            lemma_read_entries(lines, 0);
        }
        Ok(RecordHeader { version: header.version, headers })
    }

    /// The record that the header makes up with a content block.
    pub fn with_body(self, body: Vec<u8>) -> (r: Record)
        ensures
            r.header == self,
            r.body == body,
    {
        Record { header: self, body }
    }

    /// The header as it is written.
    pub fn into_raw(self) -> (r: raw::RecordHeader)
        ensures
            r.version == self.version,
            r.lines() == self.entries().map_values(|entry: Entry| entry_line(entry)),
    {
        let ghost all = self.entries();
        let mut left = self.headers;
        let mut headers: Vec<(String, Vec<u8>)> = Vec::new();
        let ghost mut taken: int = 0;
        assert(all.skip(0) =~= all);
        while left.len() > 0
            invariant
                0 <= taken <= all.len(),
                entries(left@) == all.skip(taken),
                all_written(headers@) == all.take(taken).map_values(
                    |entry: Entry| entry_line(entry),
                ),
            decreases left.len(),
        {
            let ghost before = left@;
            let ghost done = headers@;
            let (name, value) = left.remove(0);
            proof {
                assert(entries(before).len() == all.skip(taken).len());
                assert(entries(before)[0] == all.skip(taken)[0]);
                assert(entries(before)[0] == all[taken]);
                assert(entries(left@) =~= entries(before).skip(1));
                assert(all.skip(taken).skip(1) =~= all.skip(taken + 1));
                let view = |entry: Entry| entry_line(entry);
                assert(all.take(taken + 1).map_values(view) =~= all.take(taken).map_values(
                    view,
                ).push(entry_line(all[taken])));
                taken = taken + 1;
            }
            let line = (name.into_name(), value.into_bytes());
            headers.push(line);
            assert(all_written(headers@) =~= all_written(done).push(written(line)));
        }
        proof {
            assert(all.skip(taken).len() == 0);
            assert(all.take(taken) =~= all);
        }
        raw::RecordHeader { version: self.version, headers }
    }
}

impl Record {
    /// Read the header values of a record by the grammars of their fields.
    pub fn try_from(record: raw::Record) -> (r: Result<Self, Error>)
        ensures
            match r {
                Ok(read) => read.header.version == record.header.version && read.body
                    == record.body && read_entries(record.header.lines(), 0) == Ok::<
                    Seq<Entry>,
                    (Field, crate::value::Fault),
                >(read.header.entries()) && is_well_formed(read.header.entries()),
                Err(error) => read_entries(record.header.lines(), 0) == Err::<
                    Seq<Entry>,
                    (Field, crate::value::Fault),
                >((error.field, error.source@)),
            },
    {
        match RecordHeader::try_from(record.header) {
            Ok(header) => Ok(Record { header, body: record.body }),
            Err(error) => Err(error),
        }
    }

    /// The record as it is written.
    pub fn into_raw(self) -> (r: raw::Record)
        ensures
            r.header.version == self.header.version,
            r.header.lines() == self.header.entries().map_values(|entry: Entry| entry_line(entry)),
            r.body == self.body,
    {
        self.header.into_raw().with_body(self.body)
    }
}

} // verus!
