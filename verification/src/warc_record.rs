//! Records as a stream of them is read and written: a version, fields that are kept by name, and a
//! body.

use crate::octets::{
    ascii_string, ascii_text, copied, decimal, decimal_value, equal_ignoring_case, is_ascii,
    is_decimal, is_digit, lemma_ascii_text, lemma_decimal, lossy, lossy_text, lowered, octets,
    parse_decimal, same_but_for_case, to_lowered, trim, trimmed,
};
use crate::record::fields::parser::{unfold, unfolded, Written};
use crate::text::same_text;
use crate::value::date::date_of;
use crate::value::WarcDate;
use crate::version::WarcVersion;
use vstd::prelude::*;
use vstd::string::*;

verus! {

/// Errors returned while reading or writing a stream of records.
#[derive(Clone, Debug, Eq, PartialEq)]
pub enum Error {
    /// A header block, or what ends a record, does not match the grammar from these octets on.
    ParseHeaders(Vec<u8>),
    /// A required field is missing.
    MissingHeader(String),
    /// A field's value is malformed.
    MalformedHeader(String, String),
    /// A version cannot be written.
    MalformedVersion(String),
    /// A body is longer than its header declares.
    ReadOverflow,
    /// The stream ends within a record.
    UnexpectedEOB,
}

/// What an [`Error`] says.
pub ghost enum Fault {
    /// The grammar is not matched.
    ParseHeaders(Seq<u8>),
    /// A field is missing.
    MissingHeader(Seq<char>),
    /// A value is malformed.
    MalformedHeader(Seq<char>, Seq<char>),
    /// A version is malformed.
    MalformedVersion(Seq<char>),
    /// A body is too long.
    ReadOverflow,
    /// The stream ends.
    UnexpectedEOB,
}

impl View for Error {
    type V = Fault;

    open spec fn view(&self) -> Fault {
        match self {
            Error::ParseHeaders(input) => Fault::ParseHeaders(input@),
            Error::MissingHeader(name) => Fault::MissingHeader(name@),
            Error::MalformedHeader(name, value) => Fault::MalformedHeader(name@, value@),
            Error::MalformedVersion(version) => Fault::MalformedVersion(version@),
            Error::ReadOverflow => Fault::ReadOverflow,
            Error::UnexpectedEOB => Fault::UnexpectedEOB,
        }
    }
}

/// What a header block holds.
pub ghost struct Header {
    /// The version.
    pub version: Seq<char>,
    /// The fields in order.
    pub fields: Seq<Written>,
}

/// Fields with one that has the value, in place of the one with its name.
pub open spec fn inserted(fields: Seq<Written>, name: Seq<char>, value: Seq<u8>) -> Seq<Written> {
    let at = field_position(fields, name, 0);
    if at < fields.len() {
        fields.update(at, (fields[at].0, value))
    } else {
        fields.push((name, value))
    }
}

/// The header block of a record. Fields are found whatever the case of their names.
#[derive(Clone, Debug, Eq, PartialEq)]
pub struct RawRecordHeader {
    /// The version that the record declares.
    pub version: String,
    /// The fields in order: a name, and the value without the white space around it.
    pub headers: Vec<(String, Vec<u8>)>,
}

/// The fields that stand for pairs of a name and a value.
pub open spec fn fields_in(pairs: Seq<(String, Vec<u8>)>) -> Seq<Written> {
    pairs.map_values(|pair: (String, Vec<u8>)| (pair.0@, pair.1@))
}

impl View for RawRecordHeader {
    type V = Header;

    open spec fn view(&self) -> Header {
        Header { version: self.version@, fields: fields_in(self.headers@) }
    }
}

/// The position of the first field of a name from `i` on, whatever its case.
pub open spec fn field_position(fields: Seq<Written>, name: Seq<char>, i: int) -> int
    decreases fields.len() - i,
{
    if i < 0 || i >= fields.len() || same_but_for_case(octets(fields[i].0), octets(name)) {
        i
    } else {
        field_position(fields, name, i + 1)
    }
}

/// The value of a field, where there is one.
pub open spec fn value_in(fields: Seq<Written>, name: Seq<char>) -> Option<Seq<u8>> {
    let at = field_position(fields, name, 0);
    if at < fields.len() {
        Some(fields[at].1)
    } else {
        None
    }
}

/// Fields with another: one whose name they hold already is left out.
pub open spec fn with_first(fields: Seq<Written>, field: Written) -> Seq<Written> {
    if value_in(fields, field.0) is Some {
        fields
    } else {
        fields.push((ascii_text(lowered(octets(field.0))), unfolded(field.1)))
    }
}

/// Fields kept by name: the first of each name, under the name in lower case, with its value
/// unfolded.
pub open spec fn keyed(fields: Seq<Written>) -> Seq<Written>
    decreases fields.len(),
{
    if fields.len() == 0 {
        fields
    } else {
        with_first(keyed(fields.drop_last()), fields.last())
    }
}

/// The length that a record declares for its body, or what is wrong with the declaration.
pub open spec fn body_length(fields: Seq<Written>) -> Result<nat, Fault> {
    match value_in(fields, "content-length"@) {
        None => Err(Fault::MissingHeader("content-length"@)),
        Some(value) => if is_decimal(value) && decimal_value(value) <= u64::MAX {
            Ok(decimal_value(value))
        } else {
            Err(Fault::MalformedHeader("content-length"@, lossy_text(value)))
        },
    }
}

proof fn lemma_field_position(fields: Seq<Written>, name: Seq<char>, i: int)
    requires
        0 <= i <= fields.len(),
    ensures
        i <= field_position(fields, name, i) <= fields.len(),
    decreases fields.len() - i,
{
    if i < fields.len() && !same_but_for_case(octets(fields[i].0), octets(name)) {
        lemma_field_position(fields, name, i + 1);
    }
}

impl RawRecordHeader {
    /// A header without fields.
    pub fn new(version: &str) -> (r: Self)
        ensures
            r@ == (Header { version: version@, fields: Seq::empty() }),
    {
        let r = RawRecordHeader { version: version.to_string(), headers: Vec::new() };
        assert(r@.fields =~= Seq::empty());
        r
    }

    /// The position of a field, or the number of fields.
    fn position(&self, name: &str) -> (r: usize)
        ensures
            r == field_position(self@.fields, name@, 0),
            r <= self.headers.len(),
    {
        let mut i: usize = 0;
        while i < self.headers.len()
            invariant
                i <= self.headers.len(),
                field_position(self@.fields, name@, 0) == field_position(
                    self@.fields,
                    name@,
                    i as int,
                ),
            decreases self.headers.len() - i,
        {
            assert(self@.fields[i as int].0 == self.headers@[i as int].0@);
            if equal_ignoring_case(self.headers[i].0.as_str().as_bytes(), name.as_bytes()) {
                return i;
            }
            i = i + 1;
        }
        i
    }

    /// The value of a field, whatever the case of its name.
    pub fn get(&self, name: &str) -> (r: Option<&[u8]>)
        ensures
            match r {
                Some(value) => value_in(self@.fields, name@) == Some(value@),
                None => value_in(self@.fields, name@) is None,
            },
    {
        let at = self.position(name);
        if at < self.headers.len() {
            assert(self@.fields[at as int].1 == self.headers@[at as int].1@);
            Some(self.headers[at].1.as_slice())
        } else {
            None
        }
    }

    /// Give a field a value, in place of the one that it has.
    pub fn insert(&mut self, name: &str, value: Vec<u8>)
        ensures
            final(self)@.version == old(self)@.version,
            final(self)@.fields == inserted(old(self)@.fields, name@, value@),
    {
        let at = self.position(name);
        let ghost before = self@.fields;
        if at < self.headers.len() {
            let (stored, _) = self.headers.remove(at);
            self.headers.insert(at, (stored, value));
            assert(self@.fields =~= before.update(at as int, (before[at as int].0, value@)));
        } else {
            self.headers.push((name.to_string(), value));
            assert(self@.fields =~= before.push((name@, value@)));
        }
    }

    /// Take a field out, and return the value that it had.
    pub fn remove(&mut self, name: &str) -> (r: Option<Vec<u8>>)
        ensures
            match r {
                Some(value) => {
                    &&& value_in(old(self)@.fields, name@) == Some(value@)
                    &&& final(self)@.fields == old(self)@.fields.remove(
                        field_position(old(self)@.fields, name@, 0),
                    )
                },
                None => {
                    &&& value_in(old(self)@.fields, name@) is None
                    &&& final(self)@.fields == old(self)@.fields
                },
            },
            final(self)@.version == old(self)@.version,
    {
        let at = self.position(name);
        let ghost before = self@.fields;
        if at < self.headers.len() {
            let (_, value) = self.headers.remove(at);
            assert(self@.fields =~= before.remove(at as int));
            Some(value)
        } else {
            None
        }
    }

    /// The length that the header declares for its body.
    ///
    /// # Errors
    ///
    /// Returns an error where the header declares none, or one that is no number.
    pub fn content_length(&self) -> (r: Result<u64, Error>)
        ensures
            match r {
                Ok(length) => body_length(self@.fields) == Ok::<nat, Fault>(length as nat),
                Err(error) => body_length(self@.fields) == Err::<nat, Fault>(error@),
            },
    {
        match self.get("content-length") {
            None => Err(Error::MissingHeader("content-length".to_string())),
            Some(value) => match parse_decimal(value) {
                Some(length) => Ok(length),
                None => Err(Error::MalformedHeader("content-length".to_string(), lossy(value))),
            },
        }
    }

    /// The header that a version and fields as they are written make up: the first field of each
    /// name is kept.
    pub fn from_fields(version: String, fields: Vec<(String, Vec<u8>)>) -> (r: Self)
        requires
            forall|i: int| 0 <= i < fields.len() ==> is_ascii(octets(#[trigger] fields@[i].0@)),
        ensures
            r@ == (Header { version: version@, fields: keyed(fields_in(fields@)) }),
    {
        let mut r = RawRecordHeader { version, headers: Vec::new() };
        let ghost all = fields_in(fields@);
        let mut i: usize = 0;
        assert(all.take(0) =~= Seq::empty());
        assert(r@.fields =~= keyed(all.take(0)));
        while i < fields.len()
            invariant
                i <= fields.len(),
                all == fields_in(fields@),
                r@.version == version@,
                r@.fields == keyed(all.take(i as int)),
                forall|i: int| 0 <= i < fields.len() ==> is_ascii(octets(#[trigger] fields@[i].0@)),
            decreases fields.len() - i,
        {
            let name = fields[i].0.as_str();
            let ghost field = (name@, fields@[i as int].1@);
            proof {
                assert(all.take(i + 1).drop_last() =~= all.take(i as int));
                assert(all.take(i + 1).last() == field);
                lemma_field_position(r@.fields, name@, 0);
            }
            let at = r.position(name);
            if at == r.headers.len() {
                let ghost before = r@.fields;
                let lower = to_lowered(name.as_bytes());
                let value = trimmed_copy(unfold(fields[i].1.as_slice()));
                proof {
                    lemma_lowered_ascii(octets(name@));
                }
                r.headers.push((ascii_string(lower.as_slice()), value));
                assert(r@.fields =~= before.push(
                    (ascii_text(lowered(octets(name@))), unfolded(field.1)),
                ));
            }
            i = i + 1;
        }
        assert(all.take(all.len() as int) =~= all);
        r
    }
}

/// The octets without the white space that opens and closes them.
fn trimmed_copy(s: Vec<u8>) -> (r: Vec<u8>)
    ensures
        r@ == trimmed(s@),
{
    copied(trim(s.as_slice()))
}

/// ASCII in lower case is ASCII.
pub proof fn lemma_lowered_ascii(s: Seq<u8>)
    requires
        is_ascii(s),
    ensures
        is_ascii(lowered(s)),
{
    assert forall|i: int| 0 <= i < lowered(s).len() implies #[trigger] lowered(s)[i] < 0x80 by {
        assert(s[i] < 0x80);
    }
}

/// The version whose rules a date follows.
pub open spec fn date_version(version: Seq<char>) -> WarcVersion {
    if version == "1.0"@ {
        WarcVersion::V1_0
    } else {
        WarcVersion::V1_1
    }
}

/// What keeps a header from being that of a record.
pub open spec fn record_fault(header: Header) -> Option<Fault> {
    if value_in(header.fields, "warc-record-id"@) is None {
        Some(Fault::MissingHeader("warc-record-id"@))
    } else if value_in(header.fields, "warc-type"@) is None {
        Some(Fault::MissingHeader("warc-type"@))
    } else {
        match value_in(header.fields, "warc-date"@) {
            None => Some(Fault::MissingHeader("warc-date"@)),
            Some(value) => if date_of(value, date_version(header.version)) is None {
                Some(Fault::MalformedHeader("warc-date"@, lossy_text(value)))
            } else {
                match body_length(header.fields) {
                    Err(fault) => Some(fault),
                    Ok(_) => None,
                }
            },
        }
    }
}

/// Check that a header is that of a record.
///
/// # Errors
///
/// Returns an error where a required field is missing or malformed. A date is read by the rules of
/// the declared version.
pub(crate) fn check_record(header: &RawRecordHeader) -> (r: Result<(), Error>)
    ensures
        match r {
            Ok(_) => record_fault(header@) is None,
            Err(error) => record_fault(header@) == Some(error@),
        },
{
    if header.get("warc-record-id").is_none() {
        return Err(Error::MissingHeader("warc-record-id".to_string()));
    }
    if header.get("warc-type").is_none() {
        return Err(Error::MissingHeader("warc-type".to_string()));
    }
    match header.get("warc-date") {
        None => {
            return Err(Error::MissingHeader("warc-date".to_string()));
        },
        Some(value) => {
            let version = if same_text(header.version.as_str(), "1.0") {
                WarcVersion::V1_0
            } else {
                WarcVersion::V1_1
            };
            if WarcDate::parse_octets(value, version).is_none() {
                return Err(Error::MalformedHeader("warc-date".to_string(), lossy(value)));
            }
        },
    }
    match header.content_length() {
        Ok(_) => Ok(()),
        Err(error) => Err(error),
    }
}

/// A record whose required fields are well-formed, with its body.
#[derive(Clone, Debug, Eq, PartialEq)]
pub struct BufferedRecord {
    header: RawRecordHeader,
    body: Vec<u8>,
}

impl BufferedRecord {
    /// The header of the record.
    pub closed spec fn held(&self) -> Header {
        self.header@
    }

    /// The octets of the body.
    pub closed spec fn block(&self) -> Seq<u8> {
        self.body@
    }

    /// The record that a header makes up with a body.
    ///
    /// # Errors
    ///
    /// Returns an error where a required field is missing or malformed. A date is read by the rules
    /// of the declared version.
    pub fn new(header: RawRecordHeader, body: Vec<u8>) -> (r: Result<Self, Error>)
        ensures
            match r {
                Ok(record) => {
                    &&& record_fault(header@) is None
                    &&& record.held() == header@
                    &&& record.block() == body@
                },
                Err(error) => record_fault(header@) == Some(error@),
            },
    {
        match check_record(&header) {
            Ok(_) => Ok(BufferedRecord { header, body }),
            Err(error) => Err(error),
        }
    }

    /// The header of the record.
    pub fn raw_header(&self) -> (r: &RawRecordHeader)
        ensures
            r@ == self.held(),
    {
        &self.header
    }

    /// The version that the record declares.
    pub fn warc_version(&self) -> (r: &str)
        ensures
            r@ == self.held().version,
    {
        self.header.version.as_str()
    }

    /// The value of `WARC-Record-ID`, as octets.
    pub fn warc_id(&self) -> (r: Option<&[u8]>)
        ensures
            match r {
                Some(value) => value_in(self.held().fields, "warc-record-id"@) == Some(value@),
                None => value_in(self.held().fields, "warc-record-id"@) is None,
            },
    {
        self.header.get("warc-record-id")
    }

    /// Replace the value of `WARC-Record-ID`, without checking what it holds.
    pub fn set_warc_id(&mut self, id: &str)
        ensures
            final(self).block() == old(self).block(),
            final(self).held().version == old(self).held().version,
            final(self).held().fields == inserted(
                old(self).held().fields,
                "warc-record-id"@,
                octets(id@),
            ),
            value_in(final(self).held().fields, "warc-record-id"@) == Some(octets(id@)),
    {
        let ghost before = self.header@.fields;
        self.header.insert("warc-record-id", copied(id.as_bytes()));
        proof {
            lemma_field_position(before, "warc-record-id"@, 0);
            lemma_inserted(before, self.header@.fields, "warc-record-id"@, octets(id@), 0);
        }
    }

    /// The value of a field, whatever the case of its name.
    pub fn header(&self, name: &str) -> (r: Option<&[u8]>)
        ensures
            match r {
                Some(value) => value_in(self.held().fields, name@) == Some(value@),
                None => value_in(self.held().fields, name@) is None,
            },
    {
        self.header.get(name)
    }

    /// The declared length of the body.
    pub fn content_length(&self) -> (r: Result<u64, Error>)
        ensures
            match r {
                Ok(length) => body_length(self.held().fields) == Ok::<nat, Fault>(length as nat),
                Err(error) => body_length(self.held().fields) == Err::<nat, Fault>(error@),
            },
    {
        self.header.content_length()
    }

    /// The body.
    pub fn body(&self) -> (r: &[u8])
        ensures
            r@ == self.block(),
    {
        self.body.as_slice()
    }

    /// The header and the body.
    pub fn into_raw_parts(self) -> (r: (RawRecordHeader, Vec<u8>))
        ensures
            r.0@ == self.held(),
            r.1@ == self.block(),
    {
        (self.header, self.body)
    }
}

/// A field that is given a value has it.
proof fn lemma_inserted(
    before: Seq<Written>,
    after: Seq<Written>,
    name: Seq<char>,
    value: Seq<u8>,
    i: int,
)
    requires
        0 <= i <= field_position(before, name, 0),
        field_position(before, name, i) == field_position(before, name, 0),
        field_position(before, name, 0) <= before.len(),
        after == inserted(before, name, value),
    ensures
        field_position(after, name, i) == field_position(before, name, 0),
        field_position(after, name, i) < after.len(),
        after[field_position(after, name, i)].1 == value,
    decreases before.len() - i,
{
    let at = field_position(before, name, 0);
    if i < at {
        lemma_inserted(before, after, name, value, i + 1);
    } else if at < before.len() {
        lemma_found(before, name, 0);
    }
}

/// A field that is found has the name.
proof fn lemma_found(fields: Seq<Written>, name: Seq<char>, i: int)
    requires
        0 <= i <= fields.len(),
        field_position(fields, name, i) < fields.len(),
    ensures
        same_but_for_case(octets(fields[field_position(fields, name, i)].0), octets(name)),
    decreases fields.len() - i,
{
    if !same_but_for_case(octets(fields[i].0), octets(name)) {
        lemma_found(fields, name, i + 1);
    }
}

/// Whether a field has a name, whatever the case of letters.
pub open spec fn has_name(field: Written, name: Seq<char>) -> bool {
    same_but_for_case(octets(field.0), octets(name))
}

/// A field is found under its name, whatever its case: the first of the name is, and none where no
/// field has the name.
pub proof fn lemma_field_is_found(
    before: Seq<Written>,
    field: Written,
    after: Seq<Written>,
    name: Seq<char>,
)
    requires
        forall|i: int| 0 <= i < before.len() ==> !has_name(#[trigger] before[i], name),
    ensures
        value_in(before, name) is None,
        has_name(field, name) ==> value_in(before + seq![field] + after, name) == Some(field.1),
{
    lemma_position_past(before, Seq::empty(), name, 0);
    assert(before + Seq::<Written>::empty() =~= before);
    let all = before + seq![field] + after;
    assert(all =~= before + (seq![field] + after));
    lemma_position_past(before, seq![field] + after, name, 0);
    assert(all[before.len() as int] == field);
}

proof fn lemma_position_past(
    before: Seq<Written>,
    after: Seq<Written>,
    name: Seq<char>,
    i: int,
)
    requires
        0 <= i <= before.len(),
        forall|i: int| 0 <= i < before.len() ==> !has_name(#[trigger] before[i], name),
    ensures
        field_position(before + after, name, i) == field_position(
            before + after,
            name,
            before.len() as int,
        ),
    decreases before.len() - i,
{
    if i < before.len() {
        assert((before + after)[i] == before[i]);
        assert(!has_name(before[i], name));
        lemma_position_past(before, after, name, i + 1);
    }
}

/// The length that a header declares is the number that the first `Content-Length` spells in
/// decimal digits. A header without the field declares none, and one with anything but digits in it
/// a malformed one.
pub proof fn lemma_body_length(
    before: Seq<Written>,
    field: Written,
    after: Seq<Written>,
    zeros: nat,
    length: nat,
)
    requires
        forall|i: int| 0 <= i < before.len() ==> !has_name(#[trigger] before[i], "content-length"@),
        has_name(field, "content-length"@),
    ensures
        body_length(before) == Err::<nat, Fault>(Fault::MissingHeader("content-length"@)),
        field.1 == crate::chunked::no_value(zeros) + decimal(length) && length <= u64::MAX
            ==> body_length(before + seq![field] + after) == Ok::<nat, Fault>(length),
        field.1.len() == 0 || (exists|i: int|
            0 <= i < field.1.len() && !(0x30 <= #[trigger] field.1[i] <= 0x39)) ==> body_length(
            before + seq![field] + after,
        ) == Err::<nat, Fault>(Fault::MalformedHeader("content-length"@, lossy_text(field.1))),
{
    lemma_field_is_found(before, field, after, "content-length"@);
    lemma_decimal(length);
    lemma_zeros_before(zeros, decimal(length));
}

proof fn lemma_zeros_before(zeros: nat, s: Seq<u8>)
    requires
        is_decimal(s),
    ensures
        is_decimal(crate::chunked::no_value(zeros) + s),
        decimal_value(crate::chunked::no_value(zeros) + s) == decimal_value(s),
{
    let all = crate::chunked::no_value(zeros) + s;
    assert forall|i: int| 0 <= i < all.len() implies is_digit(#[trigger] all[i]) by {
        if i >= zeros {
            assert(is_digit(s[i - zeros]));
        }
    }
    lemma_zeros_value(zeros, s);
}

proof fn lemma_zeros_value(zeros: nat, s: Seq<u8>)
    ensures
        decimal_value(crate::chunked::no_value(zeros) + s) == decimal_value(s),
    decreases zeros, s.len(),
{
    let all = crate::chunked::no_value(zeros) + s;
    if s.len() > 0 {
        lemma_zeros_value(zeros, s.drop_last());
        assert(all.drop_last() =~= crate::chunked::no_value(zeros) + s.drop_last());
    } else if zeros > 0 {
        lemma_zeros_value((zeros - 1) as nat, s);
        assert(all.drop_last() =~= crate::chunked::no_value((zeros - 1) as nat) + s);
        assert(all.last() == 0x30);
    } else {
        assert(all =~= s);
    }
}

/// Fields that are kept by name answer for each name as the fields they were made from: with the
/// first value of that name, unfolded.
pub proof fn lemma_keyed_fields_answer_alike(fields: Seq<Written>, name: Seq<char>)
    requires
        forall|i: int| 0 <= i < fields.len() ==> is_ascii(octets((#[trigger] fields[i]).0)),
    ensures
        value_in(keyed(fields), name) == match value_in(fields, name) {
            Some(value) => Some(unfolded(value)),
            None => None,
        },
    decreases fields.len(),
{
    if fields.len() == 0 {
    } else {
        let earlier = fields.drop_last();
        let last = fields.last();
        assert forall|i: int| 0 <= i < earlier.len() implies is_ascii(
            octets((#[trigger] earlier[i]).0),
        ) by {
            assert(earlier[i] == fields[i]);
        }
        lemma_keyed_fields_answer_alike(earlier, name);
        lemma_keyed_fields_answer_alike(earlier, last.0);
        let kept = keyed(earlier);
        let low = ascii_text(lowered(octets(last.0)));
        assert(is_ascii(octets(fields[fields.len() - 1].0)));
        lemma_lowered_ascii(octets(last.0));
        lemma_ascii_text(lowered(octets(last.0)));
        assert(octets(low) == lowered(octets(last.0)));
        assert(lowered(lowered(octets(last.0))) =~= lowered(octets(last.0)));
        lemma_pushed_value(earlier, last, name);
        assert(earlier.push(last) =~= fields);
        lemma_pushed_value(kept, (low, unfolded(last.1)), name);
        if value_in(earlier, last.0) is Some && has_name(last, name) {
            lemma_same_name(earlier, last.0, name, 0);
        }
    }
}

/// The value of a field among fields with another behind them.
proof fn lemma_pushed_value(fields: Seq<Written>, last: Written, name: Seq<char>)
    ensures
        value_in(fields.push(last), name) == match value_in(fields, name) {
            Some(value) => Some(value),
            None => if has_name(last, name) {
                Some(last.1)
            } else {
                None
            },
        },
{
    lemma_pushed_position(fields, last, name, 0);
    lemma_field_position(fields, name, 0);
}

proof fn lemma_pushed_position(fields: Seq<Written>, last: Written, name: Seq<char>, i: int)
    requires
        0 <= i <= fields.len(),
    ensures
        field_position(fields.push(last), name, i) == if field_position(fields, name, i)
            < fields.len() {
            field_position(fields, name, i)
        } else if has_name(last, name) {
            fields.len() as int
        } else {
            fields.len() + 1int
        },
    decreases fields.len() - i,
{
    let all = fields.push(last);
    if i < fields.len() {
        assert(all[i] == fields[i]);
        if !has_name(fields[i], name) {
            lemma_pushed_position(fields, last, name, i + 1);
        }
        lemma_field_position(fields, name, i);
    } else {
        assert(all[i] == last);
        assert(field_position(all, name, i + 1) == i + 1);
    }
}

proof fn lemma_same_name(fields: Seq<Written>, a: Seq<char>, b: Seq<char>, i: int)
    requires
        same_but_for_case(octets(a), octets(b)),
    ensures
        field_position(fields, a, i) == field_position(fields, b, i),
    decreases fields.len() - i,
{
    if 0 <= i < fields.len() && !same_but_for_case(octets(fields[i].0), octets(a)) {
        lemma_same_name(fields, a, b, i + 1);
    }
}

/// A header is that of a record where it has an identifier, a type, a date that its version can
/// read, and a length, and only there. What is missing first, in that order, is what is said.
pub proof fn lemma_record_is_checked(header: Header)
    ensures
        record_fault(header) is None <==> {
            &&& value_in(header.fields, "warc-record-id"@) is Some
            &&& value_in(header.fields, "warc-type"@) is Some
            &&& value_in(header.fields, "warc-date"@) matches Some(date)
            &&& date_of(
                date,
                if header.version == "1.0"@ {
                    WarcVersion::V1_0
                } else {
                    WarcVersion::V1_1
                },
            ) is Some
            &&& body_length(header.fields) is Ok
        },
        value_in(header.fields, "warc-record-id"@) is None ==> record_fault(header) == Some(
            Fault::MissingHeader("warc-record-id"@),
        ),
        value_in(header.fields, "warc-record-id"@) is Some && value_in(
            header.fields,
            "warc-type"@,
        ) is None ==> record_fault(header) == Some(Fault::MissingHeader("warc-type"@)),
        value_in(header.fields, "warc-record-id"@) is Some && value_in(
            header.fields,
            "warc-type"@,
        ) is Some && value_in(header.fields, "warc-date"@) is None ==> record_fault(header) == Some(
            Fault::MissingHeader("warc-date"@),
        ),
{
}

proof fn lemma_position_found(fields: Seq<Written>, name: Seq<char>, i: int)
    requires
        0 <= i <= fields.len(),
    ensures
        i <= field_position(fields, name, i) <= fields.len(),
        field_position(fields, name, i) < fields.len() ==> has_name(
            fields[field_position(fields, name, i)],
            name,
        ),
        forall|j: int|
            i <= j < field_position(fields, name, i) ==> !has_name(#[trigger] fields[j], name),
    decreases fields.len() - i,
{
    if i < fields.len() && !has_name(fields[i], name) {
        lemma_position_found(fields, name, i + 1);
    }
}

proof fn lemma_position_is(fields: Seq<Written>, name: Seq<char>, i: int, at: int)
    requires
        0 <= i <= at <= fields.len(),
        forall|j: int| i <= j < at ==> !has_name(#[trigger] fields[j], name),
        at < fields.len() ==> has_name(fields[at], name),
    ensures
        field_position(fields, name, i) == at,
    decreases at - i,
{
    if i < at {
        assert(!has_name(fields[i], name));
        lemma_position_is(fields, name, i + 1, at);
    }
}

/// A value that is given to a field is found under the name of the field, whatever its case, and
/// every other field is found as before.
pub proof fn lemma_inserted_value_is_found(
    fields: Seq<Written>,
    name: Seq<char>,
    value: Seq<u8>,
    other: Seq<char>,
)
    ensures
        value_in(inserted(fields, name, value), other) == if same_but_for_case(
            octets(name),
            octets(other),
        ) {
            Some(value)
        } else {
            value_in(fields, other)
        },
{
    let all = inserted(fields, name, value);
    lemma_position_found(fields, name, 0);
    lemma_position_found(fields, other, 0);
    let at = field_position(fields, name, 0);
    let own = field_position(fields, other, 0);
    assert forall|j: int| 0 <= j < fields.len() implies (#[trigger] all[j]).0 == fields[j].0 && (j
        != at ==> all[j] == fields[j]) by {}
    if same_but_for_case(octets(name), octets(other)) {
        assert forall|j: int| 0 <= j < at implies !has_name(#[trigger] all[j], other) by {
            assert(!has_name(fields[j], name));
        }
        lemma_position_is(all, other, 0, at);
    } else {
        assert forall|j: int| 0 <= j < own implies !has_name(#[trigger] all[j], other) by {
            assert(!has_name(fields[j], other));
        }
        if own < fields.len() {
            assert(has_name(all[own], other));
            lemma_position_is(all, other, 0, own);
        } else {
            assert forall|j: int| 0 <= j < all.len() implies !has_name(
                #[trigger] all[j],
                other,
            ) by {
                if j < fields.len() {
                    assert(!has_name(fields[j], other));
                }
            }
            lemma_position_is(all, other, 0, all.len() as int);
        }
    }
}

/// A field that is taken out is no longer found where it was the only one of its name, and every
/// field of another name is found as before.
pub proof fn lemma_removed_field_is_gone(fields: Seq<Written>, name: Seq<char>, other: Seq<char>)
    requires
        value_in(fields, name) is Some,
    ensures
        ({
            let rest = fields.remove(field_position(fields, name, 0));
            &&& !same_but_for_case(octets(name), octets(other)) ==> value_in(rest, other)
                == value_in(fields, other)
            &&& (forall|i: int, j: int|
                0 <= i < j < fields.len() && has_name(#[trigger] fields[i], name) ==> !has_name(
                    #[trigger] fields[j],
                    name,
                )) ==> value_in(rest, name) is None
        }),
{
    let at = field_position(fields, name, 0);
    let rest = fields.remove(at);
    lemma_position_found(fields, name, 0);
    lemma_position_found(fields, other, 0);
    let own = field_position(fields, other, 0);
    if !same_but_for_case(octets(name), octets(other)) {
        assert(!has_name(fields[at], other));
        let moved = if own <= at {
            own
        } else {
            own - 1
        };
        assert forall|j: int| 0 <= j < moved implies !has_name(#[trigger] rest[j], other) by {
            if j < at {
                assert(rest[j] == fields[j]);
            } else {
                assert(rest[j] == fields[j + 1]);
            }
        }
        lemma_position_is(rest, other, 0, moved);
    }
    if forall|i: int, j: int|
        0 <= i < j < fields.len() && has_name(#[trigger] fields[i], name) ==> !has_name(
            #[trigger] fields[j],
            name,
        ) {
        assert forall|j: int| 0 <= j < rest.len() implies !has_name(#[trigger] rest[j], name) by {
            if j < at {
                assert(rest[j] == fields[j]);
            } else {
                assert(rest[j] == fields[j + 1]);
                assert(has_name(fields[at], name));
            }
        }
        lemma_position_is(rest, name, 0, rest.len() as int);
    }
}

} // verus!
