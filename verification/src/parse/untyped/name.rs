//! The names of header fields.

use crate::octets::{lower, lowered, octets, same_but_for_case};
use crate::parsing::{is_token, is_token_char};
use crate::record::extension::same_name;
use crate::text::same_ignoring_case;
use crate::version::WarcVersion;
use vstd::prelude::*;
use vstd::utf8::{is_ascii_chars, is_ascii_chars_encode_utf8};

verus! {

/// A header field that a version of the standard defines.
///
/// The variants are listed in the order in which a record is conventionally written.
#[derive(Clone, Copy, Debug, Hash, PartialEq, Eq, Structural)]
pub enum Field {
    /// `WARC-Type`: the record's type.
    WarcType,
    /// `WARC-Target-URI`: the URI whose capture produced the record.
    TargetURI,
    /// `WARC-Date`: when the capture started.
    Date,
    /// `WARC-Record-ID`: the record's identifier.
    RecordID,
    /// `WARC-Warcinfo-ID`: the `warcinfo` record describing the record.
    WarcinfoID,
    /// `WARC-Concurrent-To`: a record of the same capture event.
    ConcurrentTo,
    /// `WARC-Refers-To`: the record that the record describes or derives from.
    RefersTo,
    /// `WARC-Refers-To-Target-URI`: the target URI of the revisited record.
    RefersToTargetURI,
    /// `WARC-Refers-To-Date`: the date of the revisited record.
    RefersToDate,
    /// `WARC-Profile`: the kind of analysis a `revisit` reports.
    Profile,
    /// `WARC-IP-Address`: the address contacted.
    IPAddress,
    /// `WARC-Filename`: the name of the file.
    Filename,
    /// `WARC-Truncated`: why the block is truncated.
    Truncated,
    /// `WARC-Segment-Number`: the position in a series of segments.
    SegmentNumber,
    /// `WARC-Segment-Origin-ID`: the first segment of the series.
    SegmentOriginID,
    /// `WARC-Segment-Total-Length`: the length of all segments together.
    SegmentTotalLength,
    /// `WARC-Payload-Digest`: a digest over the payload.
    PayloadDigest,
    /// `WARC-Identified-Payload-Type`: the media type found by inspecting the payload.
    IdentifiedPayloadType,
    /// `WARC-Block-Digest`: a digest over the block.
    BlockDigest,
    /// `Content-Type`: the media type of the block.
    ContentType,
    /// `Content-Length`: the length of the block.
    ContentLength,
}

/// The fields that the standard defines, in the conventional order.
pub open spec fn fields() -> Seq<Field> {
    seq![
        Field::WarcType,
        Field::TargetURI,
        Field::Date,
        Field::RecordID,
        Field::WarcinfoID,
        Field::ConcurrentTo,
        Field::RefersTo,
        Field::RefersToTargetURI,
        Field::RefersToDate,
        Field::Profile,
        Field::IPAddress,
        Field::Filename,
        Field::Truncated,
        Field::SegmentNumber,
        Field::SegmentOriginID,
        Field::SegmentTotalLength,
        Field::PayloadDigest,
        Field::IdentifiedPayloadType,
        Field::BlockDigest,
        Field::ContentType,
        Field::ContentLength,
    ]
}

/// The number of fields that the standard defines.
pub const FIELD_COUNT: usize = 21;

/// The first field from position `i` of the list on that a name spells, whatever its case.
pub open spec fn first_field(name: Seq<char>, i: int) -> Option<Field>
    decreases fields().len() - i,
{
    if i < 0 || i >= fields().len() {
        None
    } else if same_name(name, fields()[i].spelled()) {
        Some(fields()[i])
    } else {
        first_field(name, i + 1)
    }
}

/// The field that a name spells, whatever its case.
pub open spec fn field_named(name: Seq<char>) -> Option<Field> {
    first_field(name, 0)
}

impl Field {
    /// The spelling that the standard gives the name.
    pub open spec fn spelled(self) -> Seq<char> {
        match self {
            Field::WarcType => "WARC-Type"@,
            Field::TargetURI => "WARC-Target-URI"@,
            Field::Date => "WARC-Date"@,
            Field::RecordID => "WARC-Record-ID"@,
            Field::WarcinfoID => "WARC-Warcinfo-ID"@,
            Field::ConcurrentTo => "WARC-Concurrent-To"@,
            Field::RefersTo => "WARC-Refers-To"@,
            Field::RefersToTargetURI => "WARC-Refers-To-Target-URI"@,
            Field::RefersToDate => "WARC-Refers-To-Date"@,
            Field::Profile => "WARC-Profile"@,
            Field::IPAddress => "WARC-IP-Address"@,
            Field::Filename => "WARC-Filename"@,
            Field::Truncated => "WARC-Truncated"@,
            Field::SegmentNumber => "WARC-Segment-Number"@,
            Field::SegmentOriginID => "WARC-Segment-Origin-ID"@,
            Field::SegmentTotalLength => "WARC-Segment-Total-Length"@,
            Field::PayloadDigest => "WARC-Payload-Digest"@,
            Field::IdentifiedPayloadType => "WARC-Identified-Payload-Type"@,
            Field::BlockDigest => "WARC-Block-Digest"@,
            Field::ContentType => "Content-Type"@,
            Field::ContentLength => "Content-Length"@,
        }
    }

    /// Whether a version of the standard defines the field.
    pub open spec fn is_defined_in(self, version: WarcVersion) -> bool {
        version == WarcVersion::V1_1 || !(self is RefersToTargetURI || self is RefersToDate)
    }

    /// The position of the field in the conventional order.
    pub open spec fn rank(self) -> int {
        match self {
            Field::WarcType => 0,
            Field::TargetURI => 1,
            Field::Date => 2,
            Field::RecordID => 3,
            Field::WarcinfoID => 4,
            Field::ConcurrentTo => 5,
            Field::RefersTo => 6,
            Field::RefersToTargetURI => 7,
            Field::RefersToDate => 8,
            Field::Profile => 9,
            Field::IPAddress => 10,
            Field::Filename => 11,
            Field::Truncated => 12,
            Field::SegmentNumber => 13,
            Field::SegmentOriginID => 14,
            Field::SegmentTotalLength => 15,
            Field::PayloadDigest => 16,
            Field::IdentifiedPayloadType => 17,
            Field::BlockDigest => 18,
            Field::ContentType => 19,
            Field::ContentLength => 20,
        }
    }

    /// The spelling that the standard gives the name.
    pub fn standard_name(self) -> (r: &'static str)
        ensures
            r@ == self.spelled(),
    {
        match self {
            Field::WarcType => "WARC-Type",
            Field::TargetURI => "WARC-Target-URI",
            Field::Date => "WARC-Date",
            Field::RecordID => "WARC-Record-ID",
            Field::WarcinfoID => "WARC-Warcinfo-ID",
            Field::ConcurrentTo => "WARC-Concurrent-To",
            Field::RefersTo => "WARC-Refers-To",
            Field::RefersToTargetURI => "WARC-Refers-To-Target-URI",
            Field::RefersToDate => "WARC-Refers-To-Date",
            Field::Profile => "WARC-Profile",
            Field::IPAddress => "WARC-IP-Address",
            Field::Filename => "WARC-Filename",
            Field::Truncated => "WARC-Truncated",
            Field::SegmentNumber => "WARC-Segment-Number",
            Field::SegmentOriginID => "WARC-Segment-Origin-ID",
            Field::SegmentTotalLength => "WARC-Segment-Total-Length",
            Field::PayloadDigest => "WARC-Payload-Digest",
            Field::IdentifiedPayloadType => "WARC-Identified-Payload-Type",
            Field::BlockDigest => "WARC-Block-Digest",
            Field::ContentType => "Content-Type",
            Field::ContentLength => "Content-Length",
        }
    }

    /// The field at a position of the conventional order.
    fn at(rank: usize) -> (r: Field)
        requires
            rank < FIELD_COUNT,
        ensures
            r == fields()[rank as int],
            r.rank() == rank,
    {
        match rank {
            0 => Field::WarcType,
            1 => Field::TargetURI,
            2 => Field::Date,
            3 => Field::RecordID,
            4 => Field::WarcinfoID,
            5 => Field::ConcurrentTo,
            6 => Field::RefersTo,
            7 => Field::RefersToTargetURI,
            8 => Field::RefersToDate,
            9 => Field::Profile,
            10 => Field::IPAddress,
            11 => Field::Filename,
            12 => Field::Truncated,
            13 => Field::SegmentNumber,
            14 => Field::SegmentOriginID,
            15 => Field::SegmentTotalLength,
            16 => Field::PayloadDigest,
            17 => Field::IdentifiedPayloadType,
            18 => Field::BlockDigest,
            19 => Field::ContentType,
            _ => Field::ContentLength,
        }
    }

    /// The field that a name spells, whatever its case.
    pub fn from_name(name: &str) -> (r: Option<Field>)
        ensures
            r == field_named(name@),
    {
        let mut i: usize = 0;
        while i < FIELD_COUNT
            invariant
                i <= FIELD_COUNT,
                field_named(name@) == first_field(name@, i as int),
            decreases FIELD_COUNT - i,
        {
            let field = Field::at(i);
            if same_ignoring_case(name, field.standard_name()) {
                return Some(field);
            }
            i = i + 1;
        }
        None
    }

    /// Whether a version of the standard defines the field.
    pub fn defined_in(self, version: WarcVersion) -> (r: bool)
        ensures
            r == self.is_defined_in(version),
    {
        version == WarcVersion::V1_1 || !(self == Field::RefersToTargetURI || self
            == Field::RefersToDate)
    }

    /// The position of the field in the conventional order.
    pub fn canonical_rank(self) -> (r: usize)
        ensures
            r == self.rank(),
            r < FIELD_COUNT,
    {
        match self {
            Field::WarcType => 0,
            Field::TargetURI => 1,
            Field::Date => 2,
            Field::RecordID => 3,
            Field::WarcinfoID => 4,
            Field::ConcurrentTo => 5,
            Field::RefersTo => 6,
            Field::RefersToTargetURI => 7,
            Field::RefersToDate => 8,
            Field::Profile => 9,
            Field::IPAddress => 10,
            Field::Filename => 11,
            Field::Truncated => 12,
            Field::SegmentNumber => 13,
            Field::SegmentOriginID => 14,
            Field::SegmentTotalLength => 15,
            Field::PayloadDigest => 16,
            Field::IdentifiedPayloadType => 17,
            Field::BlockDigest => 18,
            Field::ContentType => 19,
            Field::ContentLength => 20,
        }
    }
}

/// The length of a field's name and two of its letters in lower case, which tell it from every
/// other.
spec fn trait_of(field: Field) -> (nat, u8, u8) {
    match field {
        Field::WarcType => (9, 0x74, 0x70),
        Field::TargetURI => (15, 0x74, 0x72),
        Field::Date => (9, 0x64, 0x74),
        Field::RecordID => (14, 0x72, 0x63),
        Field::WarcinfoID => (16, 0x77, 0x72),
        Field::ConcurrentTo => (18, 0x63, 0x6e),
        Field::RefersTo => (14, 0x72, 0x66),
        Field::RefersToTargetURI => (25, 0x72, 0x66),
        Field::RefersToDate => (19, 0x72, 0x66),
        Field::Profile => (12, 0x70, 0x6f),
        Field::IPAddress => (15, 0x69, 0x2d),
        Field::Filename => (13, 0x66, 0x6c),
        Field::Truncated => (14, 0x74, 0x75),
        Field::SegmentNumber => (19, 0x73, 0x67),
        Field::SegmentOriginID => (22, 0x73, 0x67),
        Field::SegmentTotalLength => (25, 0x73, 0x67),
        Field::PayloadDigest => (19, 0x70, 0x79),
        Field::IdentifiedPayloadType => (28, 0x69, 0x65),
        Field::BlockDigest => (17, 0x62, 0x6f),
        Field::ContentType => (12, 0x6e, 0x2d),
        Field::ContentLength => (14, 0x6e, 0x2d),
    }
}

/// The name of a field has the length and the letters that tell it from every other, and is a
/// token of ASCII characters.
proof fn lemma_trait(field: Field)
    ensures
        ({
            let name = field.spelled();
            &&& is_ascii_chars(name)
            &&& trait_of(field) == (name.len(), lower(name[5] as u8), lower(name[7] as u8))
            &&& name.len() > 7
            &&& forall|i: int| 0 <= i < name.len() ==> is_token_char((#[trigger] name[i]) as u8)
        }),
{
    match field {
        Field::WarcType => {
            reveal_strlit("WARC-Type");
        },
        Field::TargetURI => {
            reveal_strlit("WARC-Target-URI");
        },
        Field::Date => {
            reveal_strlit("WARC-Date");
        },
        Field::RecordID => {
            reveal_strlit("WARC-Record-ID");
        },
        Field::WarcinfoID => {
            reveal_strlit("WARC-Warcinfo-ID");
        },
        Field::ConcurrentTo => {
            reveal_strlit("WARC-Concurrent-To");
        },
        Field::RefersTo => {
            reveal_strlit("WARC-Refers-To");
        },
        Field::RefersToTargetURI => {
            reveal_strlit("WARC-Refers-To-Target-URI");
        },
        Field::RefersToDate => {
            reveal_strlit("WARC-Refers-To-Date");
        },
        Field::Profile => {
            reveal_strlit("WARC-Profile");
        },
        Field::IPAddress => {
            reveal_strlit("WARC-IP-Address");
        },
        Field::Filename => {
            reveal_strlit("WARC-Filename");
        },
        Field::Truncated => {
            reveal_strlit("WARC-Truncated");
        },
        Field::SegmentNumber => {
            reveal_strlit("WARC-Segment-Number");
        },
        Field::SegmentOriginID => {
            reveal_strlit("WARC-Segment-Origin-ID");
        },
        Field::SegmentTotalLength => {
            reveal_strlit("WARC-Segment-Total-Length");
        },
        Field::PayloadDigest => {
            reveal_strlit("WARC-Payload-Digest");
        },
        Field::IdentifiedPayloadType => {
            reveal_strlit("WARC-Identified-Payload-Type");
        },
        Field::BlockDigest => {
            reveal_strlit("WARC-Block-Digest");
        },
        Field::ContentType => {
            reveal_strlit("Content-Type");
        },
        Field::ContentLength => {
            reveal_strlit("Content-Length");
        },
    }
}

/// Only one field has the name of a field.
proof fn lemma_names_differ(a: Field, b: Field)
    requires
        same_name(a.spelled(), b.spelled()),
    ensures
        a == b,
{
    lemma_trait(a);
    lemma_trait(b);
    let x = a.spelled();
    let y = b.spelled();
    is_ascii_chars_encode_utf8(x);
    is_ascii_chars_encode_utf8(y);
    assert(lowered(octets(x)).len() == lowered(octets(y)).len());
    assert(lowered(octets(x))[5] == lower(octets(x)[5]));
    assert(lowered(octets(y))[5] == lower(octets(y)[5]));
    assert(lowered(octets(x))[7] == lower(octets(x)[7]));
    assert(lowered(octets(y))[7] == lower(octets(y)[7]));
    assert(x[5] as u8 == octets(x)[5]);
    assert(y[5] as u8 == octets(y)[5]);
    assert(x[7] as u8 == octets(x)[7]);
    assert(y[7] as u8 == octets(y)[7]);
    assert(trait_of(a) == trait_of(b));
}

proof fn lemma_first_field(field: Field, i: int)
    requires
        0 <= i <= field.rank(),
    ensures
        first_field(field.spelled(), i) == Some(field),
    decreases field.rank() - i,
{
    lemma_rank(field);
    if i < field.rank() {
        lemma_first_field(field, i + 1);
        if same_name(field.spelled(), fields()[i].spelled()) {
            lemma_names_differ(field, fields()[i]);
            lemma_ranks(i);
        }
    }
}

proof fn lemma_rank(field: Field)
    ensures
        0 <= field.rank() < fields().len(),
        fields()[field.rank()] == field,
{
}

proof fn lemma_ranks(i: int)
    requires
        0 <= i < fields().len(),
    ensures
        fields()[i].rank() == i,
{
}

/// A field is named by its own spelling, which is a token of ASCII characters.
pub proof fn lemma_field_is_named(field: Field)
    ensures
        field_named(field.spelled()) == Some(field),
        is_ascii_chars(field.spelled()),
        is_token(octets(field.spelled())),
        0 <= field.rank() < fields().len(),
        fields()[field.rank()] == field,
{
    lemma_rank(field);
    lemma_first_field(field, 0);
    lemma_trait(field);
    let name = field.spelled();
    is_ascii_chars_encode_utf8(name);
    assert forall|i: int| 0 <= i < octets(name).len() implies is_token_char(
        #[trigger] octets(name)[i],
    ) by {
        assert(octets(name)[i] == name[i] as u8);
        assert(is_token_char(name[i] as u8));
    }
}

/// What a header name says: the field it spells, where the standard defines one, and its spelling.
pub ghost struct Named {
    /// The field, where the standard defines it.
    pub field: Option<Field>,
    /// The name as it is spelled.
    pub name: Seq<char>,
}

/// The name of a header line.
#[derive(Clone, Debug, PartialEq, Eq)]
pub struct HeaderName {
    field: Option<Field>,
    name: String,
}

impl View for HeaderName {
    type V = Named;

    closed spec fn view(&self) -> Named {
        Named { field: self.field, name: self.name@ }
    }
}

impl HeaderName {
    /// The name of a field in its standard spelling.
    pub fn new(field: Field) -> (r: Self)
        ensures
            r@ == (Named { field: field_named(field.spelled()), name: field.spelled() }),
            r@.field == Some(field),
    {
        proof {
            lemma_field_is_named(field);
        }
        HeaderName { field: Some(field), name: field.standard_name().to_owned() }
    }

    /// A name as it was read.
    pub fn as_read(name: &str) -> (r: Self)
        ensures
            r@ == (Named { field: field_named(name@), name: name@ }),
    {
        HeaderName { field: Field::from_name(name), name: name.to_owned() }
    }

    /// The field that the name spells, where the standard defines one.
    pub fn field(&self) -> (r: Option<Field>)
        ensures
            r == self@.field,
    {
        self.field
    }

    /// The name as it is spelled.
    pub fn name(&self) -> (r: &str)
        ensures
            r@ == self@.name,
    {
        self.name.as_str()
    }

    /// The name as it is spelled.
    pub fn into_name(self) -> (r: String)
        ensures
            r@ == self@.name,
    {
        self.name
    }
}

/// A name stands for the first field that it differs from in case alone.
proof fn lemma_first_field_is_alike(a: Seq<char>, b: Seq<char>, i: int)
    requires
        0 <= i <= fields().len(),
    ensures
        same_name(a, b) ==> first_field(a, i) == first_field(b, i),
        first_field(a, i) matches Some(field) ==> same_name(a, field.spelled()),
    decreases fields().len() - i,
{
    if i < fields().len() {
        lemma_first_field_is_alike(a, b, i + 1);
    }
}

/// A name spells a field of the standard exactly where it differs from the standard's spelling in
/// the case of letters alone.
pub proof fn lemma_name_is_told(name: Seq<char>, field: Field)
    ensures
        field_named(name) == Some(field) <==> same_but_for_case(
            octets(name),
            octets(field.spelled()),
        ),
{
    lemma_field_is_named(field);
    lemma_first_field_is_alike(name, field.spelled(), 0);
}

} // verus!
