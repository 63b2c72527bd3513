//! Record types defined by the WARC standard or an extension.

use crate::octets::{
    lemma_octets_injective, lower, lowercase, lowered, octets, same_but_for_case, to_lowercase,
};
use crate::record::extension::same_name;
use crate::text::same_ignoring_case;
use std::cmp::Ordering;
use vstd::prelude::*;
use vstd::utf8::{is_ascii_chars, is_ascii_chars_encode_utf8};

verus! {

/// The value of a record's `WARC-Type` field.
///
/// Names are compared without regard to case. Unknown names are normalized to lowercase and
/// preserved in [`Self::Unknown`].
///
/// The canonical order is warcinfo, request, response, metadata, revisit, resource, conversion,
/// continuation, then unknown types ordered by name. This order classifies record types; it does
/// not require records in a WARC file to be sorted.
#[derive(Clone, Debug, PartialEq, Eq, Ord)]
pub enum RecordType {
    /// A description of the records that follow it, up to the next `warcinfo` record or the end of
    /// the file.
    Warcinfo,
    /// A complete scheme-specific request, including protocol information.
    Request,
    /// A complete scheme-specific response, including protocol information where the scheme has
    /// any.
    Response,
    /// Content describing another record, in a way no other record type covers.
    Metadata,
    /// A record standing in for content found to duplicate content already archived.
    Revisit,
    /// A resource captured without the protocol information a `response` carries.
    Resource,
    /// An alternative version of another record's content, produced by an archival process.
    Conversion,
    /// A later segment of a block too large to be held in one record.
    Continuation,
    /// A type the standard does not define, held under the name it was written with, lower-cased.
    Unknown(String),
}

/// What a [`RecordType`] stands for.
pub ghost enum Kind {
    /// `warcinfo`.
    Warcinfo,
    /// `request`.
    Request,
    /// `response`.
    Response,
    /// `metadata`.
    Metadata,
    /// `revisit`.
    Revisit,
    /// `resource`.
    Resource,
    /// `conversion`.
    Conversion,
    /// `continuation`.
    Continuation,
    /// A type the standard does not define.
    Unknown(Seq<char>),
}

impl View for RecordType {
    type V = Kind;

    open spec fn view(&self) -> Kind {
        match self {
            RecordType::Warcinfo => Kind::Warcinfo,
            RecordType::Request => Kind::Request,
            RecordType::Response => Kind::Response,
            RecordType::Metadata => Kind::Metadata,
            RecordType::Revisit => Kind::Revisit,
            RecordType::Resource => Kind::Resource,
            RecordType::Conversion => Kind::Conversion,
            RecordType::Continuation => Kind::Continuation,
            RecordType::Unknown(name) => Kind::Unknown(name@),
        }
    }
}

/// The name of a record type.
pub open spec fn kind_name(kind: Kind) -> Seq<char> {
    match kind {
        Kind::Warcinfo => "warcinfo"@,
        Kind::Request => "request"@,
        Kind::Response => "response"@,
        Kind::Metadata => "metadata"@,
        Kind::Revisit => "revisit"@,
        Kind::Resource => "resource"@,
        Kind::Conversion => "conversion"@,
        Kind::Continuation => "continuation"@,
        Kind::Unknown(name) => name,
    }
}

/// The position of a record type in the canonical order.
pub open spec fn kind_rank(kind: Kind) -> int {
    match kind {
        Kind::Warcinfo => 0,
        Kind::Request => 1,
        Kind::Response => 2,
        Kind::Metadata => 3,
        Kind::Revisit => 4,
        Kind::Resource => 5,
        Kind::Conversion => 6,
        Kind::Continuation => 7,
        Kind::Unknown(_) => 8,
    }
}

/// The record type that a name stands for, whatever its case.
pub open spec fn kind_named(name: Seq<char>) -> Kind {
    if same_name(name, "warcinfo"@) {
        Kind::Warcinfo
    } else if same_name(name, "request"@) {
        Kind::Request
    } else if same_name(name, "response"@) {
        Kind::Response
    } else if same_name(name, "metadata"@) {
        Kind::Metadata
    } else if same_name(name, "revisit"@) {
        Kind::Revisit
    } else if same_name(name, "resource"@) {
        Kind::Resource
    } else if same_name(name, "conversion"@) {
        Kind::Conversion
    } else if same_name(name, "continuation"@) {
        Kind::Continuation
    } else {
        Kind::Unknown(lowercase(name))
    }
}

/// How octets stand to others in the order of the first that differs.
pub open spec fn octet_order(a: Seq<u8>, b: Seq<u8>) -> Ordering
    decreases a.len(),
{
    if a.len() == 0 || b.len() == 0 {
        if a.len() < b.len() {
            Ordering::Less
        } else if a.len() > b.len() {
            Ordering::Greater
        } else {
            Ordering::Equal
        }
    } else if a[0] < b[0] {
        Ordering::Less
    } else if a[0] > b[0] {
        Ordering::Greater
    } else {
        octet_order(a.skip(1), b.skip(1))
    }
}

/// How a record type stands to another in the canonical order: by position, and unknown types by
/// name.
pub open spec fn kind_order(a: Kind, b: Kind) -> Ordering {
    if kind_rank(a) < kind_rank(b) {
        Ordering::Less
    } else if kind_rank(a) > kind_rank(b) {
        Ordering::Greater
    } else {
        match (a, b) {
            (Kind::Unknown(x), Kind::Unknown(y)) => octet_order(octets(x), octets(y)),
            _ => Ordering::Equal,
        }
    }
}

/// Octets that stand before or behind none of each other are the same.
proof fn lemma_octet_order(a: Seq<u8>, b: Seq<u8>)
    ensures
        octet_order(a, b) is Equal <==> a == b,
    decreases a.len(),
{
    if a.len() > 0 && b.len() > 0 {
        lemma_octet_order(a.skip(1), b.skip(1));
        if a[0] == b[0] && a.skip(1) == b.skip(1) {
            assert(a =~= seq![a[0]] + a.skip(1));
            assert(b =~= seq![b[0]] + b.skip(1));
        }
    } else if a.len() == b.len() {
        assert(a =~= b);
    }
}

/// The canonical order follows the positions of record types: one that is not behind another has no
/// later position, and different types share a position only where the standard defines neither.
pub proof fn lemma_order_follows_rank(a: Kind, b: Kind)
    ensures
        !(kind_order(a, b) is Greater) ==> kind_rank(a) <= kind_rank(b),
        kind_order(a, b) is Equal <==> a == b,
        a != b && kind_rank(a) == kind_rank(b) ==> a is Unknown && b is Unknown && kind_rank(a)
            == 8,
        0 <= kind_rank(a) <= 8,
{
    match (a, b) {
        (Kind::Unknown(x), Kind::Unknown(y)) => {
            lemma_octet_order(octets(x), octets(y));
            if octets(x) == octets(y) {
                lemma_octets_injective(x, y);
            }
        },
        _ => {},
    }
}

/// The octets from a position on.
spec fn rest_of(s: Seq<u8>, i: usize) -> Seq<u8> {
    s.skip(i as int)
}

proof fn lemma_rest(s: Seq<u8>, i: usize)
    requires
        i < s.len(),
    ensures
        rest_of(s, i)[0] == s[i as int],
        rest_of(s, i).skip(1) == s.skip(i + 1),
{
    assert(rest_of(s, i).skip(1) =~= s.skip(i + 1));
}

/// How octets stand to others.
fn compare_octets(a: &[u8], b: &[u8]) -> (r: Ordering)
    ensures
        r == octet_order(a@, b@),
{
    let mut i: usize = 0;
    let ghost mut x: Seq<u8> = a@;
    let ghost mut y: Seq<u8> = b@;
    proof {
        assert(a@.skip(0) =~= a@);
        assert(b@.skip(0) =~= b@);
    }
    while i < a.len() && i < b.len()
        invariant
            i <= a.len(),
            i <= b.len(),
            octet_order(a@, b@) == octet_order(x, y),
            x == rest_of(a@, i),
            y == rest_of(b@, i),
        decreases a.len() - i,
    {
        if a[i] < b[i] {
            return Ordering::Less;
        }
        if a[i] > b[i] {
            return Ordering::Greater;
        }
        proof {
            lemma_rest(a@, i);
            lemma_rest(b@, i);
            x = x.skip(1);
            y = y.skip(1);
        }
        i = i + 1;
    }
    if i < b.len() {
        Ordering::Less
    } else if i < a.len() {
        Ordering::Greater
    } else {
        Ordering::Equal
    }
}

impl PartialOrd for RecordType {
    fn partial_cmp(&self, other: &Self) -> (r: Option<Ordering>) {
        if self.canonical_rank() < other.canonical_rank() {
            return Some(Ordering::Less);
        }
        if self.canonical_rank() > other.canonical_rank() {
            return Some(Ordering::Greater);
        }
        match (self, other) {
            (RecordType::Unknown(a), RecordType::Unknown(b)) => Some(
                compare_octets(a.as_str().as_bytes(), b.as_str().as_bytes()),
            ),
            _ => Some(Ordering::Equal),
        }
    }
}

impl vstd::std_specs::cmp::PartialOrdSpecImpl for RecordType {
    open spec fn obeys_partial_cmp_spec() -> bool {
        true
    }

    open spec fn partial_cmp_spec(&self, other: &Self) -> Option<Ordering> {
        Some(kind_order(self@, other@))
    }
}

impl RecordType {
    /// The zero-based position in the canonical record-type order.
    ///
    /// Standard types have stable ranks from 0 through 7. All unknown types have rank 8;
    /// [`Ord`] additionally compares their names. The archiver uses the rank plus one as the
    /// type byte in its record ID scheme.
    pub fn canonical_rank(&self) -> (r: u8)
        ensures
            r == kind_rank(self@),
    {
        match self {
            RecordType::Warcinfo => 0,
            RecordType::Request => 1,
            RecordType::Response => 2,
            RecordType::Metadata => 3,
            RecordType::Revisit => 4,
            RecordType::Resource => 5,
            RecordType::Conversion => 6,
            RecordType::Continuation => 7,
            RecordType::Unknown(_) => 8,
        }
    }

    /// The name used to serialize this value.
    pub fn as_str(&self) -> (r: &str)
        ensures
            r@ == kind_name(self@),
    {
        match self {
            RecordType::Warcinfo => "warcinfo",
            RecordType::Request => "request",
            RecordType::Response => "response",
            RecordType::Metadata => "metadata",
            RecordType::Revisit => "revisit",
            RecordType::Resource => "resource",
            RecordType::Conversion => "conversion",
            RecordType::Continuation => "continuation",
            RecordType::Unknown(name) => name.as_str(),
        }
    }

    /// The name used to serialize this value.
    pub fn to_string(&self) -> (r: String)
        ensures
            r@ == kind_name(self@),
    {
        self.as_str().to_owned()
    }

    /// Parse a record type without regard to case.
    pub fn from(name: &str) -> (r: Self)
        ensures
            r@ == kind_named(name@),
    {
        if same_ignoring_case(name, "warcinfo") {
            RecordType::Warcinfo
        } else if same_ignoring_case(name, "request") {
            RecordType::Request
        } else if same_ignoring_case(name, "response") {
            RecordType::Response
        } else if same_ignoring_case(name, "metadata") {
            RecordType::Metadata
        } else if same_ignoring_case(name, "revisit") {
            RecordType::Revisit
        } else if same_ignoring_case(name, "resource") {
            RecordType::Resource
        } else if same_ignoring_case(name, "conversion") {
            RecordType::Conversion
        } else if same_ignoring_case(name, "continuation") {
            RecordType::Continuation
        } else {
            RecordType::Unknown(to_lowercase(name))
        }
    }
}

/// The length of a standard type's name and two of its letters, which tell it from every other.
spec fn trait_of(kind: Kind) -> (nat, u8, u8) {
    match kind {
        Kind::Warcinfo => (8, 0x77, 0x63),
        Kind::Request => (7, 0x72, 0x75),
        Kind::Response => (8, 0x72, 0x70),
        Kind::Metadata => (8, 0x6d, 0x61),
        Kind::Revisit => (7, 0x72, 0x69),
        Kind::Resource => (8, 0x72, 0x6f),
        Kind::Conversion => (10, 0x63, 0x76),
        Kind::Continuation => (12, 0x63, 0x74),
        Kind::Unknown(_) => (0, 0, 0),
    }
}

proof fn lemma_trait(kind: Kind)
    requires
        !(kind is Unknown),
    ensures
        ({
            let name = kind_name(kind);
            &&& is_ascii_chars(name)
            &&& trait_of(kind) == (name.len(), lower(name[0] as u8), lower(name[3] as u8))
            &&& name.len() > 3
            &&& forall|i: int|
                0 <= i < name.len() ==> crate::parsing::is_token_char((#[trigger] name[i]) as u8)
        }),
{
    match kind {
        Kind::Warcinfo => {
            reveal_strlit("warcinfo");
        },
        Kind::Request => {
            reveal_strlit("request");
        },
        Kind::Response => {
            reveal_strlit("response");
        },
        Kind::Metadata => {
            reveal_strlit("metadata");
        },
        Kind::Revisit => {
            reveal_strlit("revisit");
        },
        Kind::Resource => {
            reveal_strlit("resource");
        },
        Kind::Conversion => {
            reveal_strlit("conversion");
        },
        Kind::Continuation => {
            reveal_strlit("continuation");
        },
        Kind::Unknown(_) => {},
    }
}

proof fn lemma_names_differ(a: Kind, b: Kind)
    requires
        !(a is Unknown),
        !(b is Unknown),
        same_name(kind_name(a), kind_name(b)),
    ensures
        a == b,
{
    lemma_trait(a);
    lemma_trait(b);
    let x = kind_name(a);
    let y = kind_name(b);
    is_ascii_chars_encode_utf8(x);
    is_ascii_chars_encode_utf8(y);
    assert(lowered(octets(x)).len() == lowered(octets(y)).len());
    assert(lowered(octets(x))[0] == lower(octets(x)[0]));
    assert(lowered(octets(y))[0] == lower(octets(y)[0]));
    assert(lowered(octets(x))[3] == lower(octets(x)[3]));
    assert(lowered(octets(y))[3] == lower(octets(y)[3]));
    assert(x[0] as u8 == octets(x)[0]);
    assert(y[0] as u8 == octets(y)[0]);
    assert(x[3] as u8 == octets(x)[3]);
    assert(y[3] as u8 == octets(y)[3]);
    assert(trait_of(a) == trait_of(b));
}

/// A standard record type is read back from its name, which is a token.
pub proof fn lemma_kind_is_named(kind: Kind)
    requires
        !(kind is Unknown),
    ensures
        kind_named(kind_name(kind)) == kind,
        crate::parsing::is_token(octets(kind_name(kind))),
{
    let name = kind_name(kind);
    lemma_trait(kind);
    is_ascii_chars_encode_utf8(name);
    assert forall|i: int| 0 <= i < octets(name).len() implies crate::parsing::is_token_char(
        #[trigger] octets(name)[i],
    ) by {
        assert(octets(name)[i] == name[i] as u8);
        assert(crate::parsing::is_token_char(name[i] as u8));
    }
    if same_name(name, "warcinfo"@) {
        lemma_names_differ(kind, Kind::Warcinfo);
    }
    if same_name(name, "request"@) {
        lemma_names_differ(kind, Kind::Request);
    }
    if same_name(name, "response"@) {
        lemma_names_differ(kind, Kind::Response);
    }
    if same_name(name, "metadata"@) {
        lemma_names_differ(kind, Kind::Metadata);
    }
    if same_name(name, "revisit"@) {
        lemma_names_differ(kind, Kind::Revisit);
    }
    if same_name(name, "resource"@) {
        lemma_names_differ(kind, Kind::Resource);
    }
    if same_name(name, "conversion"@) {
        lemma_names_differ(kind, Kind::Conversion);
    }
    if same_name(name, "continuation"@) {
        lemma_names_differ(kind, Kind::Continuation);
    }
    assert(same_name(name, kind_name(kind)));
}

/// A name stands for a standard record type exactly where it differs from the type's own in the
/// case of letters alone.
pub proof fn lemma_kind_is_told(name: Seq<char>, kind: Kind)
    requires
        !(kind is Unknown),
    ensures
        kind_named(name) == kind <==> same_but_for_case(octets(name), octets(kind_name(kind))),
{
    lemma_kind_is_named(kind);
}

} // verus!
