//! Support for WARC extensions.
//!
//! The WARC standard allows extensions to define record types, header fields, and truncation
//! reasons. [`Extension`] describes such a vocabulary at compile time. Use [`NoExtension`] for
//! the core format alone.

use crate::octets::{equal_ignoring_case, octets, same_but_for_case};
use crate::record::Error;
use std::fmt::Debug;
use vstd::prelude::*;
use vstd::string::*;

verus! {

/// What a name or a token spells.
pub type Spelling = Seq<char>;

/// Header lines: names and values, in order.
pub type Lines = Seq<(Seq<char>, Seq<char>)>;

/// What the name and the value of a line say.
pub open spec fn line_of(line: (String, String)) -> (Seq<char>, Seq<char>) {
    (line.0@, line.1@)
}

/// What lines say.
pub open spec fn lines_of(lines: Seq<(String, String)>) -> Lines {
    lines.map_values(|line: (String, String)| line_of(line))
}

/// Whether two names are the same field's, whatever the case of their ASCII letters.
pub open spec fn same_name(a: Seq<char>, b: Seq<char>) -> bool {
    same_but_for_case(octets(a), octets(b))
}

/// The values of the lines with the name, in order.
pub open spec fn values_named(lines: Lines, name: Seq<char>) -> Seq<Seq<char>>
    decreases lines.len(),
{
    if lines.len() == 0 {
        Seq::empty()
    } else {
        let before = values_named(lines.drop_last(), name);
        if same_name(lines.last().0, name) {
            before.push(lines.last().1)
        } else {
            before
        }
    }
}

/// The lines with any other name, in order.
pub open spec fn lines_not_named(lines: Lines, name: Seq<char>) -> Lines
    decreases lines.len(),
{
    if lines.len() == 0 {
        Seq::empty()
    } else {
        let before = lines_not_named(lines.drop_last(), name);
        if same_name(lines.last().0, name) {
            before
        } else {
            before.push(lines.last())
        }
    }
}

/// Whether a line has the name.
pub open spec fn names(lines: Lines, name: Seq<char>) -> bool {
    exists|i: int| 0 <= i < lines.len() && same_name(#[trigger] lines[i].0, name)
}

/// The names of the lines, each as the first line with it spells it, in order.
pub open spec fn distinct_names(lines: Lines) -> Seq<Seq<char>>
    decreases lines.len(),
{
    if lines.len() == 0 {
        Seq::empty()
    } else {
        let before = distinct_names(lines.drop_last());
        if names(lines.drop_last(), lines.last().0) {
            before
        } else {
            before.push(lines.last().0)
        }
    }
}

/// Once a name's lines are taken out, none is left with it.
pub proof fn lemma_claimed_names_are_gone(lines: Lines, name: Seq<char>)
    ensures
        !names(lines_not_named(lines, name), name),
        values_named(lines_not_named(lines, name), name) == Seq::<Seq<char>>::empty(),
    decreases lines.len(),
{
    if lines.len() > 0 {
        lemma_claimed_names_are_gone(lines.drop_last(), name);
        let before = lines_not_named(lines.drop_last(), name);
        let kept = lines_not_named(lines, name);
        if !same_name(lines.last().0, name) {
            assert(kept.drop_last() =~= before);
            assert forall|i: int| 0 <= i < kept.len() implies !same_name(
                #[trigger] kept[i].0,
                name,
            ) by {
                if i < before.len() {
                    assert(kept[i] == before[i]);
                }
            }
        }
    }
}

/// Taking out a name's lines leaves the values of every other name as they are.
pub proof fn lemma_other_names_are_kept(lines: Lines, name: Seq<char>, other: Seq<char>)
    requires
        !same_name(other, name),
    ensures
        values_named(lines_not_named(lines, name), other) == values_named(lines, other),
    decreases lines.len(),
{
    if lines.len() > 0 {
        lemma_other_names_are_kept(lines.drop_last(), name, other);
        let kept = lines_not_named(lines, name);
        if !same_name(lines.last().0, name) {
            assert(kept.drop_last() =~= lines_not_named(lines.drop_last(), name));
        }
    }
}

/// A vocabulary of record types and named fields layered on top of the core WARC format.
///
/// Implementations are marker types. Each associated field type contains the fields added to one
/// core record type. Use [`NoFields`] where the extension adds no fields.
pub trait Extension: Clone + Debug + Eq {
    /// The record types the extension defines. Use [`Never`] if it defines none.
    type Types: ExtensionRecordType;

    /// The truncation reasons the extension defines. Use [`Never`] if it defines none.
    type TruncatedReasons: ExtensionTruncatedReason;

    /// The fields the extension adds to a `warcinfo` record.
    type WarcinfoFields: ExtensionFields;

    /// The fields the extension adds to a `response` record.
    type ResponseFields: ExtensionFields;

    /// The fields the extension adds to a `resource` record.
    type ResourceFields: ExtensionFields;

    /// The fields the extension adds to a `request` record.
    type RequestFields: ExtensionFields;

    /// The fields the extension adds to a `metadata` record.
    type MetadataFields: ExtensionFields;

    /// The fields the extension adds to a `revisit` record.
    type RevisitFields: ExtensionFields;

    /// The fields the extension adds to a `conversion` record.
    type ConversionFields: ExtensionFields;

    /// The fields the extension adds to a `continuation` record.
    type ContinuationFields: ExtensionFields;
}

/// The fields an extension adds to one of the core record types.
///
/// During reading, an extension claims its fields from the lines that the standard does not
/// define. During writing, the extension appends its field lines. [`NoFields`] claims
/// and appends nothing.
pub trait ExtensionFields: Clone + Debug + Eq {
    /// The lines that the fields are written as, in order.
    spec fn written(&self) -> Lines;

    /// Whether the fields are the ones that the lines hold, where `left` is what is not claimed.
    spec fn claims(&self, lines: Lines, left: Lines) -> bool;

    /// Whether the lines hold a malformed or no mandatory field of the extension, as the error
    /// says.
    spec fn refuses(lines: Lines, error: Error) -> bool;

    /// Claim and parse the extension's fields from the remaining header lines.
    ///
    /// # Errors
    ///
    /// Returns an error for a malformed or missing extension field.
    fn from_unclaimed(fields: &mut Unclaimed) -> (r: Result<Self, Error>)
        ensures
            match r {
                Ok(claimed) => claimed.claims(old(fields)@, final(fields)@),
                Err(error) => Self::refuses(old(fields)@, error),
            },
    ;

    /// Append these fields as header lines, in their desired order.
    fn append_to(&self, fields: &mut Vec<(String, String)>)
        ensures
            lines_of(final(fields)@) == lines_of(old(fields)@) + self.written(),
    ;
}

/// The fields of an extension that adds none to a record type.
#[derive(Clone, Copy, Debug, Hash, Eq, PartialEq)]
pub struct NoFields;

impl Default for NoFields {
    fn default() -> (r: Self)
        ensures
            r == NoFields,
    {
        NoFields
    }
}

impl ExtensionFields for NoFields {
    open spec fn written(&self) -> Lines {
        Seq::empty()
    }

    open spec fn claims(&self, lines: Lines, left: Lines) -> bool {
        left == lines
    }

    open spec fn refuses(lines: Lines, error: Error) -> bool {
        false
    }

    fn from_unclaimed(_fields: &mut Unclaimed) -> (r: Result<Self, Error>) {
        Ok(NoFields)
    }

    fn append_to(&self, _fields: &mut Vec<(String, String)>) {
        assert(lines_of(_fields@) =~= lines_of(_fields@) + Seq::empty());
    }
}

/// The header lines of a record that no vocabulary has claimed yet.
#[derive(Debug)]
pub struct Unclaimed {
    /// The remaining `(name, value)` lines, in order and with their original names.
    fields: Vec<(String, String)>,
}

impl View for Unclaimed {
    type V = Lines;

    closed spec fn view(&self) -> Lines {
        lines_of(self.fields@)
    }
}

impl Unclaimed {
    /// Hold the remaining header lines.
    pub fn new(fields: Vec<(String, String)>) -> (r: Self)
        ensures
            r@ == lines_of(fields@),
    {
        Unclaimed { fields }
    }

    /// The lines that are left.
    pub fn into_fields(self) -> (r: Vec<(String, String)>)
        ensures
            lines_of(r@) == self@,
    {
        self.fields
    }

    /// Remove every field with this name and return its values in order.
    ///
    /// Names are compared without regard to case. All occurrences are removed, so the extension
    /// decides whether repetition is valid. An empty result means the field is absent.
    pub fn claim(&mut self, name: &str) -> (r: Vec<String>)
        ensures
            r@.map_values(|value: String| value@) == values_named(old(self)@, name@),
            final(self)@ == lines_not_named(old(self)@, name@),
    {
        let mut all: Vec<(String, String)> = Vec::new();
        all.append(&mut self.fields);
        let ghost lines = lines_of(all@);
        assert(all@ =~= old(self).fields@);
        let mut claimed: Vec<String> = Vec::new();
        let mut kept: Vec<(String, String)> = Vec::new();
        for line in it: all.into_iter()
            invariant
                lines == lines_of(it.seq()),
                claimed@.map_values(|value: String| value@) == values_named(
                    lines.take(it.index()),
                    name@,
                ),
                lines_of(kept@) == lines_not_named(lines.take(it.index()), name@),
        {
            let ghost n = it.index();
            let ghost next = lines.take(n + 1);
            let ghost claimed_before = claimed@;
            let ghost kept_before = kept@;
            proof {
                assert(next.drop_last() =~= lines.take(n));
                assert(next.last() == line_of(line));
            }
            let (stored, value) = line;
            if equal_ignoring_case(stored.as_str().as_bytes(), name.as_bytes()) {
                claimed.push(value);
                assert(claimed@.map_values(|value: String| value@)
                    =~= claimed_before.map_values(|value: String| value@).push(value@));
            } else {
                kept.push((stored, value));
                assert(lines_of(kept@) =~= lines_of(kept_before).push(next.last()));
            }
        }
        assert(lines.take(lines.len() as int) =~= lines);
        self.fields = kept;
        claimed
    }

    /// Return the values for this name in order without claiming them.
    pub fn get(&self, name: &str) -> (r: Vec<&str>)
        ensures
            r@.map_values(|value: &str| value@) == values_named(self@, name@),
    {
        let ghost lines = self@;
        let mut found: Vec<&str> = Vec::new();
        let mut i: usize = 0;
        while i < self.fields.len()
            invariant
                i <= self.fields.len(),
                lines == lines_of(self.fields@),
                found@.map_values(|value: &str| value@) == values_named(
                    lines.take(i as int),
                    name@,
                ),
            decreases self.fields.len() - i,
        {
            let ghost next = lines.take(i + 1);
            let ghost before = found@;
            proof {
                assert(next.drop_last() =~= lines.take(i as int));
                assert(next.last() == line_of(self.fields@[i as int]));
            }
            if equal_ignoring_case(self.fields[i].0.as_str().as_bytes(), name.as_bytes()) {
                found.push(self.fields[i].1.as_str());
                assert(found@.map_values(|value: &str| value@)
                    =~= before.map_values(|value: &str| value@).push(next.last().1));
            }
            i = i + 1;
        }
        assert(lines.take(lines.len() as int) =~= lines);
        found
    }

    /// Whether one of the first `n` lines has the name.
    fn named_before(&self, n: usize, name: &str) -> (r: bool)
        requires
            n <= self@.len(),
        ensures
            r == names(self@.take(n as int), name@),
    {
        let ghost lines = self@;
        let mut i: usize = 0;
        while i < n
            invariant
                i <= n <= self.fields.len(),
                lines == lines_of(self.fields@),
                lines == self@,
                forall|j: int| 0 <= j < i ==> !same_name(#[trigger] lines[j].0, name@),
            decreases n - i,
        {
            assert(lines[i as int] == line_of(self.fields@[i as int]));
            if equal_ignoring_case(self.fields[i].0.as_str().as_bytes(), name.as_bytes()) {
                assert(same_name(lines.take(n as int)[i as int].0, name@));
                return true;
            }
            i = i + 1;
        }
        false
    }

    /// The remaining names in order, repeated names only once.
    ///
    /// Names are compared without regard to case. The spelling comes from the first occurrence.
    pub fn iter(&self) -> (r: Vec<&str>)
        ensures
            r@.map_values(|name: &str| name@) == distinct_names(self@),
    {
        let ghost lines = self@;
        let mut found: Vec<&str> = Vec::new();
        let mut i: usize = 0;
        while i < self.fields.len()
            invariant
                i <= self.fields.len(),
                lines == lines_of(self.fields@),
                lines == self@,
                found@.map_values(|name: &str| name@) == distinct_names(lines.take(i as int)),
            decreases self.fields.len() - i,
        {
            let ghost next = lines.take(i + 1);
            let ghost before = found@;
            proof {
                assert(next.drop_last() =~= lines.take(i as int));
                assert(next.last() == line_of(self.fields@[i as int]));
            }
            if !self.named_before(i, self.fields[i].0.as_str()) {
                found.push(self.fields[i].0.as_str());
                assert(found@.map_values(|name: &str| name@)
                    =~= before.map_values(|name: &str| name@).push(next.last().0));
            }
            i = i + 1;
        }
        assert(lines.take(lines.len() as int) =~= lines);
        found
    }
}

/// A record type defined by an extension.
pub trait ExtensionRecordType: Clone + Debug + Eq {
    /// The name that the type gives itself.
    spec fn spelled(&self) -> Spelling;

    /// The type that a name is one of, where it is.
    spec fn of_name(name: Spelling) -> Option<Self>;

    /// The value this record's `WARC-Type` field carries.
    ///
    /// This is the spelling used when writing. It must not name a standard record type.
    fn spelling(&self) -> (r: &str)
        ensures
            r@ == self.spelled(),
    ;

    /// Parse an extension record type, or return `None` if the name is not recognized.
    ///
    /// The name is lowercase. Standard record types are handled before this method is called.
    fn from_type_name(name: &str) -> (r: Option<Self>)
        ensures
            r == Self::of_name(name@),
    ;
}

/// A truncation reason defined by an extension.
pub trait ExtensionTruncatedReason: Clone + Debug + Eq {
    /// The token that the reason is written as.
    spec fn token(&self) -> Spelling;

    /// The reason that a token names, where it names one.
    spec fn of_token(token: Spelling) -> Option<Self>;

    /// The token this reason's `WARC-Truncated` field carries.
    fn reason_token(&self) -> (r: &str)
        ensures
            r@ == self.token(),
    ;

    /// Parse an extension truncation reason, or return `None` if it is not recognized.
    ///
    /// Standard reasons are handled before this method is called. Tokens are case-insensitive.
    fn from_reason_token(token: &str) -> (r: Option<Self>)
        ensures
            r == Self::of_token(token@),
    ;
}

/// An uninhabited type for extensions that define no values of an associated type.
#[derive(Clone, Copy, Debug, Hash, Eq, PartialEq)]
pub enum Never {
    /// No value holds this.
    Impossible(std::convert::Infallible),
}

impl ExtensionRecordType for Never {
    open spec fn spelled(&self) -> Seq<char> {
        ""@
    }

    open spec fn of_name(name: Seq<char>) -> Option<Self> {
        None
    }

    fn spelling(&self) -> (r: &str) {
        ""
    }

    fn from_type_name(_name: &str) -> (r: Option<Self>) {
        None
    }
}

impl ExtensionTruncatedReason for Never {
    open spec fn token(&self) -> Seq<char> {
        ""@
    }

    open spec fn of_token(token: Seq<char>) -> Option<Self> {
        None
    }

    fn reason_token(&self) -> (r: &str) {
        ""
    }

    fn from_reason_token(_token: &str) -> (r: Option<Self>) {
        None
    }
}

/// The extension that adds nothing: the core WARC format on its own.
#[derive(Clone, Copy, Debug, Hash, Eq, PartialEq)]
pub struct NoExtension;

impl Default for NoExtension {
    fn default() -> (r: Self)
        ensures
            r == NoExtension,
    {
        NoExtension
    }
}

impl Extension for NoExtension {
    type Types = Never;

    type TruncatedReasons = Never;

    type WarcinfoFields = NoFields;

    type ResponseFields = NoFields;

    type ResourceFields = NoFields;

    type RequestFields = NoFields;

    type MetadataFields = NoFields;

    type RevisitFields = NoFields;

    type ConversionFields = NoFields;

    type ContinuationFields = NoFields;
}

} // verus!
