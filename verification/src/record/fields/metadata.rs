//! The body of a `metadata` record, read as `application/warc-fields`.
//!
//! A `metadata` record describes another record. The standard names three fields of its own beside
//! the DCMI terms: the referring URI, the hops from a seed, and the time a fetch took.

use crate::record::fields::dcmi::DcmiTerm;
use crate::record::fields::{values_of, Body, Field};
use crate::text::{chars_of, same_text, string_of};
use crate::octets::{decimal_value, is_decimal, octets, parse_decimal};
use vstd::prelude::*;

verus! {

/// The type of a hop from one URI to another.
#[derive(Clone, Copy, Debug, Hash, PartialEq, Eq, Structural)]
pub enum Hop {
    /// `L`: a link was followed.
    Link,
    /// `E`: an embedded resource was fetched.
    Embed,
    /// `X`: a speculative embed was fetched, such as one found in a script.
    Speculative,
    /// `R`: a redirect was followed.
    Redirect,
    /// `P`: a prerequisite of another URI was fetched, such as its robots policy.
    Prerequisite,
}

/// The letter of a hop.
pub open spec fn hop_letter(hop: Hop) -> char {
    match hop {
        Hop::Link => 'L',
        Hop::Embed => 'E',
        Hop::Speculative => 'X',
        Hop::Redirect => 'R',
        Hop::Prerequisite => 'P',
    }
}

/// The letters of hops.
pub open spec fn hop_letters(hops: Seq<Hop>) -> Seq<char> {
    hops.map_values(|hop: Hop| hop_letter(hop))
}

/// The hops from a seed URI to an archived one, none for the seed itself.
#[derive(Clone, Debug, PartialEq, Eq)]
pub struct HopsFromSeed {
    /// The hops in order.
    pub hops: Vec<Hop>,
}

/// A text is not a path of hops.
#[derive(Clone, Debug, PartialEq, Eq)]
pub struct HopsError(pub String);

impl HopsFromSeed {
    /// Read a path of hops, one letter each.
    pub fn parse(path: &str) -> (r: Result<Self, HopsError>)
        ensures
            match r {
                Ok(read) => hop_letters(read.hops@) == path@,
                Err(error) => error.0@ == path@
                    && forall|hops: Seq<Hop>| hop_letters(hops) != path@,
            },
    {
        let letters = chars_of(path);
        let mut hops: Vec<Hop> = Vec::new();
        let mut i: usize = 0;
        while i < letters.len()
            invariant
                i <= letters.len(),
                letters@ == path@,
                hop_letters(hops@) == path@.take(i as int),
            decreases letters.len() - i,
        {
            let ghost before = hops@;
            let hop = match letters[i] {
                'L' => Hop::Link,
                'E' => Hop::Embed,
                'X' => Hop::Speculative,
                'R' => Hop::Redirect,
                'P' => Hop::Prerequisite,
                _ => {
                    proof {
                        assert forall|hops: Seq<Hop>| hop_letters(hops) != path@ by {
                            if hop_letters(hops) == path@ {
                                assert(hop_letters(hops)[i as int] == hop_letter(hops[i as int]));
                            }
                        }
                    }
                    return Err(HopsError(path.to_owned()));
                },
            };
            hops.push(hop);
            assert(hop_letters(hops@) =~= hop_letters(before).push(hop_letter(hop)));
            assert(path@.take(i + 1) =~= path@.take(i as int).push(path@[i as int]));
            i = i + 1;
        }
        assert(path@.take(i as int) =~= path@);
        Ok(HopsFromSeed { hops })
    }

    /// The letters of the hops.
    pub fn to_string(&self) -> (r: String)
        ensures
            r@ == hop_letters(self.hops@),
    {
        let mut out: Vec<char> = Vec::new();
        let mut i: usize = 0;
        while i < self.hops.len()
            invariant
                i <= self.hops.len(),
                out@ == hop_letters(self.hops@.take(i as int)),
            decreases self.hops.len() - i,
        {
            let letter = match self.hops[i] {
                Hop::Link => 'L',
                Hop::Embed => 'E',
                Hop::Speculative => 'X',
                Hop::Redirect => 'R',
                Hop::Prerequisite => 'P',
            };
            out.push(letter);
            assert(out@ =~= hop_letters(self.hops@.take(i + 1)));
            i = i + 1;
        }
        assert(self.hops@.take(i as int) =~= self.hops@);
        string_of(&out)
    }
}

impl std::str::FromStr for HopsFromSeed {
    type Err = HopsError;

    fn from_str(path: &str) -> Result<Self, HopsError> {
        HopsFromSeed::parse(path)
    }
}

/// A field of a `metadata` record's body.
///
/// The variants defined for `metadata` come first. Any DCMI metadata term is a
/// [`Dcmi`](Self::Dcmi), and anything else is an [`Other`](Self::Other).
#[derive(Clone, Debug, Hash, Eq, PartialEq)]
pub enum MetadataField {
    /// `via`: the referring URI from which the archived URI was discovered.
    Via,
    /// `hopsFromSeed`: the type of each hop from a starting seed URI to the archived one.
    HopsFromSeed,
    /// `fetchTimeMs`: the time from initiating network traffic to completing the capture, in
    /// milliseconds.
    FetchTimeMs,
    /// A metadata term from the DCMI vocabulary, all of which are allowed here.
    Dcmi(DcmiTerm),
    /// Any other field, held under the lower-cased spelling of its name.
    Other(String),
}

/// What a [`MetadataField`] stands for.
pub ghost enum Named {
    /// `via`.
    Via,
    /// `hopsFromSeed`.
    HopsFromSeed,
    /// `fetchTimeMs`.
    FetchTimeMs,
    /// A DCMI term.
    Dcmi(DcmiTerm),
    /// Any other field.
    Other(Seq<char>),
}

impl View for MetadataField {
    type V = Named;

    open spec fn view(&self) -> Named {
        match self {
            MetadataField::Via => Named::Via,
            MetadataField::HopsFromSeed => Named::HopsFromSeed,
            MetadataField::FetchTimeMs => Named::FetchTimeMs,
            MetadataField::Dcmi(term) => Named::Dcmi(*term),
            MetadataField::Other(name) => Named::Other(name@),
        }
    }
}

impl Field for MetadataField {
    open spec fn known_fields() -> Seq<Named> {
        seq![
            Named::Via,
            Named::HopsFromSeed,
            Named::FetchTimeMs,
        ]
    }

    open spec fn named(field: Named) -> Seq<char> {
        match field {
            Named::Via => "via"@,
            Named::HopsFromSeed => "hopsFromSeed"@,
            Named::FetchTimeMs => "fetchTimeMs"@,
            Named::Dcmi(term) => term.named(),
            Named::Other(name) => name,
        }
    }

    open spec fn dcmi_field(term: DcmiTerm) -> Named {
        Named::Dcmi(term)
    }

    open spec fn other_field(name: Seq<char>) -> Named {
        Named::Other(name)
    }

    fn known() -> (r: Vec<Self>) {
        let all: Vec<MetadataField> = vec![
            MetadataField::Via,
            MetadataField::HopsFromSeed,
            MetadataField::FetchTimeMs,
        ];
        assert(all@.map_values(|field: MetadataField| field@) =~= Self::known_fields());
        all
    }

    fn name(&self) -> (r: &str) {
        match self {
            MetadataField::Via => "via",
            MetadataField::HopsFromSeed => "hopsFromSeed",
            MetadataField::FetchTimeMs => "fetchTimeMs",
            MetadataField::Dcmi(term) => term.name(),
            MetadataField::Other(name) => name.as_str(),
        }
    }

    fn dcmi(term: DcmiTerm) -> (r: Self) {
        MetadataField::Dcmi(term)
    }

    fn other(name: String) -> (r: Self) {
        MetadataField::Other(name)
    }

    fn is_same(&self, other: &Self) -> (r: bool) {
        match (self, other) {
            (MetadataField::Via, MetadataField::Via) => true,
            (MetadataField::HopsFromSeed, MetadataField::HopsFromSeed) => true,
            (MetadataField::FetchTimeMs, MetadataField::FetchTimeMs) => true,
            (MetadataField::Dcmi(a), MetadataField::Dcmi(b)) => *a == *b,
            (MetadataField::Other(a), MetadataField::Other(b)) => same_text(a.as_str(), b.as_str()),
            _ => false,
        }
    }
}

impl MetadataField {
    /// The field's name in its canonical spelling.
    pub fn to_string(&self) -> (r: String)
        ensures
            r@ == <MetadataField as Field>::named(self@),
    {
        self.name().to_owned()
    }

    /// Read a name as the field it names.
    pub fn from(name: &str) -> (r: Self)
        ensures
            r@ == crate::record::fields::field_named::<MetadataField>(name@),
    {
        Self::from_name(name)
    }
}

/// The body of a `metadata` record, read as `application/warc-fields`.
pub type MetadataBody = Body<MetadataField>;

/// The first of a field's values, where it has one.
pub open spec fn first_value(body: MetadataBody, field: Named) -> Option<Seq<char>> {
    let values = values_of(body@.fields, field);
    if values.len() > 0 {
        Some(values[0])
    } else {
        None
    }
}

/// A text, where there is one.
pub open spec fn text_of(value: Option<&str>) -> Option<Seq<char>> {
    match value {
        Some(value) => Some(value@),
        None => None,
    }
}

impl Body<MetadataField> {
    /// The referring URI from which the archived URI was discovered.
    pub fn via(&self) -> (r: Option<&str>)
        ensures
            text_of(r) == first_value(*self, Named::Via),
    {
        self.get(&MetadataField::Via)
    }

    /// The type of each hop from a starting seed URI to the archived one, as it is spelled.
    pub fn hops_from_seed(&self) -> (r: Option<&str>)
        ensures
            text_of(r) == first_value(*self, Named::HopsFromSeed),
    {
        self.get(&MetadataField::HopsFromSeed)
    }

    /// The time from initiating network traffic to completing the capture in milliseconds, or
    /// `None` if the field is absent or holds something that is not a number.
    pub fn fetch_time_ms(&self) -> (r: Option<u64>)
        ensures
            match first_value(*self, Named::FetchTimeMs) {
                Some(value) => if is_decimal(octets(value)) && decimal_value(octets(value))
                    <= u64::MAX {
                    r is Some && r->0 == decimal_value(octets(value))
                } else {
                    r is None
                },
                None => r is None,
            },
    {
        match self.get(&MetadataField::FetchTimeMs) {
            Some(value) => parse_decimal(value.as_bytes()),
            None => None,
        }
    }
}

} // verus!
