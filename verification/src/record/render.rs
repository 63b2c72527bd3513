//! Writing a record's semantic representation back into header fields.

use crate::octets::{append, octets};
use crate::parse::untyped::name::{field_named, Field, HeaderName, Named, FIELD_COUNT};
use crate::parse::untyped::value::{form_octets, said, Form, FieldValue, Said, ValueForm};
use crate::parse::untyped::{entries, entry, Entry};
use crate::parsing::{is_lws, is_token, lws, token};
use crate::record::error::{RenderError, RenderFault};
use crate::record::extension::{line_of, lines_of, ExtensionFields, Lines};
use crate::record::header::{profile_uri, PayloadHeaders, Profile, RevisitProfile};
use crate::record::lift::{
    date_fits_version, date_text, fits_version, repeated_field, repeated_from, shown, spell_date,
    uri_texts,
};
use crate::value::date::Date;
use crate::value::digest::Labelled;
use crate::value::media_type::Media;
use crate::value::text::Content;
use crate::value::uri::uri_fault;
use crate::value::{message, IpAddress, LabelledDigest, MediaType, Text, Uri, WarcDate};
use crate::version::WarcVersion;
use vstd::prelude::*;

verus! {

/// The lines written so far, or the first reason why they cannot be.
pub type Written = Result<Seq<Entry>, RenderFault>;

/// The line of a field that holds a form.
pub open spec fn line_for(field: Field, form: Form) -> Entry {
    (
        Named { field: Some(field), name: field.spelled() },
        Said { octets: seq![0x20u8] + form_octets(form), form: Some(form) },
    )
}

/// Lines with one for a field that holds a form, where the version defines the field.
pub open spec fn with_form(
    out: Written,
    version: WarcVersion,
    field: Field,
    form: Form,
) -> Written {
    match out {
        Err(fault) => Err(fault),
        Ok(lines) => if field.is_defined_in(version) {
            Ok(lines.push(line_for(field, form)))
        } else {
            Err(RenderFault::FieldNotInVersion(field, version))
        },
    }
}

/// Lines with one for a digest, where there is one.
pub open spec fn with_digest(
    out: Written,
    version: WarcVersion,
    field: Field,
    digest: Option<Labelled>,
) -> Written {
    match digest {
        Some(digest) => with_form(out, version, field, Form::Digest(digest)),
        None => out,
    }
}

/// Lines with one for a media type, where there is one.
pub open spec fn with_media_type(
    out: Written,
    version: WarcVersion,
    field: Field,
    media: Option<Media>,
) -> Written {
    match media {
        Some(media) => with_form(out, version, field, Form::MediaType(media)),
        None => out,
    }
}

/// Lines with one for a text, where there is one.
pub open spec fn with_text(
    out: Written,
    version: WarcVersion,
    field: Field,
    content: Option<Content>,
) -> Written {
    match content {
        Some(content) => with_form(out, version, field, Form::Text(content)),
        None => out,
    }
}

/// Lines with one for a number, where there is one.
pub open spec fn with_digits(
    out: Written,
    version: WarcVersion,
    field: Field,
    number: Option<nat>,
) -> Written {
    match number {
        Some(number) => with_form(out, version, field, Form::Digits(number)),
        None => out,
    }
}

/// Whether a version writes the URI of a field in angle brackets.
///
/// WARC 1.0 brackets every URI-valued field. WARC 1.1 brackets only the five whose value is a
/// record identifier, and writes the rest bare.
pub open spec fn is_bracketed_in(version: WarcVersion, field: Field) -> bool {
    version == WarcVersion::V1_0 || field is ConcurrentTo || field is RecordID || field is RefersTo
        || field is SegmentOriginID || field is WarcinfoID
}

/// Lines with one for a URI, where there is one.
pub open spec fn with_uri(
    out: Written,
    version: WarcVersion,
    field: Field,
    uri: Option<Seq<char>>,
) -> Written {
    match uri {
        Some(uri) => with_form(
            out,
            version,
            field,
            Form::Uri(uri, is_bracketed_in(version, field)),
        ),
        None => out,
    }
}

/// Lines with one for each URI.
pub open spec fn with_uris(
    out: Written,
    version: WarcVersion,
    field: Field,
    uris: Seq<Seq<char>>,
) -> Written
    decreases uris.len(),
{
    if uris.len() == 0 {
        out
    } else {
        with_uri(
            with_uris(out, version, field, uris.drop_last()),
            version,
            field,
            Some(uris.last()),
        )
    }
}

/// Lines with one for an address, where there is one.
pub open spec fn with_address(
    out: Written,
    version: WarcVersion,
    address: Option<IpAddress>,
) -> Written {
    match address {
        Some(address) => with_form(out, version, Field::IPAddress, Form::IpAddress(address)),
        None => out,
    }
}

/// Lines with one for a date, where there is one and the version has a spelling for it.
pub open spec fn with_date(
    out: Written,
    version: WarcVersion,
    field: Field,
    date: Option<Date>,
) -> Written {
    match (out, date) {
        (Err(fault), _) => Err(fault),
        (Ok(_), None) => out,
        (Ok(_), Some(date)) => if !fits_version(date, version) {
            Err(RenderFault::ValueNotInVersion(field, version, date_text(date)))
        } else {
            with_form(out, version, field, Form::Date(date))
        },
    }
}

/// Lines with one for a token, where there is one and it is a token.
pub open spec fn with_token(
    out: Written,
    version: WarcVersion,
    field: Field,
    token: Option<Seq<char>>,
) -> Written {
    match (out, token) {
        (Err(fault), _) => Err(fault),
        (Ok(_), None) => out,
        (Ok(_), Some(token)) => if !is_token(octets(token)) {
            Err(RenderFault::UnwritableField(field.spelled(), "`"@ + token + "` is not a token"@))
        } else {
            with_form(out, version, field, Form::Token(token))
        },
    }
}

/// Lines with one for a profile, where its URI is one.
pub open spec fn with_profile(out: Written, version: WarcVersion, profile: Profile) -> Written {
    match out {
        Err(fault) => Err(fault),
        Ok(_) => match uri_fault(profile_uri(profile)) {
            Some(fault) => Err(RenderFault::UnwritableField(Field::Profile.spelled(), fault)),
            None => with_uri(out, version, Field::Profile, Some(profile_uri(profile))),
        },
    }
}

/// Lines with those that describe a payload.
pub open spec fn with_payload(
    out: Written,
    version: WarcVersion,
    digest: Option<Labelled>,
    media: Option<Media>,
) -> Written {
    with_media_type(
        with_digest(out, version, Field::PayloadDigest, digest),
        version,
        Field::IdentifiedPayloadType,
        media,
    )
}

/// Lines with the number of the first segment, where the record is the origin of a series.
pub open spec fn with_origin(out: Written, version: WarcVersion, origin: bool) -> Written {
    with_digits(
        out,
        version,
        Field::SegmentNumber,
        if origin {
            Some(1nat)
        } else {
            None
        },
    )
}

/// Whether octets hold a carriage return or a line feed.
pub open spec fn holds_line_break(s: Seq<u8>) -> bool {
    exists|i: int| 0 <= i < s.len() && (#[trigger] s[i] == 0x0d || s[i] == 0x0a)
}

/// The octets behind the colon for a value: one that does not open with linear white space is
/// given a single space.
pub open spec fn spelled_value(value: Seq<u8>) -> Seq<u8> {
    if value.len() > 0 && is_lws(value[0]) {
        value
    } else {
        seq![0x20u8] + value
    }
}

/// Lines with a further one whose name and value can be read back.
///
/// A record of a type the standard defines writes every standard field from the value its own
/// header holds, so a name the standard defines is refused rather than written beside the field it
/// names.
pub open spec fn with_line(
    out: Written,
    version: WarcVersion,
    unconstrained: bool,
    line: (Seq<char>, Seq<char>),
) -> Written {
    let (name, value) = line;
    match out {
        Err(fault) => Err(fault),
        Ok(lines) => if !is_token(octets(name)) {
            Err(RenderFault::UnwritableField(name, "the name is not a token"@))
        } else if holds_line_break(octets(value)) {
            Err(RenderFault::UnwritableField(name, "the value holds a line break"@))
        } else if field_named(name) is Some && !unconstrained {
            Err(RenderFault::ReservedField(field_named(name)->0))
        } else if field_named(name) is Some && !field_named(name)->0.is_defined_in(version) {
            Err(RenderFault::FieldNotInVersion(field_named(name)->0, version))
        } else {
            match said(field_named(name), spelled_value(octets(value))) {
                Err(fault) => Err(RenderFault::UnwritableField(name, message(fault))),
                Ok(value) => Ok(lines.push((Named { field: field_named(name), name }, value))),
            }
        },
    }
}

/// Lines with further ones whose names and values can be read back.
pub open spec fn with_lines(
    out: Written,
    version: WarcVersion,
    unconstrained: bool,
    lines: Lines,
) -> Written
    decreases lines.len(),
{
    if lines.len() == 0 {
        out
    } else {
        with_line(
            with_lines(out, version, unconstrained, lines.drop_last()),
            version,
            unconstrained,
            lines.last(),
        )
    }
}

/// Lines that cannot be written stay so.
pub proof fn lemma_fault_stays(
    fault: RenderFault,
    version: WarcVersion,
    unconstrained: bool,
    lines: Lines,
)
    ensures
        with_lines(Err(fault), version, unconstrained, lines) == Err::<Seq<Entry>, RenderFault>(
            fault,
        ),
    decreases lines.len(),
{
    if lines.len() > 0 {
        lemma_fault_stays(fault, version, unconstrained, lines.drop_last());
    }
}

/// The position of a line in the conventional order: that of its field, or behind all fields.
pub open spec fn entry_rank(line: Entry) -> int {
    match line.0.field {
        Some(field) => field.rank(),
        None => FIELD_COUNT as int,
    }
}

/// The lines at one position of the conventional order.
pub open spec fn ranked(lines: Seq<Entry>, rank: int) -> Seq<Entry>
    decreases lines.len(),
{
    if lines.len() == 0 {
        lines
    } else {
        let before = ranked(lines.drop_last(), rank);
        if entry_rank(lines.last()) == rank {
            before.push(lines.last())
        } else {
            before
        }
    }
}

/// The lines before one position of the conventional order, in that order.
pub open spec fn ordered_to(lines: Seq<Entry>, rank: nat) -> Seq<Entry>
    decreases rank,
{
    if rank == 0 {
        Seq::empty()
    } else {
        ordered_to(lines, (rank - 1) as nat) + ranked(lines, rank - 1)
    }
}

/// Lines in the conventional order: standard fields first, each at its position, and the others
/// behind them. Lines at one position keep their order.
pub open spec fn ordered(lines: Seq<Entry>) -> Seq<Entry> {
    ordered_to(lines, (FIELD_COUNT + 1) as nat)
}

/// The lines from one position of the conventional order on.
spec fn from_rank(lines: Seq<Entry>, rank: int) -> Seq<Entry>
    decreases lines.len(),
{
    if lines.len() == 0 {
        lines
    } else {
        let before = from_rank(lines.drop_last(), rank);
        if entry_rank(lines.last()) >= rank {
            before.push(lines.last())
        } else {
            before
        }
    }
}

/// The lines at other positions of the conventional order.
spec fn unranked(lines: Seq<Entry>, rank: int) -> Seq<Entry>
    decreases lines.len(),
{
    if lines.len() == 0 {
        lines
    } else {
        let before = unranked(lines.drop_last(), rank);
        if entry_rank(lines.last()) == rank {
            before
        } else {
            before.push(lines.last())
        }
    }
}

proof fn lemma_rank_bounds(line: Entry)
    ensures
        0 <= entry_rank(line) <= FIELD_COUNT,
{
}

proof fn lemma_from_rank(lines: Seq<Entry>, rank: int)
    ensures
        from_rank(lines, 0) == lines,
        unranked(from_rank(lines, rank), rank) == from_rank(lines, rank + 1),
        ranked(from_rank(lines, rank), rank) == ranked(lines, rank),
    decreases lines.len(),
{
    if lines.len() > 0 {
        lemma_from_rank(lines.drop_last(), rank);
        lemma_rank_bounds(lines.last());
        assert(lines.drop_last().push(lines.last()) =~= lines);
        let before = from_rank(lines.drop_last(), rank);
        let all = from_rank(lines, rank);
        if all.len() > before.len() {
            assert(all.drop_last() =~= before);
        }
    }
}

/// Split lines into those at one position of the conventional order and the others.
fn split_rank(headers: Vec<(HeaderName, FieldValue)>, rank: usize) -> (r: (
    Vec<(HeaderName, FieldValue)>,
    Vec<(HeaderName, FieldValue)>,
))
    ensures
        entries(r.0@) == ranked(entries(headers@), rank as int),
        entries(r.1@) == unranked(entries(headers@), rank as int),
{
    let ghost all = entries(headers@);
    let mut left = headers;
    let mut found: Vec<(HeaderName, FieldValue)> = Vec::new();
    let mut others: Vec<(HeaderName, FieldValue)> = Vec::new();
    let ghost mut seen: int = 0;
    proof {
        assert(all.skip(0) =~= all);
        assert(all.take(0) =~= Seq::empty());
        assert(entries(found@) =~= Seq::empty());
        assert(entries(others@) =~= Seq::empty());
    }
    while left.len() > 0
        invariant
            0 <= seen <= all.len(),
            entries(left@) == all.skip(seen),
            entries(found@) == ranked(all.take(seen), rank as int),
            entries(others@) == unranked(all.take(seen), rank as int),
        decreases left.len(),
    {
        let ghost before = left@;
        let ghost found_before = found@;
        let ghost others_before = others@;
        let header = left.remove(0);
        proof {
            assert(entries(before).len() == all.skip(seen).len());
            assert(entries(before)[0] == all.skip(seen)[0]);
            assert(entry(header) == all[seen]);
            assert(entries(left@) =~= entries(before).skip(1));
            assert(all.skip(seen).skip(1) =~= all.skip(seen + 1));
            assert(all.take(seen + 1).drop_last() =~= all.take(seen));
            seen = seen + 1;
        }
        let own: usize = match header.0.field() {
            Some(field) => field.canonical_rank(),
            None => FIELD_COUNT,
        };
        if own == rank {
            found.push(header);
            assert(entries(found@) =~= entries(found_before).push(entry(header)));
        } else {
            others.push(header);
            assert(entries(others@) =~= entries(others_before).push(entry(header)));
        }
    }
    proof {
        assert(all.skip(seen).len() == 0);
        assert(all.take(seen) =~= all);
    }
    (found, others)
}

/// Fields being rendered under a declared WARC version.
pub struct Renderer {
    version: WarcVersion,
    unconstrained: bool,
    headers: Vec<(HeaderName, FieldValue)>,
}

impl Renderer {
    /// The version that the record declares.
    pub closed spec fn declared(self) -> WarcVersion {
        self.version
    }

    /// Whether the record's type is one no version of the standard defines.
    ///
    /// Such a record is under no constraint about which fields it carries, so it keeps standard
    /// names as read rather than being held to what the standard says about them.
    pub closed spec fn is_unconstrained(self) -> bool {
        self.unconstrained
    }

    /// The lines written so far.
    pub closed spec fn lines(self) -> Seq<Entry> {
        entries(self.headers@)
    }

    /// Whether this is what another renderer becomes by a step that ends as the result says.
    pub open spec fn steps(
        self,
        before: Renderer,
        out: Written,
        result: Result<(), RenderError>,
    ) -> bool {
        &&& self.declared() == before.declared()
        &&& self.is_unconstrained() == before.is_unconstrained()
        &&& match result {
            Ok(_) => out == Ok::<Seq<Entry>, RenderFault>(self.lines()),
            Err(error) => out == Err::<Seq<Entry>, RenderFault>(error@),
        }
    }

    /// The lines written so far, as a step starts from them.
    pub open spec fn so_far(self) -> Written {
        Ok(self.lines())
    }

    /// An empty block declaring a version.
    pub fn new(version: WarcVersion, unconstrained: bool) -> (r: Self)
        ensures
            r.declared() == version,
            r.is_unconstrained() == unconstrained,
            r.lines() == Seq::<Entry>::empty(),
    {
        let r = Renderer { version, unconstrained, headers: Vec::new() };
        assert(r.lines() =~= Seq::empty());
        r
    }

    /// The lines that were written.
    pub fn into_headers(self) -> (r: Vec<(HeaderName, FieldValue)>)
        ensures
            entries(r@) == self.lines(),
    {
        self.headers
    }

    /// Append a field holding the given form.
    fn push(&mut self, field: Field, form: ValueForm) -> (r: Result<(), RenderError>)
        ensures
            final(self).steps(
                *old(self),
                with_form(old(self).so_far(), old(self).declared(), field, form@),
                r,
            ),
    {
        if !field.defined_in(self.version) {
            return Err(RenderError::FieldNotInVersion { field, version: self.version });
        }
        let name = HeaderName::new(field);
        let value = FieldValue::from(form);
        self.headers.push((name, value));
        assert(self.lines() =~= old(self).lines().push(line_for(field, form@)));
        Ok(())
    }

    /// Append a digest when the record carries one.
    pub fn push_digest(&mut self, field: Field, digest: Option<LabelledDigest>) -> (r: Result<
        (),
        RenderError,
    >)
        ensures
            final(self).steps(
                *old(self),
                with_digest(old(self).so_far(), old(self).declared(), field, shown(digest)),
                r,
            ),
    {
        match digest {
            Some(digest) => self.push(field, ValueForm::Digest(digest)),
            None => Ok(()),
        }
    }

    /// Append a media type when the record carries one.
    pub fn push_media_type(&mut self, field: Field, media: Option<MediaType>) -> (r: Result<
        (),
        RenderError,
    >)
        ensures
            final(self).steps(
                *old(self),
                with_media_type(old(self).so_far(), old(self).declared(), field, shown(media)),
                r,
            ),
    {
        match media {
            Some(media) => self.push(field, ValueForm::MediaType(media)),
            None => Ok(()),
        }
    }

    /// Append a text when the record carries one.
    pub fn push_text(&mut self, field: Field, content: Option<Text>) -> (r: Result<
        (),
        RenderError,
    >)
        ensures
            final(self).steps(
                *old(self),
                with_text(old(self).so_far(), old(self).declared(), field, shown(content)),
                r,
            ),
    {
        match content {
            Some(content) => self.push(field, ValueForm::Text(content)),
            None => Ok(()),
        }
    }

    /// Append a number when the record carries one.
    pub fn push_digits(&mut self, field: Field, number: Option<u64>) -> (r: Result<
        (),
        RenderError,
    >)
        ensures
            final(self).steps(
                *old(self),
                with_digits(
                    old(self).so_far(),
                    old(self).declared(),
                    field,
                    (match number {
                        Some(number) => Some(number as nat),
                        None => None,
                    }),
                ),
                r,
            ),
    {
        match number {
            Some(number) => self.push(field, ValueForm::Digits(number)),
            None => Ok(()),
        }
    }

    /// Whether the declared version writes a field inside URI angle brackets.
    fn brackets(&self, field: Field) -> (r: bool)
        ensures
            r == is_bracketed_in(self.declared(), field),
    {
        match self.version {
            WarcVersion::V1_0 => true,
            WarcVersion::V1_1 => match field {
                Field::ConcurrentTo
                | Field::RecordID
                | Field::RefersTo
                | Field::SegmentOriginID
                | Field::WarcinfoID => true,
                _ => false,
            },
        }
    }

    /// Append a URI-valued field when the record carries one, bracketed or bare as the declared
    /// version requires.
    pub fn push_uri(&mut self, field: Field, uri: Option<Uri>) -> (r: Result<(), RenderError>)
        ensures
            final(self).steps(
                *old(self),
                with_uri(old(self).so_far(), old(self).declared(), field, shown(uri)),
                r,
            ),
    {
        match uri {
            Some(uri) => {
                let bracketed = self.brackets(field);
                self.push(field, ValueForm::Uri { uri, bracketed })
            },
            None => Ok(()),
        }
    }

    /// Append a date when the record carries one, refusing one the declared version has no
    /// spelling for.
    pub fn push_date(&mut self, field: Field, date: Option<WarcDate>) -> (r: Result<
        (),
        RenderError,
    >)
        ensures
            final(self).steps(
                *old(self),
                with_date(old(self).so_far(), old(self).declared(), field, shown(date)),
                r,
            ),
    {
        match date {
            Some(date) => {
                if !date_fits_version(date, self.version) {
                    return Err(
                        RenderError::ValueNotInVersion {
                            field,
                            version: self.version,
                            value: spell_date(date),
                        },
                    );
                }
                self.push(field, ValueForm::Date(date))
            },
            None => Ok(()),
        }
    }

    /// Append a token-valued field when the record carries one, rejecting a token an extension
    /// spelled in a way the grammar does not admit.
    pub fn push_token(&mut self, field: Field, value: Option<&str>) -> (r: Result<(), RenderError>)
        ensures
            final(self).steps(
                *old(self),
                with_token(
                    old(self).so_far(),
                    old(self).declared(),
                    field,
                    (match value {
                        Some(value) => Some(value@),
                        None => None,
                    }),
                ),
                r,
            ),
    {
        match value {
            Some(value) => {
                if !token(value.as_bytes()) {
                    let mut reason = "`".to_owned();
                    reason.append(value);
                    reason.append("` is not a token");
                    return Err(
                        RenderError::UnwritableField {
                            name: field.standard_name().to_owned(),
                            reason,
                        },
                    );
                }
                self.push(field, ValueForm::Token(value.to_owned()))
            },
            None => Ok(()),
        }
    }

    /// Append `WARC-Profile`, validating custom profile URIs.
    pub fn push_profile(&mut self, profile: &RevisitProfile) -> (r: Result<(), RenderError>)
        ensures
            final(self).steps(
                *old(self),
                with_profile(old(self).so_far(), old(self).declared(), profile@),
                r,
            ),
    {
        match Uri::parse(profile.as_str()) {
            Ok(uri) => self.push_uri(Field::Profile, Some(uri)),
            Err(error) => Err(
                RenderError::UnwritableField {
                    name: Field::Profile.standard_name().to_owned(),
                    reason: error.0,
                },
            ),
        }
    }

    /// Append the fields describing the record's payload.
    pub fn push_payload(&mut self, payload: PayloadHeaders) -> (r: Result<(), RenderError>)
        ensures
            final(self).steps(
                *old(self),
                with_payload(
                    old(self).so_far(),
                    old(self).declared(),
                    shown(payload.payload_digest),
                    shown(payload.identified_payload_type),
                ),
                r,
            ),
    {
        match self.push_digest(Field::PayloadDigest, payload.payload_digest) {
            Ok(_) => self.push_media_type(
                Field::IdentifiedPayloadType,
                payload.identified_payload_type,
            ),
            Err(error) => Err(error),
        }
    }

    /// Append `WARC-IP-Address` when the record carries one.
    pub fn push_ip_address(&mut self, ip_address: Option<IpAddress>) -> (r: Result<
        (),
        RenderError,
    >)
        ensures
            final(self).steps(
                *old(self),
                with_address(old(self).so_far(), old(self).declared(), ip_address),
                r,
            ),
    {
        match ip_address {
            Some(address) => self.push(Field::IPAddress, ValueForm::IpAddress(address)),
            None => Ok(()),
        }
    }

    /// Append one `WARC-Concurrent-To` line per referenced record.
    pub fn push_concurrent_to(&mut self, concurrent_to: Vec<Uri>) -> (r: Result<(), RenderError>)
        ensures
            final(self).steps(
                *old(self),
                with_uris(
                    old(self).so_far(),
                    old(self).declared(),
                    Field::ConcurrentTo,
                    uri_texts(concurrent_to@),
                ),
                r,
            ),
    {
        let ghost all = uri_texts(concurrent_to@);
        let ghost start = self.so_far();
        let ghost version = self.declared();
        let mut i: usize = 0;
        assert(all.take(0) =~= Seq::empty());
        while i < concurrent_to.len()
            invariant
                i <= concurrent_to.len(),
                all == uri_texts(concurrent_to@),
                start == old(self).so_far(),
                version == old(self).declared(),
                self.declared() == version,
                self.is_unconstrained() == old(self).is_unconstrained(),
                with_uris(start, version, Field::ConcurrentTo, all.take(i as int))
                    == self.so_far(),
            decreases concurrent_to.len() - i,
        {
            proof {
                assert(all.take(i + 1).drop_last() =~= all.take(i as int));
                assert(all.take(i + 1).last() == concurrent_to@[i as int]@);
            }
            match self.push_uri(Field::ConcurrentTo, Some(concurrent_to[i].clone())) {
                Ok(_) => {},
                Err(error) => {
                    proof {
                        lemma_uris_fault(start, version, Field::ConcurrentTo, all, i + 1);
                    }
                    return Err(error);
                },
            }
            i = i + 1;
        }
        assert(all.take(i as int) =~= all);
        Ok(())
    }

    /// Append `WARC-Segment-Number` with the value `1`, the only value the standard permits on
    /// a record that is not a `continuation`, when the record is the origin of a series.
    pub fn push_segment_origin(&mut self, segment_origin: bool) -> (r: Result<(), RenderError>)
        ensures
            final(self).steps(
                *old(self),
                with_origin(old(self).so_far(), old(self).declared(), segment_origin),
                r,
            ),
    {
        if segment_origin {
            self.push_digits(Field::SegmentNumber, Some(1))
        } else {
            Ok(())
        }
    }

    /// Append a field after validating that its name and value can be read back.
    ///
    /// A record of a type the standard defines writes every standard field from the value its own
    /// header holds, so a name the standard defines is refused here rather than written beside
    /// the field it names.
    pub fn push_as_read(&mut self, name: &str, value: &str) -> (r: Result<(), RenderError>)
        ensures
            final(self).steps(
                *old(self),
                with_line(
                    old(self).so_far(),
                    old(self).declared(),
                    old(self).is_unconstrained(),
                    (name@, value@),
                ),
                r,
            ),
    {
        if !token(name.as_bytes()) {
            return Err(
                RenderError::UnwritableField {
                    name: name.to_owned(),
                    reason: "the name is not a token".to_owned(),
                },
            );
        }
        // A value is held here with its folds already resolved, so a line break in one is a
        // header line the caller wrote into it rather than a fold, and would be read back as a
        // field of its own.

        let written = value.as_bytes();
        if has_line_break(written) {
            return Err(
                RenderError::UnwritableField {
                    name: name.to_owned(),
                    reason: "the value holds a line break".to_owned(),
                },
            );
        }
        let header_name = HeaderName::as_read(name);
        match header_name.field() {
            Some(field) => {
                if !self.unconstrained {
                    return Err(RenderError::ReservedField(field));
                }
                if !field.defined_in(self.version) {
                    return Err(RenderError::FieldNotInVersion { field, version: self.version });
                }
            },
            None => {},
        }
        // A value is written after the colon exactly as it is given, so one that does not open
        // with the linear white space the convention puts there is given a single space.
        let mut spelled: Vec<u8> = Vec::new();
        if !(written.len() > 0 && lws(written[0])) {
            spelled.push(0x20);
        }
        append(&mut spelled, written);
        assert(spelled@ =~= spelled_value(octets(value@)));
        match FieldValue::parse(header_name.field(), spelled.as_slice()) {
            Ok(header_value) => {
                let ghost line = (header_name, header_value);
                self.headers.push((header_name, header_value));
                assert(self.lines() =~= old(self).lines().push(entry(line)));
                Ok(())
            },
            Err(error) => Err(
                RenderError::UnwritableField { name: name.to_owned(), reason: error.to_string() },
            ),
        }
    }

    /// Append further lines after validating that each can be read back.
    pub fn push_lines(&mut self, lines: &Vec<(String, String)>) -> (r: Result<(), RenderError>)
        ensures
            final(self).steps(
                *old(self),
                with_lines(
                    old(self).so_far(),
                    old(self).declared(),
                    old(self).is_unconstrained(),
                    lines_of(lines@),
                ),
                r,
            ),
    {
        let ghost all = lines_of(lines@);
        let ghost start = self.so_far();
        let ghost version = self.declared();
        let ghost free = self.is_unconstrained();
        let mut i: usize = 0;
        assert(all.take(0) =~= Seq::empty());
        while i < lines.len()
            invariant
                i <= lines.len(),
                all == lines_of(lines@),
                start == old(self).so_far(),
                version == old(self).declared(),
                free == old(self).is_unconstrained(),
                self.declared() == version,
                self.is_unconstrained() == free,
                with_lines(start, version, free, all.take(i as int)) == self.so_far(),
            decreases lines.len() - i,
        {
            proof {
                assert(all.take(i + 1).drop_last() =~= all.take(i as int));
                assert(all.take(i + 1).last() == line_of(lines@[i as int]));
            }
            match self.push_as_read(lines[i].0.as_str(), lines[i].1.as_str()) {
                Ok(_) => {},
                Err(error) => {
                    proof {
                        lemma_lines_fault(start, version, free, all, i + 1);
                    }
                    return Err(error);
                },
            }
            i = i + 1;
        }
        assert(all.take(i as int) =~= all);
        Ok(())
    }

    /// Append and validate the extension's fields.
    pub fn push_extension<F: ExtensionFields>(&mut self, other: &F) -> (r: Result<(), RenderError>)
        ensures
            final(self).steps(
                *old(self),
                with_lines(
                    old(self).so_far(),
                    old(self).declared(),
                    old(self).is_unconstrained(),
                    other.written(),
                ),
                r,
            ),
    {
        let mut lines: Vec<(String, String)> = Vec::new();
        assert(lines_of(lines@) =~= Seq::empty());
        other.append_to(&mut lines);
        assert(lines_of(lines@) =~= other.written());
        self.push_lines(&lines)
    }

    /// Reject a nonrepeatable standard field written more than once.
    ///
    /// A block is checked once it is complete: the fields every record carries are written after
    /// the fields of its own type, so one written by the extension or kept as read can only be
    /// seen to repeat one of them at the end.
    pub fn check_repetition(&self) -> (r: Result<(), RenderError>)
        ensures
            match r {
                Ok(_) => repeated_from(self.lines(), 0) is None,
                Err(error) => error@ is RepeatedField && repeated_from(self.lines(), 0) == Some(
                    error@->RepeatedField_0,
                ),
            },
    {
        match repeated_field(&self.headers) {
            Some(field) => Err(RenderError::RepeatedField(field)),
            None => Ok(()),
        }
    }

    /// Put standard fields in conventional order, followed by extension fields.
    pub fn canonical_order(&mut self)
        ensures
            final(self).declared() == old(self).declared(),
            final(self).is_unconstrained() == old(self).is_unconstrained(),
            final(self).lines() == ordered(old(self).lines()),
    {
        let ghost all = self.lines();
        let mut left: Vec<(HeaderName, FieldValue)> = Vec::new();
        std::mem::swap(&mut left, &mut self.headers);
        let mut sorted: Vec<(HeaderName, FieldValue)> = Vec::new();
        let mut rank: usize = 0;
        proof {
            lemma_from_rank(all, 0);
            assert(entries(sorted@) =~= Seq::empty());
        }
        while rank <= FIELD_COUNT
            invariant
                rank <= FIELD_COUNT + 1,
                self.version == old(self).version,
                self.unconstrained == old(self).unconstrained,
                entries(left@) == from_rank(all, rank as int),
                entries(sorted@) == ordered_to(all, rank as nat),
            decreases FIELD_COUNT + 1 - rank,
        {
            let ghost before = sorted@;
            proof {
                lemma_from_rank(all, rank as int);
            }
            let (mut found, others) = split_rank(left, rank);
            let ghost next = found@;
            sorted.append(&mut found);
            left = others;
            assert(entries(sorted@) =~= entries(before) + entries(next));
            rank = rank + 1;
        }
        self.headers = sorted;
    }
}

proof fn lemma_uris_fault(
    start: Written,
    version: WarcVersion,
    field: Field,
    all: Seq<Seq<char>>,
    n: int,
)
    requires
        0 <= n <= all.len(),
        with_uris(start, version, field, all.take(n)) is Err,
    ensures
        with_uris(start, version, field, all) == with_uris(start, version, field, all.take(n)),
    decreases all.len() - n,
{
    if n < all.len() {
        assert(all.take(n + 1).drop_last() =~= all.take(n));
        lemma_uris_fault(start, version, field, all, n + 1);
    } else {
        assert(all.take(n) =~= all);
    }
}

proof fn lemma_lines_fault(
    start: Written,
    version: WarcVersion,
    unconstrained: bool,
    all: Lines,
    n: int,
)
    requires
        0 <= n <= all.len(),
        with_lines(start, version, unconstrained, all.take(n)) is Err,
    ensures
        with_lines(start, version, unconstrained, all) == with_lines(
            start,
            version,
            unconstrained,
            all.take(n),
        ),
    decreases all.len() - n,
{
    if n < all.len() {
        assert(all.take(n + 1).drop_last() =~= all.take(n));
        lemma_lines_fault(start, version, unconstrained, all, n + 1);
    } else {
        assert(all.take(n) =~= all);
    }
}

/// Whether octets hold a carriage return or a line feed.
fn has_line_break(s: &[u8]) -> (r: bool)
    ensures
        r == holds_line_break(s@),
{
    let mut i: usize = 0;
    while i < s.len()
        invariant
            i <= s.len(),
            forall|j: int| 0 <= j < i ==> #[trigger] s@[j] != 0x0d && s@[j] != 0x0a,
        decreases s.len() - i,
    {
        if s[i] == 0x0d || s[i] == 0x0a {
            assert(s@[i as int] == 0x0d || s@[i as int] == 0x0a);
            return true;
        }
        i = i + 1;
    }
    false
}

} // verus!
