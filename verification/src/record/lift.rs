//! Reading the header fields of a record into its semantic representation.

use crate::octets::{ascii_text, trim, utf8_string};
use crate::parse::untyped::name::{Field, HeaderName};
use crate::parse::untyped::value::{rule_for, rule_of, Form, FieldValue, Rule, ValueForm};
use crate::parse::untyped::{entries, entry, Entry};
use crate::parsing::{decimal_string, decimal_text};
use crate::record::error::{Error, Fault};
use crate::record::extension::{lines_of, line_of, ExtensionFields, Lines, Unclaimed};
use crate::record::fields::parser::{unfold, unfolded};
use crate::record::header::{PayloadHeaders, SegmentNumber};
use crate::record::record_type::Kind;
use crate::value::date::{date_octets, Date};
use crate::value::digest::Labelled;
use crate::value::media_type::Media;
use crate::value::text::Content;
use crate::value::{IpAddress, LabelledDigest, MediaType, Text, Uri, WarcDate, WarcDatePrecision};
use crate::version::WarcVersion;
use vstd::prelude::*;
use vstd::utf8::{decode_utf8, encode_utf8_decode_utf8, valid_utf8};

verus! {

/// Whether each value is read by the rule of the field that its name spells.
pub open spec fn is_well_formed(lines: Seq<Entry>) -> bool {
    forall|i: int|
        0 <= i < lines.len() && (#[trigger] lines[i]).0.field is Some ==> lines[i].1.form is Some
            && rule_for(lines[i].1.form->0) == rule_of(lines[i].0.field->0)
}

/// Where the first line of a field stands from `i` on, or the number of lines.
pub open spec fn first_position(lines: Seq<Entry>, field: Field, i: int) -> int
    decreases lines.len() - i,
{
    if i < 0 || i >= lines.len() || lines[i].0.field == Some(field) {
        i
    } else {
        first_position(lines, field, i + 1)
    }
}

/// What the first line of a field says, where there is one.
pub open spec fn form_in(lines: Seq<Entry>, field: Field) -> Option<Form> {
    let at = first_position(lines, field, 0);
    if at < lines.len() {
        lines[at].1.form
    } else {
        None
    }
}

/// The token that a field holds.
pub open spec fn token_in(lines: Seq<Entry>, field: Field) -> Option<Seq<char>> {
    match form_in(lines, field) {
        Some(Form::Token(token)) => Some(token),
        _ => None,
    }
}

/// The number that a field holds.
pub open spec fn digits_in(lines: Seq<Entry>, field: Field) -> Option<nat> {
    match form_in(lines, field) {
        Some(Form::Digits(number)) => Some(number),
        _ => None,
    }
}

/// The URI that a field holds.
pub open spec fn uri_in(lines: Seq<Entry>, field: Field) -> Option<Seq<char>> {
    match form_in(lines, field) {
        Some(Form::Uri(uri, _)) => Some(uri),
        _ => None,
    }
}

/// The digest that a field holds.
pub open spec fn digest_in(lines: Seq<Entry>, field: Field) -> Option<Labelled> {
    match form_in(lines, field) {
        Some(Form::Digest(digest)) => Some(digest),
        _ => None,
    }
}

/// The media type that a field holds.
pub open spec fn media_in(lines: Seq<Entry>, field: Field) -> Option<Media> {
    match form_in(lines, field) {
        Some(Form::MediaType(media)) => Some(media),
        _ => None,
    }
}

/// The text that a field holds.
pub open spec fn text_in(lines: Seq<Entry>, field: Field) -> Option<Content> {
    match form_in(lines, field) {
        Some(Form::Text(content)) => Some(content),
        _ => None,
    }
}

/// The address that a field holds.
pub open spec fn address_in(lines: Seq<Entry>, field: Field) -> Option<IpAddress> {
    match form_in(lines, field) {
        Some(Form::IpAddress(address)) => Some(address),
        _ => None,
    }
}

/// The date that a field holds.
pub open spec fn date_in(lines: Seq<Entry>, field: Field) -> Option<Date> {
    match form_in(lines, field) {
        Some(Form::Date(date)) => Some(date),
        _ => None,
    }
}

/// The URIs that the lines of a field hold, in order.
pub open spec fn uris_in(lines: Seq<Entry>, field: Field) -> Seq<Seq<char>>
    decreases lines.len(),
{
    if lines.len() == 0 {
        Seq::empty()
    } else {
        let before = uris_in(lines.drop_last(), field);
        match lines.last().1.form {
            Some(Form::Uri(uri, _)) => if lines.last().0.field == Some(field) {
                before.push(uri)
            } else {
                before
            },
            _ => before,
        }
    }
}

/// The URIs of a list.
pub open spec fn uri_texts(uris: Seq<Uri>) -> Seq<Seq<char>> {
    uris.map_values(|uri: Uri| uri@)
}

/// What an optional value stands for.
pub open spec fn shown<T: View>(value: Option<T>) -> Option<T::V> {
    match value {
        Some(value) => Some(value@),
        None => None,
    }
}

/// Whether a field may be repeated, which `WARC-Concurrent-To` alone may.
pub open spec fn is_repeatable(field: Field) -> bool {
    field is ConcurrentTo
}

/// Whether a line before line `i` is of a field.
pub open spec fn is_before(lines: Seq<Entry>, field: Field, i: int) -> bool {
    exists|j: int| 0 <= j < i && (#[trigger] lines[j]).0.field == Some(field)
}

/// The first field from line `i` on that is not repeatable and stands on an earlier line too.
pub open spec fn repeated_from(lines: Seq<Entry>, i: int) -> Option<Field>
    decreases lines.len() - i,
{
    if i < 0 || i >= lines.len() {
        None
    } else {
        match lines[i].0.field {
            Some(field) => if !is_repeatable(field) && is_before(lines, field, i) {
                Some(field)
            } else {
                repeated_from(lines, i + 1)
            },
            None => repeated_from(lines, i + 1),
        }
    }
}

/// The first field from line `i` on that a version does not define.
pub open spec fn undefined_from(lines: Seq<Entry>, version: WarcVersion, i: int) -> Option<Field>
    decreases lines.len() - i,
{
    if i < 0 || i >= lines.len() {
        None
    } else {
        match lines[i].0.field {
            Some(field) => if !field.is_defined_in(version) {
                Some(field)
            } else {
                undefined_from(lines, version, i + 1)
            },
            None => undefined_from(lines, version, i + 1),
        }
    }
}

/// Whether the standard permits a field on a record type that it defines.
pub open spec fn is_permitted(kind: Kind, field: Field) -> bool {
    match field {
        Field::WarcType | Field::RecordID | Field::Date | Field::ContentLength
        | Field::BlockDigest | Field::ContentType | Field::Truncated | Field::SegmentNumber => true,
        Field::Filename => kind is Warcinfo,
        Field::PayloadDigest | Field::IdentifiedPayloadType => !(
            kind is Warcinfo || kind is Metadata
        ),
        Field::TargetURI | Field::WarcinfoID => !(kind is Warcinfo),
        Field::IPAddress | Field::ConcurrentTo => !(kind is Warcinfo || kind is Conversion || kind
            is Continuation),
        Field::RefersTo => kind is Metadata || kind is Revisit || kind is Conversion,
        Field::RefersToTargetURI | Field::RefersToDate | Field::Profile => kind is Revisit,
        Field::SegmentOriginID | Field::SegmentTotalLength => kind is Continuation,
    }
}

/// The first field from line `i` on that is not permitted on a record type.
pub open spec fn forbidden_from(lines: Seq<Entry>, kind: Kind, i: int) -> Option<Field>
    decreases lines.len() - i,
{
    if i < 0 || i >= lines.len() {
        None
    } else {
        match lines[i].0.field {
            Some(field) => if !is_permitted(kind, field) {
                Some(field)
            } else {
                forbidden_from(lines, kind, i + 1)
            },
            None => forbidden_from(lines, kind, i + 1),
        }
    }
}

/// The lines that no field in a set names.
pub open spec fn remaining(lines: Seq<Entry>, taken: Set<Field>) -> Seq<Entry>
    decreases lines.len(),
{
    if lines.len() == 0 {
        lines
    } else {
        let before = remaining(lines.drop_last(), taken);
        match lines.last().0.field {
            Some(field) => if taken.contains(field) {
                before
            } else {
                before.push(lines.last())
            },
            None => before.push(lines.last()),
        }
    }
}

/// The lines whose names the standard does not define.
pub open spec fn plain(lines: Seq<Entry>) -> Seq<Entry>
    decreases lines.len(),
{
    if lines.len() == 0 {
        lines
    } else {
        let before = plain(lines.drop_last());
        if lines.last().0.field is Some {
            before
        } else {
            before.push(lines.last())
        }
    }
}

/// Lines as text, with folds resolved and surrounding white space removed, or the name of the
/// first from line `i` on whose value is not UTF-8.
pub open spec fn texts_from(lines: Seq<Entry>, i: int) -> Result<Lines, Seq<char>>
    decreases lines.len() - i,
{
    if i < 0 || i >= lines.len() {
        Ok(Seq::empty())
    } else {
        let value = unfolded(lines[i].1.octets);
        if !valid_utf8(value) {
            Err(lines[i].0.name)
        } else {
            match texts_from(lines, i + 1) {
                Ok(rest) => Ok(seq![(lines[i].0.name, decode_utf8(value))] + rest),
                Err(name) => Err(name),
            }
        }
    }
}

/// Whether a WARC version has a spelling for a date at the precision it carries.
///
/// WARC 1.0 requires second precision; WARC 1.1 supports every precision.
pub open spec fn fits_version(date: Date, version: WarcVersion) -> bool {
    version == WarcVersion::V1_1 || date.precision == WarcDatePrecision::Second
}

/// The spelling of a date in WARC 1.1.
pub open spec fn date_text(date: Date) -> Seq<char> {
    ascii_text(date_octets(date, WarcVersion::V1_1))
}

/// What keeps a `WARC-Segment-Number` from being that of an origin record.
pub open spec fn origin_fault(lines: Seq<Entry>) -> Option<Fault> {
    match digits_in(lines, Field::SegmentNumber) {
        Some(number) => if number == 1 {
            None
        } else {
            Some(Fault::MalformedField(Field::SegmentNumber, decimal_text(number)))
        },
        None => None,
    }
}

/// What keeps a field from holding a date of the version.
pub open spec fn date_fault(
    lines: Seq<Entry>,
    field: Field,
    version: WarcVersion,
) -> Option<Fault> {
    match date_in(lines, field) {
        Some(date) => if fits_version(date, version) {
            None
        } else {
            Some(Fault::MalformedField(field, date_text(date)))
        },
        None => None,
    }
}

/// Whether a WARC version has a spelling for a date at the precision it carries.
pub fn date_fits_version(date: WarcDate, version: WarcVersion) -> (r: bool)
    ensures
        r == fits_version(date@, version),
{
    match version {
        WarcVersion::V1_1 => true,
        WarcVersion::V1_0 => match date.precision() {
            WarcDatePrecision::Second => true,
            _ => false,
        },
    }
}

/// The spelling of a date in WARC 1.1.
pub fn spell_date(date: WarcDate) -> (r: String)
    ensures
        r@ == date_text(date@),
{
    date.to_string()
}

proof fn lemma_first_position(lines: Seq<Entry>, field: Field, i: int)
    requires
        0 <= i <= lines.len(),
    ensures
        i <= first_position(lines, field, i) <= lines.len(),
        first_position(lines, field, i) < lines.len() ==> lines[first_position(
            lines,
            field,
            i,
        )].0.field == Some(field),
        forall|j: int|
            i <= j < first_position(lines, field, i) ==> (#[trigger] lines[j]).0.field != Some(
                field,
            ),
    decreases lines.len() - i,
{
    if i < lines.len() && lines[i].0.field != Some(field) {
        lemma_first_position(lines, field, i + 1);
    }
}

proof fn lemma_first_position_is(lines: Seq<Entry>, field: Field, i: int, at: int)
    requires
        0 <= i <= at <= lines.len(),
        at < lines.len() ==> lines[at].0.field == Some(field),
        forall|j: int| i <= j < at ==> (#[trigger] lines[j]).0.field != Some(field),
    ensures
        first_position(lines, field, i) == at,
    decreases at - i,
{
    if i < at {
        lemma_first_position_is(lines, field, i + 1, at);
    }
}

/// Whether no two lines are of one field that is not repeatable.
pub open spec fn is_unrepeated(lines: Seq<Entry>) -> bool {
    forall|i: int, j: int|
        0 <= i < j < lines.len() && (#[trigger] lines[i]).0.field is Some && (
        #[trigger] lines[j]).0.field == lines[i].0.field ==> is_repeatable(lines[i].0.field->0)
}

pub proof fn lemma_repeated(lines: Seq<Entry>, i: int)
    requires
        0 <= i <= lines.len(),
        repeated_from(lines, i) is None,
    ensures
        forall|j: int, k: int|
            i <= k < lines.len() && 0 <= j < k && (#[trigger] lines[j]).0.field is Some && (
            #[trigger] lines[k]).0.field == lines[j].0.field ==> is_repeatable(
                lines[j].0.field->0,
            ),
    decreases lines.len() - i,
{
    if i < lines.len() {
        lemma_repeated(lines, i + 1);
    }
}

/// Lines without those of a field.
spec fn without(lines: Seq<Entry>, field: Field) -> Seq<Entry> {
    remaining(lines, set![field])
}

proof fn lemma_remaining_entries(lines: Seq<Entry>, taken: Set<Field>, p: int)
    requires
        0 <= p < remaining(lines, taken).len(),
    ensures
        exists|k: int| 0 <= k < lines.len() && lines[k] == remaining(lines, taken)[p],
        remaining(lines, taken)[p].0.field matches Some(field) ==> !taken.contains(field),
    decreases lines.len(),
{
    let before = remaining(lines.drop_last(), taken);
    if p < before.len() {
        lemma_remaining_entries(lines.drop_last(), taken, p);
        let k = choose|k: int|
            0 <= k < lines.drop_last().len() && lines.drop_last()[k] == before[p];
        assert(lines[k] == remaining(lines, taken)[p]);
    } else {
        assert(lines[lines.len() - 1] == remaining(lines, taken)[p]);
    }
}

/// What is left is unrepeated and read by rule where the lines are.
proof fn lemma_remaining_kept(lines: Seq<Entry>, taken: Set<Field>)
    ensures
        is_well_formed(lines) ==> is_well_formed(remaining(lines, taken)),
        is_unrepeated(lines) ==> is_unrepeated(remaining(lines, taken)),
    decreases lines.len(),
{
    let left = remaining(lines, taken);
    if is_well_formed(lines) {
        assert forall|i: int| 0 <= i < left.len() && (#[trigger] left[i]).0.field is Some implies
            left[i].1.form is Some && rule_for(left[i].1.form->0) == rule_of(
            left[i].0.field->0,
        ) by {
            lemma_remaining_entries(lines, taken, i);
        }
    }
    if is_unrepeated(lines) && lines.len() > 0 {
        let shorter = lines.drop_last();
        assert(is_unrepeated(shorter));
        lemma_remaining_kept(shorter, taken);
        let before = remaining(shorter, taken);
        assert forall|i: int, j: int|
            0 <= i < j < left.len() && (#[trigger] left[i]).0.field is Some && (
            #[trigger] left[j]).0.field == left[i].0.field implies is_repeatable(
            left[i].0.field->0,
        ) by {
            if j < before.len() {
                assert(before[i] == left[i] && before[j] == left[j]);
            } else {
                assert(before[i] == left[i]);
                lemma_remaining_entries(shorter, taken, i);
                let k = choose|k: int| 0 <= k < shorter.len() && shorter[k] == before[i];
                assert(lines[k] == left[i]);
                assert(lines[lines.len() - 1] == left[j]);
            }
        }
    }
}

/// Taking a field out of what is left leaves what neither it nor the fields before it name.
proof fn lemma_remaining_more(lines: Seq<Entry>, taken: Set<Field>, field: Field)
    ensures
        without(remaining(lines, taken), field) == remaining(lines, taken.insert(field)),
    decreases lines.len(),
{
    if lines.len() > 0 {
        lemma_remaining_more(lines.drop_last(), taken, field);
        let before = remaining(lines.drop_last(), taken);
        let left = remaining(lines, taken);
        if left.len() > before.len() {
            assert(left.drop_last() =~= before);
        }
    }
}

/// Of an unrepeated field, taking the one line out is taking the field out.
proof fn lemma_without_one(lines: Seq<Entry>, field: Field, at: int)
    requires
        0 <= at < lines.len(),
        lines[at].0.field == Some(field),
        forall|j: int| 0 <= j < lines.len() && j != at ==> (#[trigger] lines[j]).0.field != Some(
            field,
        ),
    ensures
        without(lines, field) == lines.remove(at),
    decreases lines.len(),
{
    let shorter = lines.drop_last();
    if at < shorter.len() {
        lemma_without_one(shorter, field, at);
        assert(lines.remove(at) =~= shorter.remove(at).push(lines.last()));
    } else {
        lemma_without_none(shorter, field);
        assert(lines.remove(at) =~= shorter);
    }
}

proof fn lemma_without_none(lines: Seq<Entry>, field: Field)
    requires
        forall|j: int| 0 <= j < lines.len() ==> (#[trigger] lines[j]).0.field != Some(field),
    ensures
        without(lines, field) == lines,
    decreases lines.len(),
{
    if lines.len() > 0 {
        lemma_without_none(lines.drop_last(), field);
        assert(lines.drop_last().push(lines.last()) =~= lines);
        assert(lines[lines.len() - 1].0.field != Some(field));
    }
}

/// What the first line of a field says does not depend on lines of other fields.
proof fn lemma_form_kept(lines: Seq<Entry>, taken: Set<Field>, field: Field)
    requires
        !taken.contains(field),
    ensures
        form_in(remaining(lines, taken), field) == form_in(lines, field),
        first_position(remaining(lines, taken), field, 0) < remaining(lines, taken).len()
            <==> first_position(lines, field, 0) < lines.len(),
    decreases lines.len(),
{
    let left = remaining(lines, taken);
    if lines.len() > 0 {
        let shorter = lines.drop_last();
        lemma_form_kept(shorter, taken, field);
        let before = remaining(shorter, taken);
        lemma_first_position(shorter, field, 0);
        lemma_first_position(before, field, 0);
        lemma_first_position(lines, field, 0);
        lemma_first_position(left, field, 0);
        let p = first_position(shorter, field, 0);
        let q = first_position(before, field, 0);
        if p < shorter.len() {
            assert forall|j: int| 0 <= j < p implies (#[trigger] lines[j]).0.field != Some(field) by {
                assert(lines[j] == shorter[j]);
            }
            lemma_first_position_is(lines, field, 0, p);
            assert forall|j: int| 0 <= j < q implies (#[trigger] left[j]).0.field != Some(field) by {
                assert(left[j] == before[j]);
            }
            assert(left[q] == before[q]);
            lemma_first_position_is(left, field, 0, q);
        } else {
            assert forall|j: int| 0 <= j < shorter.len() implies (#[trigger] lines[j]).0.field
                != Some(field) by {
                assert(lines[j] == shorter[j]);
            }
            assert forall|j: int| 0 <= j < before.len() implies (#[trigger] left[j]).0.field
                != Some(field) by {
                assert(left[j] == before[j]);
            }
            if lines.last().0.field == Some(field) {
                lemma_first_position_is(lines, field, 0, shorter.len() as int);
                lemma_first_position_is(left, field, 0, before.len() as int);
            } else {
                lemma_first_position_is(lines, field, 0, lines.len() as int);
                lemma_first_position_is(left, field, 0, left.len() as int);
            }
        }
    }
}

proof fn lemma_uris_kept(lines: Seq<Entry>, taken: Set<Field>, field: Field)
    requires
        !taken.contains(field),
    ensures
        uris_in(remaining(lines, taken), field) == uris_in(lines, field),
    decreases lines.len(),
{
    if lines.len() > 0 {
        lemma_uris_kept(lines.drop_last(), taken, field);
        let before = remaining(lines.drop_last(), taken);
        let left = remaining(lines, taken);
        if left.len() > before.len() {
            assert(left.drop_last() =~= before);
        }
    }
}

/// The first line of a field holds the first of its URIs.
proof fn lemma_uris_first(lines: Seq<Entry>, field: Field, at: int)
    requires
        0 <= at < lines.len(),
        lines[at].0.field == Some(field),
        lines[at].1.form matches Some(Form::Uri(..)),
        forall|j: int| 0 <= j < at ==> (#[trigger] lines[j]).0.field != Some(field),
    ensures
        uris_in(lines, field) == seq![lines[at].1.form->0->Uri_0] + uris_in(
            lines.remove(at),
            field,
        ),
    decreases lines.len(),
{
    let shorter = lines.drop_last();
    if at < shorter.len() {
        lemma_uris_first(shorter, field, at);
        let rest = lines.remove(at);
        assert(rest.drop_last() =~= shorter.remove(at));
        assert(rest.last() == lines.last());
        assert(uris_in(lines, field) =~= seq![lines[at].1.form->0->Uri_0] + uris_in(rest, field));
    } else {
        lemma_uris_none(shorter, field);
        assert(lines.remove(at) =~= shorter);
        assert(uris_in(lines, field) =~= seq![lines[at].1.form->0->Uri_0] + uris_in(
            shorter,
            field,
        ));
    }
}

proof fn lemma_uris_none(lines: Seq<Entry>, field: Field)
    requires
        forall|j: int| 0 <= j < lines.len() ==> (#[trigger] lines[j]).0.field != Some(field),
    ensures
        uris_in(lines, field) == Seq::<Seq<char>>::empty(),
    decreases lines.len(),
{
    if lines.len() > 0 {
        lemma_uris_none(lines.drop_last(), field);
        assert(lines[lines.len() - 1].0.field != Some(field));
    }
}

/// Taking out the first line of a field does not change what other fields leave.
proof fn lemma_without_removed(lines: Seq<Entry>, field: Field, at: int)
    requires
        0 <= at < lines.len(),
        lines[at].0.field == Some(field),
    ensures
        without(lines.remove(at), field) == without(lines, field),
    decreases lines.len(),
{
    let shorter = lines.drop_last();
    if at < shorter.len() {
        lemma_without_removed(shorter, field, at);
        let rest = lines.remove(at);
        assert(rest.drop_last() =~= shorter.remove(at));
        assert(rest.last() == lines.last());
    } else {
        assert(lines.remove(at) =~= shorter);
    }
}

/// Where nothing is forbidden, what is left of a record is what the standard does not name.
proof fn lemma_remaining_plain(lines: Seq<Entry>, taken: Set<Field>, kind: Kind)
    requires
        forall|field: Field| is_permitted(kind, field) ==> #[trigger] taken.contains(field),
        forall|i: int|
            0 <= i < lines.len() && (#[trigger] lines[i]).0.field is Some ==> is_permitted(
                kind,
                lines[i].0.field->0,
            ),
    ensures
        remaining(lines, taken) == plain(lines),
    decreases lines.len(),
{
    if lines.len() > 0 {
        let shorter = lines.drop_last();
        assert forall|i: int| 0 <= i < shorter.len() && (#[trigger] shorter[i]).0.field is Some
            implies is_permitted(kind, shorter[i].0.field->0) by {
            assert(shorter[i] == lines[i]);
        }
        lemma_remaining_plain(shorter, taken, kind);
        assert(lines[lines.len() - 1] == lines.last());
    }
}

proof fn lemma_forbidden(lines: Seq<Entry>, kind: Kind, i: int)
    requires
        0 <= i <= lines.len(),
        forbidden_from(lines, kind, i) is None,
    ensures
        forall|j: int|
            i <= j < lines.len() && (#[trigger] lines[j]).0.field is Some ==> is_permitted(
                kind,
                lines[j].0.field->0,
            ),
    decreases lines.len() - i,
{
    if i < lines.len() {
        lemma_forbidden(lines, kind, i + 1);
    }
}

/// The first forbidden field is the first that is left.
proof fn lemma_forbidden_left(lines: Seq<Entry>, taken: Set<Field>, kind: Kind)
    requires
        forall|field: Field| is_permitted(kind, field) <==> #[trigger] taken.contains(field),
    ensures
        forbidden_from(remaining(lines, taken), kind, 0) == forbidden_from(lines, kind, 0),
    decreases lines.len(),
{
    if lines.len() > 0 {
        let shorter = lines.drop_last();
        lemma_forbidden_left(shorter, taken, kind);
        lemma_forbidden_push(shorter, lines.last(), kind, 0);
        assert(shorter.push(lines.last()) =~= lines);
        let before = remaining(shorter, taken);
        lemma_forbidden_push(before, lines.last(), kind, 0);
        if forbidden_from(before, kind, 0) is None {
        }
    }
}

proof fn lemma_forbidden_push(lines: Seq<Entry>, line: Entry, kind: Kind, i: int)
    requires
        0 <= i <= lines.len(),
    ensures
        forbidden_from(lines.push(line), kind, i) == (match forbidden_from(lines, kind, i) {
            Some(field) => Some(field),
            None => match line.0.field {
                Some(field) => if is_permitted(kind, field) {
                    None
                } else {
                    Some(field)
                },
                None => None,
            },
        }),
    decreases lines.len() - i,
{
    let longer = lines.push(line);
    if i < lines.len() {
        lemma_forbidden_push(lines, line, kind, i + 1);
        assert(longer[i] == lines[i]);
    } else {
        assert(longer[i] == line);
        assert(forbidden_from(longer, kind, i + 1) is None);
    }
}

/// The unclaimed fields of a record being lifted.
pub struct Lifter {
    /// The version that the record declares.
    pub version: WarcVersion,
    /// The lines that are left.
    pub fields: Vec<(HeaderName, FieldValue)>,
    /// All lines of the record.
    pub all: Ghost<Seq<Entry>>,
    /// The fields that have been taken.
    pub taken: Ghost<Set<Field>>,
}

impl Lifter {
    /// Whether what is left is what has not been taken.
    pub open spec fn holds(self) -> bool {
        &&& is_well_formed(self.all@)
        &&& is_unrepeated(self.all@)
        &&& entries(self.fields@) == remaining(self.all@, self.taken@)
    }

    /// Whether this is what another lifter leaves once it has taken a field.
    pub open spec fn took(self, before: Lifter, field: Field) -> bool {
        &&& self.holds()
        &&& self.version == before.version
        &&& self.all@ == before.all@
        &&& self.taken@ == before.taken@.insert(field)
    }

    fn position(&self, field: Field) -> (r: usize)
        ensures
            r == first_position(entries(self.fields@), field, 0),
            r <= self.fields.len(),
    {
        let ghost lines = entries(self.fields@);
        let mut i: usize = 0;
        while i < self.fields.len()
            invariant
                i <= self.fields.len(),
                lines == entries(self.fields@),
                first_position(lines, field, 0) == first_position(lines, field, i as int),
            decreases self.fields.len() - i,
        {
            assert(lines[i as int] == entry(self.fields@[i as int]));
            match self.fields[i].0.field() {
                Some(found) => if found == field {
                    return i;
                },
                None => {},
            }
            i = i + 1;
        }
        i
    }

    /// Remove and return the first value for a field that is not repeatable.
    fn take_form(&mut self, field: Field) -> (r: Option<ValueForm>)
        requires
            old(self).holds(),
            !is_repeatable(field),
            !old(self).taken@.contains(field),
        ensures
            final(self).took(*old(self), field),
            match r {
                Some(form) => form_in(old(self).all@, field) == Some(form@) && rule_for(form@)
                    == rule_of(field),
                None => form_in(old(self).all@, field) is None,
            },
    {
        let at = self.position(field);
        let ghost lines = entries(self.fields@);
        proof {
            lemma_first_position(lines, field, 0);
            lemma_remaining_kept(self.all@, self.taken@);
            lemma_form_kept(self.all@, self.taken@, field);
            lemma_remaining_more(self.all@, self.taken@, field);
        }
        if at == self.fields.len() {
            proof {
                lemma_without_none(lines, field);
                self.taken@ = self.taken@.insert(field);
            }
            return None;
        }
        proof {
            assert forall|j: int| 0 <= j < lines.len() && j != at implies (
            #[trigger] lines[j]).0.field != Some(field) by {
                assert(lines[at as int].0.field == Some(field));
            }
            lemma_without_one(lines, field, at as int);
            assert(lines[at as int] == entry(self.fields@[at as int]));
        }
        let (_, value) = self.fields.remove(at);
        proof {
            assert(entries(self.fields@) =~= lines.remove(at as int));
            self.taken@ = self.taken@.insert(field);
        }
        value.into_form()
    }

    /// Remove a field, whose value is a labelled digest.
    pub fn take_digest(&mut self, field: Field) -> (r: Option<LabelledDigest>)
        requires
            old(self).holds(),
            rule_of(field) == Rule::Digest,
            !old(self).taken@.contains(field),
        ensures
            final(self).took(*old(self), field),
            shown(r) == digest_in(old(self).all@, field),
    {
        match self.take_form(field) {
            Some(ValueForm::Digest(digest)) => Some(digest),
            _ => None,
        }
    }

    /// Remove a field, whose value is a media type.
    pub fn take_media_type(&mut self, field: Field) -> (r: Option<MediaType>)
        requires
            old(self).holds(),
            rule_of(field) == Rule::MediaType,
            !old(self).taken@.contains(field),
        ensures
            final(self).took(*old(self), field),
            shown(r) == media_in(old(self).all@, field),
    {
        match self.take_form(field) {
            Some(ValueForm::MediaType(media)) => Some(media),
            _ => None,
        }
    }

    /// Remove a field, whose value is text.
    pub fn take_text(&mut self, field: Field) -> (r: Option<Text>)
        requires
            old(self).holds(),
            rule_of(field) == Rule::Text,
            !old(self).taken@.contains(field),
        ensures
            final(self).took(*old(self), field),
            shown(r) == text_in(old(self).all@, field),
    {
        match self.take_form(field) {
            Some(ValueForm::Text(content)) => Some(content),
            _ => None,
        }
    }

    /// Remove a field, whose value is a token.
    pub fn take_token(&mut self, field: Field) -> (r: Option<String>)
        requires
            old(self).holds(),
            rule_of(field) == Rule::Token,
            !old(self).taken@.contains(field),
        ensures
            final(self).took(*old(self), field),
            shown(r) == token_in(old(self).all@, field),
    {
        match self.take_form(field) {
            Some(ValueForm::Token(token)) => Some(token),
            _ => None,
        }
    }

    /// Remove a field, whose value is a count.
    pub fn take_digits(&mut self, field: Field) -> (r: Option<u64>)
        requires
            old(self).holds(),
            rule_of(field) == Rule::Digits,
            !old(self).taken@.contains(field),
        ensures
            final(self).took(*old(self), field),
            match r {
                Some(number) => digits_in(old(self).all@, field) == Some(number as nat),
                None => digits_in(old(self).all@, field) is None,
            },
    {
        match self.take_form(field) {
            Some(ValueForm::Digits(number)) => Some(number),
            _ => None,
        }
    }

    /// Remove a field, whose value is a URI.
    ///
    /// Whether the URI was written in angle brackets is how it arrived. It is written back as the
    /// declared version requires rather than as it was read, so that is dropped here.
    pub fn take_uri(&mut self, field: Field) -> (r: Option<Uri>)
        requires
            old(self).holds(),
            rule_of(field) == Rule::Uri,
            !is_repeatable(field),
            !old(self).taken@.contains(field),
        ensures
            final(self).took(*old(self), field),
            shown(r) == uri_in(old(self).all@, field),
    {
        match self.take_form(field) {
            Some(ValueForm::Uri { uri, .. }) => Some(uri),
            _ => None,
        }
    }

    /// Remove a field, whose presence the record's type makes mandatory, as a URI.
    pub fn take_required_uri(&mut self, field: Field) -> (r: Result<Uri, Error>)
        requires
            old(self).holds(),
            rule_of(field) == Rule::Uri,
            !is_repeatable(field),
            !old(self).taken@.contains(field),
        ensures
            final(self).took(*old(self), field),
            match r {
                Ok(uri) => uri_in(old(self).all@, field) == Some(uri@),
                Err(error) => uri_in(old(self).all@, field) is None && error@
                    == Fault::MissingField(field),
            },
    {
        match self.take_uri(field) {
            Some(uri) => Ok(uri),
            None => Err(Error::MissingField(field)),
        }
    }

    /// Remove a field, whose presence the record's type makes mandatory, as a token.
    pub fn take_required_token(&mut self, field: Field) -> (r: Result<String, Error>)
        requires
            old(self).holds(),
            rule_of(field) == Rule::Token,
            !old(self).taken@.contains(field),
        ensures
            final(self).took(*old(self), field),
            match r {
                Ok(token) => token_in(old(self).all@, field) == Some(token@),
                Err(error) => token_in(old(self).all@, field) is None && error@
                    == Fault::MissingField(field),
            },
    {
        match self.take_token(field) {
            Some(token) => Ok(token),
            None => Err(Error::MissingField(field)),
        }
    }

    /// Remove `WARC-IP-Address`.
    pub fn take_ip_address(&mut self) -> (r: Option<IpAddress>)
        requires
            old(self).holds(),
            !old(self).taken@.contains(Field::IPAddress),
        ensures
            final(self).took(*old(self), Field::IPAddress),
            r == address_in(old(self).all@, Field::IPAddress),
    {
        match self.take_form(Field::IPAddress) {
            Some(ValueForm::IpAddress(address)) => Some(address),
            _ => None,
        }
    }

    /// Remove a field and validate its date against the declared WARC version.
    pub fn take_date(&mut self, field: Field) -> (r: Result<Option<WarcDate>, Error>)
        requires
            old(self).holds(),
            rule_of(field) == Rule::Date,
            !old(self).taken@.contains(field),
        ensures
            final(self).took(*old(self), field),
            match r {
                Ok(date) => shown(date) == date_in(old(self).all@, field) && date_fault(
                    old(self).all@,
                    field,
                    old(self).version,
                ) is None,
                Err(error) => date_fault(old(self).all@, field, old(self).version) == Some(error@),
            },
    {
        match self.take_form(field) {
            Some(ValueForm::Date(date)) => {
                if !date_fits_version(date, self.version) {
                    return Err(Error::MalformedField { field, value: spell_date(date) });
                }
                Ok(Some(date))
            },
            _ => Ok(None),
        }
    }

    /// Remove every `WARC-Concurrent-To` line, in order.
    pub fn take_concurrent_to(&mut self) -> (r: Vec<Uri>)
        requires
            old(self).holds(),
            !old(self).taken@.contains(Field::ConcurrentTo),
        ensures
            final(self).took(*old(self), Field::ConcurrentTo),
            uri_texts(r@) == uris_in(old(self).all@, Field::ConcurrentTo),
    {
        let field = Field::ConcurrentTo;
        let ghost start = entries(self.fields@);
        let ghost all = self.all@;
        let ghost taken = self.taken@;
        let mut found: Vec<Uri> = Vec::new();
        proof {
            lemma_remaining_kept(all, taken);
            lemma_uris_kept(all, taken, field);
            lemma_remaining_more(all, taken, field);
            assert(uri_texts(found@) + uris_in(start, field) =~= uris_in(start, field));
        }
        loop
            invariant
                field == Field::ConcurrentTo,
                self.all@ == all,
                self.taken@ == taken,
                self.version == old(self).version,
                all == old(self).all@,
                taken == old(self).taken@,
                is_well_formed(all),
                is_unrepeated(all),
                is_well_formed(entries(self.fields@)),
                without(entries(self.fields@), field) == remaining(all, taken.insert(field)),
                uri_texts(found@) + uris_in(entries(self.fields@), field) == uris_in(all, field),
            decreases self.fields.len(),
        {
            let at = self.position(field);
            let ghost lines = entries(self.fields@);
            proof {
                lemma_first_position(lines, field, 0);
            }
            if at == self.fields.len() {
                proof {
                    lemma_without_none(lines, field);
                    lemma_uris_none(lines, field);
                    assert(uri_texts(found@) + Seq::empty() =~= uri_texts(found@));
                    self.taken@ = self.taken@.insert(field);
                }
                return found;
            }
            assert(lines[at as int] == entry(self.fields@[at as int]));
            let (_, value) = self.fields.remove(at);
            proof {
                assert(entries(self.fields@) =~= lines.remove(at as int));
                lemma_without_removed(lines, field, at as int);
                lemma_uris_first(lines, field, at as int);
                assert forall|i: int|
                    0 <= i < lines.remove(at as int).len() && (#[trigger] lines.remove(
                        at as int,
                    )[i]).0.field is Some implies lines.remove(at as int)[i].1.form is Some
                    && rule_for(lines.remove(at as int)[i].1.form->0) == rule_of(
                    lines.remove(at as int)[i].0.field->0,
                ) by {
                    if i < at {
                        assert(lines.remove(at as int)[i] == lines[i]);
                    } else {
                        assert(lines.remove(at as int)[i] == lines[i + 1]);
                    }
                }
            }
            match value.into_form() {
                Some(ValueForm::Uri { uri, .. }) => {
                    let ghost before = found@;
                    found.push(uri);
                    proof {
                        let rest = uris_in(entries(self.fields@), field);
                        assert(
                            uri_texts(found@) + rest =~= uri_texts(before) + (seq![uri@] + rest)
                        );
                    }
                },
                _ => {},
            }
        }
    }

    /// Remove the fields describing the record's payload.
    pub fn take_payload(&mut self) -> (r: PayloadHeaders)
        requires
            old(self).holds(),
            !old(self).taken@.contains(Field::PayloadDigest),
            !old(self).taken@.contains(Field::IdentifiedPayloadType),
        ensures
            final(self).holds(),
            final(self).version == old(self).version,
            final(self).all@ == old(self).all@,
            final(self).taken@ == old(self).taken@.insert(Field::PayloadDigest).insert(
                Field::IdentifiedPayloadType,
            ),
            shown(r.payload_digest) == digest_in(old(self).all@, Field::PayloadDigest),
            shown(r.identified_payload_type) == media_in(
                old(self).all@,
                Field::IdentifiedPayloadType,
            ),
    {
        let payload_digest = self.take_digest(Field::PayloadDigest);
        let identified_payload_type = self.take_media_type(Field::IdentifiedPayloadType);
        PayloadHeaders { payload_digest, identified_payload_type }
    }

    /// Remove and validate `WARC-Segment-Number` from an origin record.
    pub fn take_segment_origin(&mut self) -> (r: Result<bool, Error>)
        requires
            old(self).holds(),
            !old(self).taken@.contains(Field::SegmentNumber),
        ensures
            final(self).took(*old(self), Field::SegmentNumber),
            match r {
                Ok(origin) => origin_fault(old(self).all@) is None && origin == (digits_in(
                    old(self).all@,
                    Field::SegmentNumber,
                ) == Some(1nat)),
                Err(error) => origin_fault(old(self).all@) == Some(error@),
            },
    {
        match self.take_digits(Field::SegmentNumber) {
            None => Ok(false),
            Some(number) => if number == 1 {
                Ok(true)
            } else {
                Err(
                    Error::MalformedField {
                        field: Field::SegmentNumber,
                        value: decimal_string(number),
                    },
                )
            },
        }
    }

    /// Remove and validate the required segment number of a continuation.
    pub fn take_segment_number(&mut self) -> (r: Result<SegmentNumber, Error>)
        requires
            old(self).holds(),
            !old(self).taken@.contains(Field::SegmentNumber),
        ensures
            final(self).took(*old(self), Field::SegmentNumber),
            match r {
                Ok(number) => digits_in(old(self).all@, Field::SegmentNumber) == Some(number@)
                    && number@ > 1,
                Err(error) => match digits_in(old(self).all@, Field::SegmentNumber) {
                    Some(number) => number <= 1 && error@ == Fault::MalformedField(
                        Field::SegmentNumber,
                        decimal_text(number),
                    ),
                    None => error@ == Fault::MissingField(Field::SegmentNumber),
                },
            },
    {
        match self.take_digits(Field::SegmentNumber) {
            None => Err(Error::MissingField(Field::SegmentNumber)),
            Some(number) => match SegmentNumber::new(number) {
                Some(position) => Ok(position),
                None => Err(
                    Error::MalformedField {
                        field: Field::SegmentNumber,
                        value: decimal_string(number),
                    },
                ),
            },
        }
    }

    /// Keep every remaining field for an extension record type.
    ///
    /// Values are kept as text, with folds resolved and surrounding white space removed.
    pub fn finish_unconstrained(self) -> (r: Result<Vec<(String, String)>, Error>)
        ensures
            match r {
                Ok(lines) => texts_from(entries(self.fields@), 0) == Ok::<Lines, Seq<char>>(
                    lines_of(lines@),
                ),
                Err(error) => error@ is NonUtf8Field && texts_from(entries(self.fields@), 0)
                    == Err::<Lines, Seq<char>>(error@->NonUtf8Field_0),
            },
    {
        let ghost lines = entries(self.fields@);
        let mut out: Vec<(String, String)> = Vec::new();
        let mut i: usize = 0;
        while i < self.fields.len()
            invariant
                i <= self.fields.len(),
                lines == entries(self.fields@),
                texts_from(lines, 0) == (match texts_from(lines, i as int) {
                    Ok(rest) => Ok(lines_of(out@) + rest),
                    Err(name) => Err(name),
                }),
            decreases self.fields.len() - i,
        {
            assert(lines[i as int] == entry(self.fields@[i as int]));
            let joined = unfold(self.fields[i].1.as_bytes());
            let value = crate::octets::copied(trim(joined.as_slice()));
            assert(value@ == unfolded(lines[i as int].1.octets));
            match utf8_string(value) {
                None => {
                    return Err(Error::NonUtf8Field(self.fields[i].0.name().to_owned()));
                },
                Some(content) => {
                    proof {
                        encode_utf8_decode_utf8(content@);
                    }
                    let ghost before = out@;
                    let line = (self.fields[i].0.name().to_owned(), content);
                    out.push(line);
                    proof {
                        match texts_from(lines, i + 1) {
                            Ok(rest) => {
                                assert(lines_of(out@) + rest =~= lines_of(before) + (seq![
                                    line_of(line),
                                ] + rest));
                            },
                            Err(_) => {},
                        }
                    }
                },
            }
            i = i + 1;
        }
        assert(lines_of(out@) + Seq::empty() =~= lines_of(out@));
        Ok(out)
    }

    /// Reject remaining standard fields, then offer the rest to the extension.
    pub fn finish<F: ExtensionFields>(
        self,
        record_type: &'static str,
        kind: Ghost<Kind>,
    ) -> (r: Result<(F, Vec<(String, String)>), Error>)
        requires
            self.holds(),
            forall|field: Field|
                is_permitted(kind@, field) <==> #[trigger] self.taken@.contains(field),
        ensures
            match r {
                Ok((other, unrecognized)) => {
                    &&& forbidden_from(self.all@, kind@, 0) is None
                    &&& texts_from(plain(self.all@), 0) is Ok
                    &&& other.claims(texts_from(plain(self.all@), 0)->Ok_0, lines_of(unrecognized@))
                },
                Err(error) => match forbidden_from(self.all@, kind@, 0) {
                    Some(field) => error@ == Fault::ForbiddenField(record_type@, field),
                    None => match texts_from(plain(self.all@), 0) {
                        Err(name) => error@ == Fault::NonUtf8Field(name),
                        Ok(lines) => F::refuses(lines, error),
                    },
                },
            },
    {
        let ghost lines = entries(self.fields@);
        proof {
            lemma_forbidden_left(self.all@, self.taken@, kind@);
        }
        let mut i: usize = 0;
        while i < self.fields.len()
            invariant
                i <= self.fields.len(),
                self.holds(),
                lines == entries(self.fields@),
                forall|field: Field|
                    is_permitted(kind@, field) <==> #[trigger] self.taken@.contains(field),
                forbidden_from(lines, kind@, 0) == forbidden_from(lines, kind@, i as int),
                forbidden_from(lines, kind@, 0) == forbidden_from(self.all@, kind@, 0),
            decreases self.fields.len() - i,
        {
            assert(lines[i as int] == entry(self.fields@[i as int]));
            proof {
                lemma_remaining_entries(self.all@, self.taken@, i as int);
            }
            match self.fields[i].0.field() {
                Some(field) => {
                    return Err(Error::ForbiddenField { record_type, field });
                },
                None => {},
            }
            i = i + 1;
        }
        proof {
            lemma_forbidden(self.all@, kind@, 0);
            lemma_remaining_plain(self.all@, self.taken@, kind@);
        }
        let plain_lines = match self.finish_unconstrained() {
            Ok(found) => found,
            Err(error) => {
                return Err(error);
            },
        };
        let mut unclaimed = Unclaimed::new(plain_lines);
        match F::from_unclaimed(&mut unclaimed) {
            Ok(other) => Ok((other, unclaimed.into_fields())),
            Err(error) => Err(error),
        }
    }

    /// The first nonrepeatable standard field written more than once, if a block has one.
    pub fn check_repetition(&self) -> (r: Result<(), Error>)
        ensures
            match r {
                Ok(_) => repeated_from(entries(self.fields@), 0) is None,
                Err(error) => error@ is RepeatedField && repeated_from(entries(self.fields@), 0)
                    == Some(error@->RepeatedField_0),
            },
    {
        match repeated_field(&self.fields) {
            Some(field) => Err(Error::RepeatedField(field)),
            None => Ok(()),
        }
    }

    /// Reject a standard field the declared version does not define.
    ///
    /// The grammar admits the union of the two versions' fields, so this is where a record is
    /// held to the version it declares. Rendering checks the same rule, since a record can also
    /// be assembled or edited after it is read.
    pub fn check_version(&self) -> (r: Result<(), Error>)
        ensures
            match r {
                Ok(_) => undefined_from(entries(self.fields@), self.version, 0) is None,
                Err(error) => match undefined_from(entries(self.fields@), self.version, 0) {
                    Some(field) => error@ == Fault::FieldNotInVersion(field, self.version),
                    None => false,
                },
            },
    {
        let ghost lines = entries(self.fields@);
        let mut i: usize = 0;
        while i < self.fields.len()
            invariant
                i <= self.fields.len(),
                lines == entries(self.fields@),
                undefined_from(lines, self.version, 0) == undefined_from(
                    lines,
                    self.version,
                    i as int,
                ),
            decreases self.fields.len() - i,
        {
            assert(lines[i as int] == entry(self.fields@[i as int]));
            match self.fields[i].0.field() {
                Some(field) => if !field.defined_in(self.version) {
                    return Err(Error::FieldNotInVersion { field, version: self.version });
                },
                None => {},
            }
            i = i + 1;
        }
        Ok(())
    }
}

/// The first nonrepeatable standard field written more than once, if a block has one.
///
/// `WARC-Concurrent-To` is the one standard field a record may repeat. A name no version of the
/// standard defines is the extension's business rather than this crate's, so it is not compared.
pub fn repeated_field(headers: &Vec<(HeaderName, FieldValue)>) -> (r: Option<Field>)
    ensures
        r == repeated_from(entries(headers@), 0),
{
    let ghost lines = entries(headers@);
    let mut i: usize = 0;
    while i < headers.len()
        invariant
            i <= headers.len(),
            lines == entries(headers@),
            repeated_from(lines, 0) == repeated_from(lines, i as int),
        decreases headers.len() - i,
    {
        assert(lines[i as int] == entry(headers@[i as int]));
        match headers[i].0.field() {
            Some(field) => {
                if field != Field::ConcurrentTo {
                    let mut j: usize = 0;
                    while j < i
                        invariant
                            j <= i < headers.len(),
                            lines == entries(headers@),
                            lines[i as int].0.field == Some(field),
                            repeated_from(lines, 0) == repeated_from(lines, i as int),
                            !is_repeatable(field),
                            forall|k: int|
                                0 <= k < j ==> (#[trigger] lines[k]).0.field != Some(field),
                        decreases i - j,
                    {
                        assert(lines[j as int] == entry(headers@[j as int]));
                        match headers[j].0.field() {
                            Some(earlier) => if earlier == field {
                                assert(is_before(lines, field, i as int));
                                return Some(field);
                            },
                            None => {},
                        }
                        j = j + 1;
                    }
                    assert(!is_before(lines, field, i as int));
                }
            },
            None => {},
        }
        i = i + 1;
    }
    None
}

} // verus!
