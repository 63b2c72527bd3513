//! Which header blocks are those of a record, by the type and version that they declare.

use crate::parse::untyped::name::Field;
use crate::parse::untyped::value::{rule_for, rule_of};
use crate::parse::untyped::Entry;
use crate::record::extension::Extension;
use crate::record::header::{profile_named, CoreHeaders, PayloadHeaders};
use crate::record::lift::{
    address_in, date_in, digest_in, digits_in, first_position, forbidden_from, form_in, is_before,
    is_permitted, is_repeatable, is_well_formed, media_in, plain, repeated_from, undefined_from,
    uri_in, uris_in,
};
use crate::record::read::{kind_in, lift_fault, text_fault};
use crate::record::record_type::Kind;
use crate::record::{Record, RecordHeader};
use crate::value::date::WarcDatePrecision;
use crate::version::WarcVersion;
use vstd::prelude::*;

verus! {

/// Whether a line of a field is among lines.
pub open spec fn holds(lines: Seq<Entry>, field: Field) -> bool {
    exists|i: int| 0 <= i < lines.len() && (#[trigger] lines[i]).0.field == Some(field)
}

/// The fields that the standard permits on records of a type that it defines.
pub open spec fn fields_of(kind: Kind) -> Set<Field> {
    let any = set![
        Field::WarcType,
        Field::RecordID,
        Field::Date,
        Field::ContentLength,
        Field::BlockDigest,
        Field::ContentType,
        Field::Truncated,
        Field::SegmentNumber,
    ];
    match kind {
        Kind::Warcinfo => any.insert(Field::Filename),
        Kind::Response | Kind::Resource | Kind::Request => any.insert(Field::TargetURI).insert(
            Field::WarcinfoID,
        ).insert(Field::IPAddress).insert(Field::ConcurrentTo).insert(Field::PayloadDigest).insert(
            Field::IdentifiedPayloadType,
        ),
        Kind::Metadata => any.insert(Field::TargetURI).insert(Field::WarcinfoID).insert(
            Field::IPAddress,
        ).insert(Field::ConcurrentTo).insert(Field::RefersTo),
        Kind::Revisit => any.insert(Field::TargetURI).insert(Field::WarcinfoID).insert(
            Field::IPAddress,
        ).insert(Field::ConcurrentTo).insert(Field::PayloadDigest).insert(
            Field::IdentifiedPayloadType,
        ).insert(Field::RefersTo).insert(Field::RefersToTargetURI).insert(
            Field::RefersToDate,
        ).insert(Field::Profile),
        Kind::Conversion => any.insert(Field::TargetURI).insert(Field::WarcinfoID).insert(
            Field::PayloadDigest,
        ).insert(Field::IdentifiedPayloadType).insert(Field::RefersTo),
        Kind::Continuation => any.insert(Field::TargetURI).insert(Field::WarcinfoID).insert(
            Field::PayloadDigest,
        ).insert(Field::IdentifiedPayloadType).insert(Field::SegmentOriginID).insert(
            Field::SegmentTotalLength,
        ),
        Kind::Unknown(_) => any,
    }
}

/// The fields that records of a type must carry.
pub open spec fn required_of(kind: Kind) -> Set<Field> {
    let any = set![Field::WarcType, Field::RecordID, Field::Date];
    match kind {
        Kind::Warcinfo | Kind::Metadata | Kind::Unknown(_) => any,
        Kind::Revisit => any.insert(Field::TargetURI).insert(Field::Profile),
        Kind::Continuation => any.insert(Field::TargetURI).insert(Field::SegmentNumber).insert(
            Field::SegmentOriginID,
        ),
        _ => any.insert(Field::TargetURI),
    }
}

/// Whether lines follow the rules of a type and a version.
pub open spec fn follow_the_rules(version: WarcVersion, kind: Kind, lines: Seq<Entry>) -> bool {
    // No field but `WARC-Concurrent-To` is repeated.
    &&& forall|i: int, j: int|
        0 <= i < j < lines.len() && (#[trigger] lines[i]).0.field is Some && (
        #[trigger] lines[j]).0.field == lines[i].0.field ==> lines[i].0.field == Some(
            Field::ConcurrentTo,
        )
    // WARC 1.0 has neither of the fields that WARC 1.1 added, and dates to the second alone.
    &&& version == WarcVersion::V1_0 ==> !holds(lines, Field::RefersToTargetURI) && !holds(
        lines,
        Field::RefersToDate,
    ) && (date_in(lines, Field::Date) matches Some(date) ==> date.precision
        == WarcDatePrecision::Second)
    // The fields are those of the type.
    &&& forall|field: Field| required_of(kind).contains(field) ==> #[trigger] holds(lines, field)
    &&& forall|i: int|
        0 <= i < lines.len() && (#[trigger] lines[i]).0.field is Some ==> fields_of(kind).contains(
            lines[i].0.field->0,
        )
    // A continuation is numbered from two, and any other record is the first where it is numbered.
    &&& digits_in(lines, Field::SegmentNumber) matches Some(number) ==> if kind is Continuation {
        number >= 2
    } else {
        number == 1
    }
    // A revisit of an identical payload names its digest.
    &&& kind is Revisit && profile_named(uri_in(lines, Field::Profile)->0)
        is IdenticalPayloadDigest ==> holds(lines, Field::PayloadDigest)
}

proof fn lemma_first_position(lines: Seq<Entry>, field: Field, i: int)
    requires
        0 <= i <= lines.len(),
    ensures
        i <= first_position(lines, field, i) <= lines.len(),
        first_position(lines, field, i) < lines.len() ==> lines[first_position(
            lines,
            field,
            i,
        )].0.field == Some(field),
        forall|j: int|
            i <= j < first_position(lines, field, i) ==> (#[trigger] lines[j]).0.field != Some(
                field,
            ),
    decreases lines.len() - i,
{
    if i < lines.len() && lines[i].0.field != Some(field) {
        lemma_first_position(lines, field, i + 1);
    }
}

/// A field that is among well-formed lines is read by its own rule.
proof fn lemma_form(lines: Seq<Entry>, field: Field)
    requires
        is_well_formed(lines),
    ensures
        holds(lines, field) <==> form_in(lines, field) is Some,
        form_in(lines, field) matches Some(form) ==> rule_for(form) == rule_of(field),
{
    lemma_first_position(lines, field, 0);
    let at = first_position(lines, field, 0);
    if at < lines.len() {
        assert(lines[at].0.field == Some(field));
    }
}

proof fn lemma_repeated(lines: Seq<Entry>, i: int)
    requires
        0 <= i <= lines.len(),
    ensures
        repeated_from(lines, i) is None <==> forall|j: int, k: int|
            i <= k < lines.len() && 0 <= j < k && (#[trigger] lines[j]).0.field is Some && (
            #[trigger] lines[k]).0.field == lines[j].0.field ==> lines[j].0.field == Some(
                Field::ConcurrentTo,
            ),
    decreases lines.len() - i,
{
    if i < lines.len() {
        lemma_repeated(lines, i + 1);
        match lines[i].0.field {
            Some(field) => {
                if !is_repeatable(field) && is_before(lines, field, i) {
                    let j = choose|j: int|
                        0 <= j < i && (#[trigger] lines[j]).0.field == Some(field);
                    assert(lines[j].0.field == lines[i].0.field);
                }
            },
            None => {},
        }
    }
}

proof fn lemma_undefined(lines: Seq<Entry>, version: WarcVersion, i: int)
    requires
        0 <= i <= lines.len(),
    ensures
        undefined_from(lines, version, i) is None <==> version == WarcVersion::V1_1 || forall|j: int|
            i <= j < lines.len() ==> (#[trigger] lines[j]).0.field != Some(
                Field::RefersToTargetURI,
            ) && lines[j].0.field != Some(Field::RefersToDate),
    decreases lines.len() - i,
{
    if i < lines.len() {
        lemma_undefined(lines, version, i + 1);
    }
}

proof fn lemma_forbidden(lines: Seq<Entry>, kind: Kind, i: int)
    requires
        0 <= i <= lines.len(),
        !(kind is Unknown),
    ensures
        forbidden_from(lines, kind, i) is None <==> forall|j: int|
            i <= j < lines.len() && (#[trigger] lines[j]).0.field is Some ==> fields_of(
                kind,
            ).contains(lines[j].0.field->0),
    decreases lines.len() - i,
{
    if i < lines.len() {
        lemma_forbidden(lines, kind, i + 1);
        match lines[i].0.field {
            Some(field) => lemma_permitted(kind, field),
            None => {},
        }
    }
}

proof fn lemma_permitted(kind: Kind, field: Field)
    requires
        !(kind is Unknown),
    ensures
        is_permitted(kind, field) <==> fields_of(kind).contains(field),
{
}

/// Lines are those of a record of a type that the standard defines exactly where they follow the
/// rules of the type and the version, and what the standard does not define is text.
pub proof fn lemma_rules_decide<E: Extension>(version: WarcVersion, lines: Seq<Entry>)
    requires
        is_well_formed(lines),
        holds(lines, Field::WarcType) ==> !(kind_in(lines) is Unknown),
    ensures
        lift_fault::<E>(version, lines) is None <==> holds(lines, Field::WarcType)
            && follow_the_rules(version, kind_in(lines), lines) && text_fault(plain(lines)) is None,
{
    let kind = kind_in(lines);
    lemma_repeated(lines, 0);
    lemma_undefined(lines, version, 0);
    lemma_form(lines, Field::WarcType);
    lemma_form(lines, Field::RecordID);
    lemma_form(lines, Field::Date);
    lemma_form(lines, Field::TargetURI);
    lemma_form(lines, Field::Profile);
    lemma_form(lines, Field::PayloadDigest);
    lemma_form(lines, Field::SegmentNumber);
    lemma_form(lines, Field::SegmentOriginID);
    lemma_form(lines, Field::RefersToDate);
    lemma_form(lines, Field::RefersToTargetURI);
    if holds(lines, Field::WarcType) {
        lemma_forbidden(lines, kind, 0);
        assert(required_of(kind).contains(Field::RecordID));
        assert(required_of(kind).contains(Field::Date));
        assert(version == WarcVersion::V1_0 ==> (undefined_from(lines, version, 0) is None
            <==> !holds(lines, Field::RefersToTargetURI) && !holds(lines, Field::RefersToDate)));
        if lift_fault::<E>(version, lines) is None {
            assert forall|field: Field| required_of(kind).contains(field) implies #[trigger] holds(
                lines,
                field,
            ) by {}
        }
        if follow_the_rules(version, kind, lines) {
            assert(holds(lines, Field::RecordID) && holds(lines, Field::Date));
            assert(required_of(kind).contains(Field::TargetURI) ==> holds(
                lines,
                Field::TargetURI,
            ));
            assert(required_of(kind).contains(Field::Profile) ==> holds(lines, Field::Profile));
            assert(required_of(kind).contains(Field::SegmentNumber) ==> holds(
                lines,
                Field::SegmentNumber,
            ));
            assert(required_of(kind).contains(Field::SegmentOriginID) ==> holds(
                lines,
                Field::SegmentOriginID,
            ));
        }
    }
}

/// What a line of a field says is what is read of the field, where the field is not repeated.
pub proof fn lemma_line_is_read(lines: Seq<Entry>, field: Field, at: int)
    requires
        0 <= at < lines.len(),
        lines[at].0.field == Some(field),
        forall|i: int| 0 <= i < at ==> (#[trigger] lines[i]).0.field != Some(field),
    ensures
        form_in(lines, field) == lines[at].1.form,
{
    lemma_first_position(lines, field, 0);
}

proof fn lemma_none_forbidden(lines: Seq<Entry>, kind: Kind, i: int)
    requires
        0 <= i <= lines.len(),
        forbidden_from(lines, kind, i) is None,
    ensures
        forall|j: int|
            i <= j < lines.len() && (#[trigger] lines[j]).0.field is Some ==> is_permitted(
                kind,
                lines[j].0.field->0,
            ),
    decreases lines.len() - i,
{
    if i < lines.len() {
        lemma_none_forbidden(lines, kind, i + 1);
    }
}

proof fn lemma_no_uris(lines: Seq<Entry>, field: Field)
    requires
        forall|i: int| 0 <= i < lines.len() ==> (#[trigger] lines[i]).0.field != Some(field),
    ensures
        uris_in(lines, field) == Seq::<Seq<char>>::empty(),
    decreases lines.len(),
{
    if lines.len() > 0 {
        let shorter = lines.drop_last();
        assert forall|i: int| 0 <= i < shorter.len() implies (#[trigger] shorter[i]).0.field
            != Some(field) by {
            assert(shorter[i] == lines[i]);
        }
        assert(lines[lines.len() - 1].0.field != Some(field));
        lemma_no_uris(shorter, field);
    }
}

/// Nothing is read of a field that the type of a record does not permit.
proof fn lemma_absent(lines: Seq<Entry>, kind: Kind, field: Field)
    requires
        forbidden_from(lines, kind, 0) is None,
    ensures
        !is_permitted(kind, field) ==> form_in(lines, field) is None && uris_in(lines, field)
            == Seq::<Seq<char>>::empty(),
{
    lemma_none_forbidden(lines, kind, 0);
    lemma_first_position(lines, field, 0);
    if !is_permitted(kind, field) {
        assert forall|i: int| 0 <= i < lines.len() implies (#[trigger] lines[i]).0.field != Some(
            field,
        ) by {}
        lemma_no_uris(lines, field);
    }
}

/// What a header of a standard type says of its fields is what the lines that it was read from
/// hold, whatever the type is.
pub proof fn lemma_header_says_its_lines<E: Extension>(
    header: RecordHeader<E>,
    version: WarcVersion,
    lines: Seq<Entry>,
)
    requires
        RecordHeader::is_lifted(Ok(header), version, lines),
        !(kind_in(lines) is Unknown),
    ensures
        header.kind() == kind_in(lines),
        header.declared_version() == version,
        header.core_headers().reads(lines),
        header.target() == uri_in(lines, Field::TargetURI),
        header.describing() == uri_in(lines, Field::WarcinfoID),
        header.address() == address_in(lines, Field::IPAddress),
        header.concurrent() == uris_in(lines, Field::ConcurrentTo),
        header.referred() == uri_in(lines, Field::RefersTo),
        header.segment() == digits_in(lines, Field::SegmentNumber),
        match header.payload_headers() {
            Some(payload) => payload.reads(lines),
            None => digest_in(lines, Field::PayloadDigest) is None && media_in(
                lines,
                Field::IdentifiedPayloadType,
            ) is None,
        },
{
    let kind = kind_in(lines);
    assert(forbidden_from(lines, kind, 0) is None);
    lemma_absent(lines, kind, Field::TargetURI);
    lemma_absent(lines, kind, Field::WarcinfoID);
    lemma_absent(lines, kind, Field::IPAddress);
    lemma_absent(lines, kind, Field::ConcurrentTo);
    lemma_absent(lines, kind, Field::RefersTo);
    lemma_absent(lines, kind, Field::PayloadDigest);
    lemma_absent(lines, kind, Field::IdentifiedPayloadType);
    match header {
        RecordHeader::Warcinfo(_) => {},
        RecordHeader::Response(_) => {},
        RecordHeader::Resource(_) => {},
        RecordHeader::Request(_) => {},
        RecordHeader::Metadata(_) => {},
        RecordHeader::Revisit(_) => {},
        RecordHeader::Conversion(_) => {},
        RecordHeader::Continuation(_) => {},
        RecordHeader::Other(_) => {},
    }
}

/// A record says of its fields what its header says, and a change to the fields of a record is the
/// same change to those of its header.
pub proof fn lemma_record_says_its_header<E: Extension>(
    record: Record<E>,
    core: CoreHeaders<E>,
    version: WarcVersion,
    payload: PayloadHeaders,
)
    ensures
        record.kind() == record.header().kind(),
        record.declared_version() == record.header().declared_version(),
        record.core_headers() == record.header().core_headers(),
        record.payload_headers() == record.header().payload_headers(),
        record.target() == record.header().target(),
        record.describing() == record.header().describing(),
        record.address() == record.header().address(),
        record.concurrent() == record.header().concurrent(),
        record.referred() == record.header().referred(),
        record.segment() == record.header().segment(),
        record.with_core(core).header() == record.header().with_core(core),
        record.with_version(version).header() == record.header().with_version(version),
        record.with_payload(payload).header() == record.header().with_payload(payload),
        record.with_core(core).block() == record.block(),
        record.with_version(version).block() == record.block(),
        record.with_payload(payload).block() == record.block(),
{
}

/// Whether two headers say the same of the fields that not every type carries.
pub open spec fn say_alike<E: Extension>(a: RecordHeader<E>, b: RecordHeader<E>) -> bool {
    &&& a.kind() == b.kind()
    &&& a.target() == b.target()
    &&& a.describing() == b.describing()
    &&& a.address() == b.address()
    &&& a.concurrent() == b.concurrent()
    &&& a.referred() == b.referred()
    &&& a.segment() == b.segment()
}

/// A change to the fields that every record carries, to the version, or to the fields of a payload
/// is read back, and leaves every other field as it was. A type without a payload takes none.
pub proof fn lemma_change_is_read_back<E: Extension>(
    header: RecordHeader<E>,
    core: CoreHeaders<E>,
    version: WarcVersion,
    payload: PayloadHeaders,
)
    ensures
        header.with_core(core).core_headers() == core,
        header.with_core(core).declared_version() == header.declared_version(),
        header.with_core(core).payload_headers() == header.payload_headers(),
        say_alike(header.with_core(core), header),
        header.with_version(version).declared_version() == version,
        header.with_version(version).core_headers() == header.core_headers(),
        header.with_version(version).payload_headers() == header.payload_headers(),
        say_alike(header.with_version(version), header),
        header.with_payload(payload).payload_headers() == if header.payload_headers() is Some {
            Some(payload)
        } else {
            None
        },
        header.with_payload(payload).core_headers() == header.core_headers(),
        header.with_payload(payload).declared_version() == header.declared_version(),
        say_alike(header.with_payload(payload), header),
{
}

} // verus!
