//! Reading a record by the rules of its type and version.

use crate::octets::{lemma_ascii_octets_of, lemma_spells_word, octets, spells_word};
use crate::parse::untyped;
use crate::parse::untyped::name::Field;
use crate::parse::untyped::Entry;
use crate::parsing::decimal_text;
use crate::record::block::{block_fault, FieldsBlock};
use crate::record::error::{BlockError, BlockFault, Error, Fault};
use crate::record::extension::{lines_of, Extension, ExtensionFields, ExtensionRecordType, Lines};
use crate::record::fields::metadata::MetadataField;
use crate::record::fields::warcinfo::WarcinfoField;
use crate::record::fields::fields_of;
use crate::record::header::truncated_type::TruncatedType;
use crate::record::header::{
    profile_named, ContinuationHeader, ConversionHeader, CoreHeaders, MetadataHeader, OtherHeader,
    PayloadHeaders, RequestHeader, ResourceHeader, ResponseHeader, RevisitHeader, RevisitProfile,
    WarcinfoHeader,
};
use crate::record::lift::{
    address_in, date_fault, date_in, digest_in, digits_in, forbidden_from, is_permitted,
    is_well_formed, lemma_repeated, media_in, origin_fault, plain, remaining, repeated_from, shown,
    text_in, texts_from, token_in, undefined_from, uri_in, uri_texts, uris_in, Lifter,
};
use crate::record::record_type::{kind_name, kind_named, Kind, RecordType};
use crate::record::{Record, RecordHeader};
use crate::value::{IpAddress, Uri};
use crate::version::WarcVersion;
use vstd::prelude::*;

verus! {

/// What keeps lines from being those of a record of any type.
pub open spec fn shared_fault(version: WarcVersion, lines: Seq<Entry>) -> Option<Fault> {
    if repeated_from(lines, 0) is Some {
        Some(Fault::RepeatedField(repeated_from(lines, 0)->0))
    } else if undefined_from(lines, version, 0) is Some {
        Some(Fault::FieldNotInVersion(undefined_from(lines, version, 0)->0, version))
    } else if token_in(lines, Field::WarcType) is None {
        Some(Fault::MissingField(Field::WarcType))
    } else if uri_in(lines, Field::RecordID) is None {
        Some(Fault::MissingField(Field::RecordID))
    } else if date_fault(lines, Field::Date, version) is Some {
        date_fault(lines, Field::Date, version)
    } else if date_in(lines, Field::Date) is None {
        Some(Fault::MissingField(Field::Date))
    } else {
        None
    }
}

/// What keeps the segment number of lines from being that of a continuation.
pub open spec fn segment_fault(lines: Seq<Entry>) -> Option<Fault> {
    match digits_in(lines, Field::SegmentNumber) {
        None => Some(Fault::MissingField(Field::SegmentNumber)),
        Some(number) => if number <= 1 {
            Some(Fault::MalformedField(Field::SegmentNumber, decimal_text(number)))
        } else {
            None
        },
    }
}

/// What keeps lines from holding a mandatory URI.
pub open spec fn uri_missing(lines: Seq<Entry>, field: Field) -> Option<Fault> {
    if uri_in(lines, field) is None {
        Some(Fault::MissingField(field))
    } else {
        None
    }
}

/// The first of two faults.
pub open spec fn either(first: Option<Fault>, second: Option<Fault>) -> Option<Fault> {
    if first is Some {
        first
    } else {
        second
    }
}

/// What keeps lines from holding the digest that their revisit profile requires.
pub open spec fn profile_fault(lines: Seq<Entry>) -> Option<Fault> {
    match uri_in(lines, Field::Profile) {
        None => Some(Fault::MissingField(Field::Profile)),
        Some(uri) => if profile_named(uri) is IdenticalPayloadDigest && digest_in(
            lines,
            Field::PayloadDigest,
        ) is None {
            Some(Fault::MissingField(Field::PayloadDigest))
        } else {
            None
        },
    }
}

/// What keeps lines from being those of a record of a type that the standard defines.
pub open spec fn own_fault(kind: Kind, version: WarcVersion, lines: Seq<Entry>) -> Option<Fault> {
    match kind {
        Kind::Warcinfo | Kind::Metadata => origin_fault(lines),
        Kind::Revisit => either(
            uri_missing(lines, Field::TargetURI),
            either(
                profile_fault(lines),
                either(date_fault(lines, Field::RefersToDate, version), origin_fault(lines)),
            ),
        ),
        Kind::Continuation => either(
            uri_missing(lines, Field::TargetURI),
            either(segment_fault(lines), uri_missing(lines, Field::SegmentOriginID)),
        ),
        _ => either(uri_missing(lines, Field::TargetURI), origin_fault(lines)),
    }
}

/// What keeps the lines that are left from being kept as text.
pub open spec fn text_fault(lines: Seq<Entry>) -> Option<Fault> {
    match texts_from(lines, 0) {
        Err(name) => Some(Fault::NonUtf8Field(name)),
        Ok(_) => None,
    }
}

/// What keeps lines from holding only fields that the type permits.
pub open spec fn rest_fault(kind: Kind, lines: Seq<Entry>) -> Option<Fault> {
    match forbidden_from(lines, kind, 0) {
        Some(field) => Some(Fault::ForbiddenField(kind_name(kind), field)),
        None => text_fault(plain(lines)),
    }
}

/// The fields that every record type reads.
pub open spec fn shared_fields() -> Set<Field> {
    set![
        Field::WarcType,
        Field::RecordID,
        Field::Date,
        Field::ContentLength,
        Field::BlockDigest,
        Field::ContentType,
        Field::Truncated,
    ]
}

/// The lines that a record of an extension's type keeps as text.
pub open spec fn kept_lines(lines: Seq<Entry>) -> Seq<Entry> {
    remaining(lines, shared_fields().insert(Field::SegmentNumber))
}

/// What keeps lines from being those of a record of an extension's type.
pub open spec fn other_fault<E: Extension>(name: Seq<char>, lines: Seq<Entry>) -> Option<Fault> {
    match E::Types::of_name(name) {
        None => Some(Fault::UnknownRecordType(name)),
        Some(extension) => if !(kind_named(extension.spelled()) is Unknown) {
            Some(Fault::RedefinedRecordType(extension.spelled()))
        } else {
            either(origin_fault(lines), text_fault(kept_lines(lines)))
        },
    }
}

/// The record type that lines declare.
pub open spec fn kind_in(lines: Seq<Entry>) -> Kind {
    kind_named(token_in(lines, Field::WarcType)->0)
}

/// What keeps lines from being those of a record of their type and version, apart from what the
/// extension says of its own fields.
pub open spec fn lift_fault<E: Extension>(version: WarcVersion, lines: Seq<Entry>) -> Option<
    Fault,
> {
    either(
        shared_fault(version, lines),
        match kind_in(lines) {
            Kind::Unknown(name) => other_fault::<E>(name, lines),
            kind => either(own_fault(kind, version, lines), rest_fault(kind, lines)),
        },
    )
}

/// The lines that are offered to the extension.
pub open spec fn offered(lines: Seq<Entry>) -> Lines {
    texts_from(plain(lines), 0)->Ok_0
}

/// Whether the extension refuses the fields that it is offered, as an error says.
pub open spec fn extension_refuses<E: Extension>(lines: Seq<Entry>, error: Error) -> bool {
    match kind_in(lines) {
        Kind::Warcinfo => E::WarcinfoFields::refuses(offered(lines), error),
        Kind::Response => E::ResponseFields::refuses(offered(lines), error),
        Kind::Resource => E::ResourceFields::refuses(offered(lines), error),
        Kind::Request => E::RequestFields::refuses(offered(lines), error),
        Kind::Metadata => E::MetadataFields::refuses(offered(lines), error),
        Kind::Revisit => E::RevisitFields::refuses(offered(lines), error),
        Kind::Conversion => E::ConversionFields::refuses(offered(lines), error),
        Kind::Continuation => E::ContinuationFields::refuses(offered(lines), error),
        Kind::Unknown(_) => false,
    }
}

/// Whether an optional number is the one that a field holds.
pub open spec fn is_number(number: Option<u64>, found: Option<nat>) -> bool {
    match (number, found) {
        (Some(number), Some(found)) => number == found,
        (None, None) => true,
        _ => false,
    }
}

/// Whether an optional reason is the one that a token names.
pub open spec fn is_reason<E: Extension>(
    reason: Option<TruncatedType<E::TruncatedReasons>>,
    token: Option<Seq<char>>,
) -> bool {
    match (reason, token) {
        (Some(reason), Some(token)) => reason.is_named(token),
        (None, None) => true,
        _ => false,
    }
}

impl<E: Extension> CoreHeaders<E> {
    /// Whether the fields that every record carries hold what lines say, apart from the lines that
    /// nothing claims.
    pub open spec fn reads(self, lines: Seq<Entry>) -> bool {
        &&& uri_in(lines, Field::RecordID) == Some(self.record_id@)
        &&& date_in(lines, Field::Date) == Some(self.date@)
        &&& is_number(self.content_length, digits_in(lines, Field::ContentLength))
        &&& shown(self.block_digest) == digest_in(lines, Field::BlockDigest)
        &&& shown(self.content_type) == media_in(lines, Field::ContentType)
        &&& is_reason::<E>(self.truncated, token_in(lines, Field::Truncated))
    }
}

impl PayloadHeaders {
    /// Whether the fields that describe a payload hold what lines say.
    pub open spec fn reads(self, lines: Seq<Entry>) -> bool {
        &&& shown(self.payload_digest) == digest_in(lines, Field::PayloadDigest)
        &&& shown(self.identified_payload_type) == media_in(lines, Field::IdentifiedPayloadType)
    }
}

/// Whether a flag says that lines number the first segment.
pub open spec fn is_origin(origin: bool, lines: Seq<Entry>) -> bool {
    origin == (digits_in(lines, Field::SegmentNumber) == Some(1nat))
}

impl<E: Extension> RecordHeader<E> {
    /// Whether a header holds what lines say, field by field.
    pub open spec fn reads(self, lines: Seq<Entry>) -> bool {
        match self {
            RecordHeader::Warcinfo(header) => {
                &&& header.core.reads(lines)
                &&& shown(header.filename) == text_in(lines, Field::Filename)
                &&& is_origin(header.segment_origin, lines)
                &&& header.other.claims(offered(lines), lines_of(header.core.unrecognized@))
            },
            RecordHeader::Response(header) => {
                &&& header.core.reads(lines)
                &&& header.payload.reads(lines)
                &&& uri_in(lines, Field::TargetURI) == Some(header.target_uri@)
                &&& shown(header.warcinfo_id) == uri_in(lines, Field::WarcinfoID)
                &&& header.ip_address == address_in(lines, Field::IPAddress)
                &&& uri_texts(header.concurrent_to@) == uris_in(lines, Field::ConcurrentTo)
                &&& is_origin(header.segment_origin, lines)
                &&& header.other.claims(offered(lines), lines_of(header.core.unrecognized@))
            },
            RecordHeader::Resource(header) => {
                &&& header.core.reads(lines)
                &&& header.payload.reads(lines)
                &&& uri_in(lines, Field::TargetURI) == Some(header.target_uri@)
                &&& shown(header.warcinfo_id) == uri_in(lines, Field::WarcinfoID)
                &&& header.ip_address == address_in(lines, Field::IPAddress)
                &&& uri_texts(header.concurrent_to@) == uris_in(lines, Field::ConcurrentTo)
                &&& is_origin(header.segment_origin, lines)
                &&& header.other.claims(offered(lines), lines_of(header.core.unrecognized@))
            },
            RecordHeader::Request(header) => {
                &&& header.core.reads(lines)
                &&& header.payload.reads(lines)
                &&& uri_in(lines, Field::TargetURI) == Some(header.target_uri@)
                &&& shown(header.warcinfo_id) == uri_in(lines, Field::WarcinfoID)
                &&& header.ip_address == address_in(lines, Field::IPAddress)
                &&& uri_texts(header.concurrent_to@) == uris_in(lines, Field::ConcurrentTo)
                &&& is_origin(header.segment_origin, lines)
                &&& header.other.claims(offered(lines), lines_of(header.core.unrecognized@))
            },
            RecordHeader::Metadata(header) => {
                &&& header.core.reads(lines)
                &&& shown(header.target_uri) == uri_in(lines, Field::TargetURI)
                &&& shown(header.warcinfo_id) == uri_in(lines, Field::WarcinfoID)
                &&& header.ip_address == address_in(lines, Field::IPAddress)
                &&& uri_texts(header.concurrent_to@) == uris_in(lines, Field::ConcurrentTo)
                &&& shown(header.refers_to) == uri_in(lines, Field::RefersTo)
                &&& is_origin(header.segment_origin, lines)
                &&& header.other.claims(offered(lines), lines_of(header.core.unrecognized@))
            },
            RecordHeader::Revisit(header) => {
                &&& header.core.reads(lines)
                &&& header.payload.reads(lines)
                &&& uri_in(lines, Field::TargetURI) == Some(header.target_uri@)
                &&& shown(header.warcinfo_id) == uri_in(lines, Field::WarcinfoID)
                &&& uri_in(lines, Field::Profile) is Some
                &&& header.profile@ == profile_named(uri_in(lines, Field::Profile)->0)
                &&& header.ip_address == address_in(lines, Field::IPAddress)
                &&& uri_texts(header.concurrent_to@) == uris_in(lines, Field::ConcurrentTo)
                &&& shown(header.refers_to) == uri_in(lines, Field::RefersTo)
                &&& shown(header.refers_to_target_uri) == uri_in(lines, Field::RefersToTargetURI)
                &&& shown(header.refers_to_date) == date_in(lines, Field::RefersToDate)
                &&& is_origin(header.segment_origin, lines)
                &&& header.other.claims(offered(lines), lines_of(header.core.unrecognized@))
            },
            RecordHeader::Conversion(header) => {
                &&& header.core.reads(lines)
                &&& header.payload.reads(lines)
                &&& uri_in(lines, Field::TargetURI) == Some(header.target_uri@)
                &&& shown(header.warcinfo_id) == uri_in(lines, Field::WarcinfoID)
                &&& shown(header.refers_to) == uri_in(lines, Field::RefersTo)
                &&& is_origin(header.segment_origin, lines)
                &&& header.other.claims(offered(lines), lines_of(header.core.unrecognized@))
            },
            RecordHeader::Continuation(header) => {
                &&& header.core.reads(lines)
                &&& header.payload.reads(lines)
                &&& uri_in(lines, Field::TargetURI) == Some(header.target_uri@)
                &&& shown(header.warcinfo_id) == uri_in(lines, Field::WarcinfoID)
                &&& digits_in(lines, Field::SegmentNumber) == Some(header.segment_number@)
                &&& uri_in(lines, Field::SegmentOriginID) == Some(header.segment_origin_id@)
                &&& is_number(
                    header.segment_total_length,
                    digits_in(lines, Field::SegmentTotalLength),
                )
                &&& header.other.claims(offered(lines), lines_of(header.core.unrecognized@))
            },
            RecordHeader::Other(header) => {
                &&& header.core.reads(lines)
                &&& is_origin(header.segment_origin, lines)
                &&& kind_in(lines) matches Kind::Unknown(name) && E::Types::of_name(name) == Some(
                    header.extension,
                )
                &&& texts_from(kept_lines(lines), 0) == Ok::<Lines, Seq<char>>(
                    lines_of(header.core.unrecognized@),
                )
            },
        }
    }

    /// Whether the variant is the one of a record type.
    pub open spec fn is_of(self, kind: Kind) -> bool {
        match kind {
            Kind::Warcinfo => self is Warcinfo,
            Kind::Response => self is Response,
            Kind::Resource => self is Resource,
            Kind::Request => self is Request,
            Kind::Metadata => self is Metadata,
            Kind::Revisit => self is Revisit,
            Kind::Conversion => self is Conversion,
            Kind::Continuation => self is Continuation,
            Kind::Unknown(_) => self is Other,
        }
    }

    /// Whether a header is what lines of a version are read as, or an error why they are not.
    pub open spec fn is_lifted(
        result: Result<Self, Error>,
        version: WarcVersion,
        lines: Seq<Entry>,
    ) -> bool {
        match result {
            Ok(header) => {
                &&& lift_fault::<E>(version, lines) is None
                &&& header.is_of(kind_in(lines))
                &&& header.declared_version() == version
                &&& header.reads(lines)
            },
            Err(error) => match lift_fault::<E>(version, lines) {
                Some(fault) => error@ == fault,
                None => extension_refuses::<E>(lines, error),
            },
        }
    }
}

/// The fields that `response`, `resource`, and `request` records have in common.
struct CaptureFields {
    payload: PayloadHeaders,
    target_uri: Uri,
    warcinfo_id: Option<Uri>,
    ip_address: Option<IpAddress>,
    concurrent_to: Vec<Uri>,
    segment_origin: bool,
}

impl CaptureFields {
    spec fn reads(self, lines: Seq<Entry>) -> bool {
        &&& self.payload.reads(lines)
        &&& uri_in(lines, Field::TargetURI) == Some(self.target_uri@)
        &&& shown(self.warcinfo_id) == uri_in(lines, Field::WarcinfoID)
        &&& self.ip_address == address_in(lines, Field::IPAddress)
        &&& uri_texts(self.concurrent_to@) == uris_in(lines, Field::ConcurrentTo)
        &&& is_origin(self.segment_origin, lines)
    }

    /// Remove the fields of a capture.
    fn take(lifter: &mut Lifter, kind: Ghost<Kind>) -> (r: Result<Self, Error>)
        requires
            old(lifter).holds(),
            old(lifter).taken@ == shared_fields(),
            kind@ is Response || kind@ is Resource || kind@ is Request,
        ensures
            match r {
                Ok(fields) => {
                    &&& own_fault(kind@, old(lifter).version, old(lifter).all@) is None
                    &&& fields.reads(old(lifter).all@)
                    &&& final(lifter).holds()
                    &&& final(lifter).version == old(lifter).version
                    &&& final(lifter).all@ == old(lifter).all@
                    &&& forall|field: Field|
                        is_permitted(kind@, field) <==> #[trigger] final(lifter).taken@.contains(
                            field,
                        )
                },
                Err(error) => own_fault(kind@, old(lifter).version, old(lifter).all@) == Some(
                    error@,
                ),
            },
    {
        let payload = lifter.take_payload();
        let target_uri = match lifter.take_required_uri(Field::TargetURI) {
            Ok(uri) => uri,
            Err(error) => {
                return Err(error);
            },
        };
        let warcinfo_id = lifter.take_uri(Field::WarcinfoID);
        let ip_address = lifter.take_ip_address();
        let concurrent_to = lifter.take_concurrent_to();
        let segment_origin = match lifter.take_segment_origin() {
            Ok(origin) => origin,
            Err(error) => {
                return Err(error);
            },
        };
        Ok(
            CaptureFields {
                payload,
                target_uri,
                warcinfo_id,
                ip_address,
                concurrent_to,
                segment_origin,
            },
        )
    }
}

impl<E: Extension> RecordHeader<E> {
    /// Whether lifting the fields of one record type ends as it should.
    spec fn is_lifted_as(
        result: Result<Self, Error>,
        kind: Kind,
        version: WarcVersion,
        lines: Seq<Entry>,
    ) -> bool {
        match result {
            Ok(header) => {
                &&& either(own_fault(kind, version, lines), rest_fault(kind, lines)) is None
                &&& header.is_of(kind)
                &&& header.declared_version() == version
                &&& header.reads(lines)
            },
            Err(error) => match either(own_fault(kind, version, lines), rest_fault(kind, lines)) {
                Some(fault) => error@ == fault,
                None => extension_refuses::<E>(lines, error),
            },
        }
    }

    /// Lift the header block of a `response` record.
    fn lift_response(lifter: Lifter, core: CoreHeaders<E>) -> (r: Result<Self, Error>)
        requires
            lifter.holds(),
            lifter.taken@ == shared_fields(),
            core.reads(lifter.all@),
            kind_in(lifter.all@) == Kind::Response,
        ensures
            Self::is_lifted_as(r, Kind::Response, lifter.version, lifter.all@),
    {
        let mut lifter = lifter;
        let mut core = core;
        let version = lifter.version;
        let fields = match CaptureFields::take(&mut lifter, Ghost(Kind::Response)) {
            Ok(fields) => fields,
            Err(error) => {
                return Err(error);
            },
        };
        match lifter.finish("response", Ghost(Kind::Response)) {
            Ok((other, unrecognized)) => {
                core.unrecognized = unrecognized;
                Ok(
                    RecordHeader::Response(
                        ResponseHeader {
                            version,
                            core,
                            payload: fields.payload,
                            target_uri: fields.target_uri,
                            warcinfo_id: fields.warcinfo_id,
                            ip_address: fields.ip_address,
                            concurrent_to: fields.concurrent_to,
                            segment_origin: fields.segment_origin,
                            other,
                        },
                    ),
                )
            },
            Err(error) => Err(error),
        }
    }

    /// Lift the header block of a `resource` record.
    fn lift_resource(lifter: Lifter, core: CoreHeaders<E>) -> (r: Result<Self, Error>)
        requires
            lifter.holds(),
            lifter.taken@ == shared_fields(),
            core.reads(lifter.all@),
            kind_in(lifter.all@) == Kind::Resource,
        ensures
            Self::is_lifted_as(r, Kind::Resource, lifter.version, lifter.all@),
    {
        let mut lifter = lifter;
        let mut core = core;
        let version = lifter.version;
        let fields = match CaptureFields::take(&mut lifter, Ghost(Kind::Resource)) {
            Ok(fields) => fields,
            Err(error) => {
                return Err(error);
            },
        };
        match lifter.finish("resource", Ghost(Kind::Resource)) {
            Ok((other, unrecognized)) => {
                core.unrecognized = unrecognized;
                Ok(
                    RecordHeader::Resource(
                        ResourceHeader {
                            version,
                            core,
                            payload: fields.payload,
                            target_uri: fields.target_uri,
                            warcinfo_id: fields.warcinfo_id,
                            ip_address: fields.ip_address,
                            concurrent_to: fields.concurrent_to,
                            segment_origin: fields.segment_origin,
                            other,
                        },
                    ),
                )
            },
            Err(error) => Err(error),
        }
    }

    /// Lift the header block of a `request` record.
    fn lift_request(lifter: Lifter, core: CoreHeaders<E>) -> (r: Result<Self, Error>)
        requires
            lifter.holds(),
            lifter.taken@ == shared_fields(),
            core.reads(lifter.all@),
            kind_in(lifter.all@) == Kind::Request,
        ensures
            Self::is_lifted_as(r, Kind::Request, lifter.version, lifter.all@),
    {
        let mut lifter = lifter;
        let mut core = core;
        let version = lifter.version;
        let fields = match CaptureFields::take(&mut lifter, Ghost(Kind::Request)) {
            Ok(fields) => fields,
            Err(error) => {
                return Err(error);
            },
        };
        match lifter.finish("request", Ghost(Kind::Request)) {
            Ok((other, unrecognized)) => {
                core.unrecognized = unrecognized;
                Ok(
                    RecordHeader::Request(
                        RequestHeader {
                            version,
                            core,
                            payload: fields.payload,
                            target_uri: fields.target_uri,
                            warcinfo_id: fields.warcinfo_id,
                            ip_address: fields.ip_address,
                            concurrent_to: fields.concurrent_to,
                            segment_origin: fields.segment_origin,
                            other,
                        },
                    ),
                )
            },
            Err(error) => Err(error),
        }
    }

    /// Lift the header of a `warcinfo` record.
    fn lift_warcinfo(lifter: Lifter, core: CoreHeaders<E>) -> (r: Result<Self, Error>)
        requires
            lifter.holds(),
            lifter.taken@ == shared_fields(),
            core.reads(lifter.all@),
            kind_in(lifter.all@) == Kind::Warcinfo,
        ensures
            Self::is_lifted_as(r, Kind::Warcinfo, lifter.version, lifter.all@),
    {
        let mut lifter = lifter;
        let mut core = core;
        let version = lifter.version;
        let filename = lifter.take_text(Field::Filename);
        let segment_origin = match lifter.take_segment_origin() {
            Ok(origin) => origin,
            Err(error) => {
                return Err(error);
            },
        };
        match lifter.finish("warcinfo", Ghost(Kind::Warcinfo)) {
            Ok((other, unrecognized)) => {
                core.unrecognized = unrecognized;
                Ok(
                    RecordHeader::Warcinfo(
                        WarcinfoHeader { version, core, filename, segment_origin, other },
                    ),
                )
            },
            Err(error) => Err(error),
        }
    }

    /// Lift the header block of a `metadata` record.
    fn lift_metadata(lifter: Lifter, core: CoreHeaders<E>) -> (r: Result<Self, Error>)
        requires
            lifter.holds(),
            lifter.taken@ == shared_fields(),
            core.reads(lifter.all@),
            kind_in(lifter.all@) == Kind::Metadata,
        ensures
            Self::is_lifted_as(r, Kind::Metadata, lifter.version, lifter.all@),
    {
        let mut lifter = lifter;
        let mut core = core;
        let version = lifter.version;
        let target_uri = lifter.take_uri(Field::TargetURI);
        let warcinfo_id = lifter.take_uri(Field::WarcinfoID);
        let ip_address = lifter.take_ip_address();
        let concurrent_to = lifter.take_concurrent_to();
        let refers_to = lifter.take_uri(Field::RefersTo);
        let segment_origin = match lifter.take_segment_origin() {
            Ok(origin) => origin,
            Err(error) => {
                return Err(error);
            },
        };
        match lifter.finish("metadata", Ghost(Kind::Metadata)) {
            Ok((other, unrecognized)) => {
                core.unrecognized = unrecognized;
                Ok(
                    RecordHeader::Metadata(
                        MetadataHeader {
                            version,
                            core,
                            target_uri,
                            warcinfo_id,
                            ip_address,
                            concurrent_to,
                            refers_to,
                            segment_origin,
                            other,
                        },
                    ),
                )
            },
            Err(error) => Err(error),
        }
    }

    /// Lift the header of a `revisit` record and apply its profile requirements.
    fn lift_revisit(lifter: Lifter, core: CoreHeaders<E>) -> (r: Result<Self, Error>)
        requires
            lifter.holds(),
            lifter.taken@ == shared_fields(),
            core.reads(lifter.all@),
            kind_in(lifter.all@) == Kind::Revisit,
        ensures
            Self::is_lifted_as(r, Kind::Revisit, lifter.version, lifter.all@),
    {
        let mut lifter = lifter;
        let mut core = core;
        let version = lifter.version;
        let payload = lifter.take_payload();
        let target_uri = match lifter.take_required_uri(Field::TargetURI) {
            Ok(uri) => uri,
            Err(error) => {
                return Err(error);
            },
        };
        let warcinfo_id = lifter.take_uri(Field::WarcinfoID);
        let profile = match lifter.take_required_uri(Field::Profile) {
            Ok(uri) => RevisitProfile::from(uri.as_str()),
            Err(error) => {
                return Err(error);
            },
        };
        // A record under this profile shall carry the digest that was compared, per clause 6.7.2 of
        // the WARC 1.1 standard.
        if profile.is_identical_payload() && payload.payload_digest.is_none() {
            return Err(Error::MissingField(Field::PayloadDigest));
        }
        let ip_address = lifter.take_ip_address();
        let concurrent_to = lifter.take_concurrent_to();
        let refers_to = lifter.take_uri(Field::RefersTo);
        let refers_to_target_uri = lifter.take_uri(Field::RefersToTargetURI);
        let refers_to_date = match lifter.take_date(Field::RefersToDate) {
            Ok(date) => date,
            Err(error) => {
                return Err(error);
            },
        };
        let segment_origin = match lifter.take_segment_origin() {
            Ok(origin) => origin,
            Err(error) => {
                return Err(error);
            },
        };
        match lifter.finish("revisit", Ghost(Kind::Revisit)) {
            Ok((other, unrecognized)) => {
                core.unrecognized = unrecognized;
                Ok(
                    RecordHeader::Revisit(
                        RevisitHeader {
                            version,
                            core,
                            payload,
                            target_uri,
                            warcinfo_id,
                            profile,
                            ip_address,
                            concurrent_to,
                            refers_to,
                            refers_to_target_uri,
                            refers_to_date,
                            segment_origin,
                            other,
                        },
                    ),
                )
            },
            Err(error) => Err(error),
        }
    }

    /// Lift the header block of a `conversion` record.
    fn lift_conversion(lifter: Lifter, core: CoreHeaders<E>) -> (r: Result<Self, Error>)
        requires
            lifter.holds(),
            lifter.taken@ == shared_fields(),
            core.reads(lifter.all@),
            kind_in(lifter.all@) == Kind::Conversion,
        ensures
            Self::is_lifted_as(r, Kind::Conversion, lifter.version, lifter.all@),
    {
        let mut lifter = lifter;
        let mut core = core;
        let version = lifter.version;
        let payload = lifter.take_payload();
        let target_uri = match lifter.take_required_uri(Field::TargetURI) {
            Ok(uri) => uri,
            Err(error) => {
                return Err(error);
            },
        };
        let warcinfo_id = lifter.take_uri(Field::WarcinfoID);
        let refers_to = lifter.take_uri(Field::RefersTo);
        let segment_origin = match lifter.take_segment_origin() {
            Ok(origin) => origin,
            Err(error) => {
                return Err(error);
            },
        };
        match lifter.finish("conversion", Ghost(Kind::Conversion)) {
            Ok((other, unrecognized)) => {
                core.unrecognized = unrecognized;
                Ok(
                    RecordHeader::Conversion(
                        ConversionHeader {
                            version,
                            core,
                            payload,
                            target_uri,
                            warcinfo_id,
                            refers_to,
                            segment_origin,
                            other,
                        },
                    ),
                )
            },
            Err(error) => Err(error),
        }
    }

    /// Lift the header of a `continuation` record.
    fn lift_continuation(lifter: Lifter, core: CoreHeaders<E>) -> (r: Result<Self, Error>)
        requires
            lifter.holds(),
            lifter.taken@ == shared_fields(),
            core.reads(lifter.all@),
            kind_in(lifter.all@) == Kind::Continuation,
        ensures
            Self::is_lifted_as(r, Kind::Continuation, lifter.version, lifter.all@),
    {
        let mut lifter = lifter;
        let mut core = core;
        let version = lifter.version;
        let payload = lifter.take_payload();
        let target_uri = match lifter.take_required_uri(Field::TargetURI) {
            Ok(uri) => uri,
            Err(error) => {
                return Err(error);
            },
        };
        let warcinfo_id = lifter.take_uri(Field::WarcinfoID);
        let segment_number = match lifter.take_segment_number() {
            Ok(number) => number,
            Err(error) => {
                return Err(error);
            },
        };
        let segment_origin_id = match lifter.take_required_uri(Field::SegmentOriginID) {
            Ok(uri) => uri,
            Err(error) => {
                return Err(error);
            },
        };
        let segment_total_length = lifter.take_digits(Field::SegmentTotalLength);
        match lifter.finish("continuation", Ghost(Kind::Continuation)) {
            Ok((other, unrecognized)) => {
                core.unrecognized = unrecognized;
                Ok(
                    RecordHeader::Continuation(
                        ContinuationHeader {
                            version,
                            core,
                            payload,
                            target_uri,
                            warcinfo_id,
                            segment_number,
                            segment_origin_id,
                            segment_total_length,
                            other,
                        },
                    ),
                )
            },
            Err(error) => Err(error),
        }
    }

    /// Lift a record type defined by the extension.
    fn lift_other(lifter: Lifter, core: CoreHeaders<E>, name: String) -> (r: Result<Self, Error>)
        requires
            lifter.holds(),
            lifter.taken@ == shared_fields(),
            core.reads(lifter.all@),
            kind_in(lifter.all@) == Kind::Unknown(name@),
        ensures
            match r {
                Ok(header) => {
                    &&& other_fault::<E>(name@, lifter.all@) is None
                    &&& header.is_of(Kind::Unknown(name@))
                    &&& header.declared_version() == lifter.version
                    &&& header.reads(lifter.all@)
                },
                Err(error) => other_fault::<E>(name@, lifter.all@) == Some(error@),
            },
    {
        let mut lifter = lifter;
        let mut core = core;
        let version = lifter.version;
        let extension = match E::Types::from_type_name(name.as_str()) {
            Some(extension) => extension,
            None => {
                return Err(Error::UnknownRecordType(name));
            },
        };
        // The record is written back under the name the extension type gives itself. A name the
        // standard defines would be written back as a record of that type, so a type claiming one
        // is refused here rather than silently becoming a standard record on the way out.
        let claimed = extension.spelling();
        match RecordType::from(claimed) {
            RecordType::Unknown(_) => {},
            _ => {
                return Err(Error::RedefinedRecordType(claimed.to_owned()));
            },
        }
        let segment_origin = match lifter.take_segment_origin() {
            Ok(origin) => origin,
            Err(error) => {
                return Err(error);
            },
        };
        // The standard does not constrain a record type it does not define, so every remaining
        // field, known names included, is preserved as read.
        match lifter.finish_unconstrained() {
            Ok(unrecognized) => {
                core.unrecognized = unrecognized;
                Ok(RecordHeader::Other(OtherHeader { version, core, segment_origin, extension }))
            },
            Err(error) => Err(error),
        }
    }

    /// Convert an untyped header to its semantic representation, or return the first semantic rule
    /// the header violates.
    pub fn try_from(header: untyped::RecordHeader) -> (r: Result<Self, Error>)
        requires
            is_well_formed(header.entries()),
        ensures
            Self::is_lifted(r, header.version, header.entries()),
    {
        let ghost lines = header.entries();
        let mut lifter = Lifter {
            version: header.version,
            fields: header.headers,
            all: Ghost(lines),
            taken: Ghost(Set::empty()),
        };
        match lifter.check_repetition() {
            Ok(_) => {},
            Err(error) => {
                return Err(error);
            },
        }
        match lifter.check_version() {
            Ok(_) => {},
            Err(error) => {
                return Err(error);
            },
        }
        proof {
            lemma_repeated(lines, 0);
            lemma_nothing_taken(lines);
        }
        let record_type = match lifter.take_required_token(Field::WarcType) {
            Ok(token) => RecordType::from(token.as_str()),
            Err(error) => {
                return Err(error);
            },
        };
        let record_id = match lifter.take_required_uri(Field::RecordID) {
            Ok(uri) => uri,
            Err(error) => {
                return Err(error);
            },
        };
        let date = match lifter.take_date(Field::Date) {
            Ok(Some(date)) => date,
            Ok(None) => {
                return Err(Error::MissingField(Field::Date));
            },
            Err(error) => {
                return Err(error);
            },
        };
        // The length is kept as declared rather than required here: the level that reads a record
        // from its bytes has already refused one that declares no length.
        let content_length = lifter.take_digits(Field::ContentLength);
        let block_digest = lifter.take_digest(Field::BlockDigest);
        let content_type = lifter.take_media_type(Field::ContentType);
        let truncated = match lifter.take_token(Field::Truncated) {
            Some(reason) => Some(TruncatedType::from(reason.as_str())),
            None => None,
        };
        let core: CoreHeaders<E> = CoreHeaders {
            record_id,
            date,
            content_length,
            block_digest,
            content_type,
            truncated,
            unrecognized: Vec::new(),
        };
        assert(lifter.taken@ =~= shared_fields());
        match record_type {
            RecordType::Warcinfo => Self::lift_warcinfo(lifter, core),
            RecordType::Response => Self::lift_response(lifter, core),
            RecordType::Resource => Self::lift_resource(lifter, core),
            RecordType::Request => Self::lift_request(lifter, core),
            RecordType::Metadata => Self::lift_metadata(lifter, core),
            RecordType::Revisit => Self::lift_revisit(lifter, core),
            RecordType::Conversion => Self::lift_conversion(lifter, core),
            RecordType::Continuation => Self::lift_continuation(lifter, core),
            RecordType::Unknown(name) => Self::lift_other(lifter, core, name),
        }
    }
}

proof fn lemma_nothing_taken(lines: Seq<Entry>)
    ensures
        remaining(lines, Set::empty()) == lines,
    decreases lines.len(),
{
    if lines.len() > 0 {
        lemma_nothing_taken(lines.drop_last());
        assert(lines.drop_last().push(lines.last()) =~= lines);
    }
}

/// The same fields with a declared length.
pub open spec fn with_length<E: Extension>(core: CoreHeaders<E>, length: u64) -> CoreHeaders<E> {
    CoreHeaders { content_length: Some(length), ..core }
}

/// What keeps a declared length from being that of a block.
pub open spec fn length_fault(declared: Option<u64>, actual: nat) -> Option<BlockFault> {
    match declared {
        Some(declared) => if declared != actual {
            Some(BlockFault::ContentLengthMismatch(declared as int, actual as int))
        } else {
            None
        },
        None => None,
    }
}

/// Check the length a record declares against the length of the block it carries.
///
/// A record with no declared length always passes.
pub fn check_declared_length(declared: Option<u64>, actual: u64) -> (r: Result<(), BlockError>)
    ensures
        match r {
            Ok(_) => length_fault(declared, actual as nat) is None,
            Err(error) => length_fault(declared, actual as nat) == Some(error@),
        },
{
    match declared {
        Some(length) => if length != actual {
            Err(BlockError::ContentLengthMismatch { declared: length, actual })
        } else {
            Ok(())
        },
        None => Ok(()),
    }
}

impl<E: Extension> RecordHeader<E> {
    /// What keeps a header from going with a content block.
    pub open spec fn body_fault(self, bytes: Seq<u8>) -> Option<BlockFault> {
        let core = self.core_headers();
        if length_fault(core.content_length, bytes.len()) is Some {
            length_fault(core.content_length, bytes.len())
        } else {
            match self {
                RecordHeader::Warcinfo(_) => block_fault::<WarcinfoField>(
                    shown(core.content_type),
                    core.truncated is Some,
                    bytes,
                ),
                RecordHeader::Metadata(_) => block_fault::<MetadataField>(
                    shown(core.content_type),
                    core.truncated is Some,
                    bytes,
                ),
                _ => None,
            }
        }
    }
}

impl<E: Extension> Record<E> {
    /// The header of the record.
    pub open spec fn header(self) -> RecordHeader<E> {
        match self {
            Record::Warcinfo { header, .. } => RecordHeader::Warcinfo(header),
            Record::Response { header, .. } => RecordHeader::Response(header),
            Record::Resource { header, .. } => RecordHeader::Resource(header),
            Record::Request { header, .. } => RecordHeader::Request(header),
            Record::Metadata { header, .. } => RecordHeader::Metadata(header),
            Record::Revisit { header, .. } => RecordHeader::Revisit(header),
            Record::Conversion { header, .. } => RecordHeader::Conversion(header),
            Record::Continuation { header, .. } => RecordHeader::Continuation(header),
            Record::Other { header, .. } => RecordHeader::Other(header),
        }
    }

    /// Whether the record is what a header makes up with a content block: it holds the header with
    /// the block's length, and the block as its header declares it.
    pub open spec fn is_made_of(self, header: RecordHeader<E>, bytes: Seq<u8>) -> bool {
        &&& self.header() == header.with_core(
            with_length(header.core_headers(), bytes.len() as u64),
        )
        &&& match self {
            Record::Warcinfo { body, .. } => body.is_read_from(
                shown(header.core_headers().content_type),
                bytes,
            ),
            Record::Metadata { body, .. } => body.is_read_from(
                shown(header.core_headers().content_type),
                bytes,
            ),
            _ => self.block() == bytes,
        }
    }
}

impl<E: Extension> RecordHeader<E> {
    /// Pair this header with a content block to create a record.
    ///
    /// A `warcinfo` or `metadata` block declared as `application/warc-fields` is parsed into
    /// fields. Other blocks remain raw, as does such a block that does not parse when the record
    /// declares it truncated.
    ///
    /// A declared `Content-Length` must match the block. The resulting record stores its actual
    /// length.
    ///
    /// Declared digests are preserved without validation. Inspect them on the resulting [`Record`],
    /// or validate them during rendering. Missing digests are added only by the
    /// `into_raw_with_digests` methods.
    pub fn with_body(self, body: Vec<u8>) -> (r: Result<Record<E>, BlockError>)
        ensures
            match r {
                Ok(record) => self.body_fault(body@) is None && record.is_made_of(self, body@),
                Err(error) => self.body_fault(body@) == Some(error@),
            },
    {
        // A block is held in memory, so its length is a `usize` that fits a `u64` on every platform
        // this crate builds for.
        let content_length = body.len() as u64;
        match check_declared_length(self.core_fields().content_length, content_length) {
            Ok(_) => {},
            Err(error) => {
                return Err(error);
            },
        }
        match self {
            RecordHeader::Warcinfo(mut header) => {
                match FieldsBlock::read(
                    header.core.content_type.as_ref(),
                    header.core.truncated.is_some(),
                    body,
                ) {
                    Ok(block) => {
                        header.core.content_length = Some(content_length);
                        Ok(Record::Warcinfo { header, body: block })
                    },
                    Err(error) => Err(error),
                }
            },
            RecordHeader::Metadata(mut header) => {
                match FieldsBlock::read(
                    header.core.content_type.as_ref(),
                    header.core.truncated.is_some(),
                    body,
                ) {
                    Ok(block) => {
                        header.core.content_length = Some(content_length);
                        Ok(Record::Metadata { header, body: block })
                    },
                    Err(error) => Err(error),
                }
            },
            RecordHeader::Response(mut header) => {
                header.core.content_length = Some(content_length);
                Ok(Record::Response { header, body })
            },
            RecordHeader::Resource(mut header) => {
                header.core.content_length = Some(content_length);
                Ok(Record::Resource { header, body })
            },
            RecordHeader::Request(mut header) => {
                header.core.content_length = Some(content_length);
                Ok(Record::Request { header, body })
            },
            RecordHeader::Revisit(mut header) => {
                header.core.content_length = Some(content_length);
                Ok(Record::Revisit { header, body })
            },
            RecordHeader::Conversion(mut header) => {
                header.core.content_length = Some(content_length);
                Ok(Record::Conversion { header, body })
            },
            RecordHeader::Continuation(mut header) => {
                header.core.content_length = Some(content_length);
                Ok(Record::Continuation { header, body })
            },
            RecordHeader::Other(mut header) => {
                header.core.content_length = Some(content_length);
                Ok(Record::Other { header, body })
            },
        }
    }
}

impl<E: Extension> Record<E> {
    /// Convert an untyped record to its semantic representation, or return the first semantic rule
    /// the record violates.
    pub fn try_from(record: untyped::Record) -> (r: Result<Self, Error>)
        requires
            is_well_formed(record.header.entries()),
        ensures
            match r {
                Ok(read) => exists|header: RecordHeader<E>|
                    #![trigger read.is_made_of(header, record.body@)]
                    RecordHeader::is_lifted(
                        Ok::<RecordHeader<E>, Error>(header),
                        record.header.version,
                        record.header.entries(),
                    ) && header.body_fault(record.body@) is None && read.is_made_of(
                        header,
                        record.body@,
                    ),
                Err(error) => {
                    ||| RecordHeader::<E>::is_lifted(
                        Err(error),
                        record.header.version,
                        record.header.entries(),
                    )
                    ||| exists|header: RecordHeader<E>|
                        #![trigger header.body_fault(record.body@)]
                        RecordHeader::is_lifted(
                            Ok::<RecordHeader<E>, Error>(header),
                            record.header.version,
                            record.header.entries(),
                        ) && header.body_fault(record.body@) is Some && error@ == Fault::Block(
                            header.body_fault(record.body@)->0,
                        )
                },
            },
    {
        match RecordHeader::try_from(record.header) {
            Ok(header) => {
                let ghost lifted = header;
                match header.with_body(record.body) {
                    Ok(made) => {
                        assert(made.is_made_of(lifted, record.body@));
                        Ok(made)
                    },
                    Err(error) => {
                        assert(lifted.body_fault(record.body@) is Some);
                        Err(Error::Block(error))
                    },
                }
            },
            Err(error) => Err(error),
        }
    }
}

/// A header goes with a content block exactly where it declares the length of the block or none,
/// and the block of a `warcinfo` or `metadata` record that is declared as
/// `application/warc-fields`, in whichever case, holds fields unless it is declared truncated.
pub proof fn lemma_block_goes_with_its_header<E: Extension>(
    header: RecordHeader<E>,
    bytes: Seq<u8>,
)
    ensures
        ({
            let core = header.core_headers();
            let declared = core.content_type matches Some(media) && spells_word(
                octets(media@.main_type),
                octets("application"@),
            ) && spells_word(octets(media@.subtype), octets("warc-fields"@));
            header.body_fault(bytes) is None <==> (core.content_length matches Some(length)
                ==> length == bytes.len()) && (header is Warcinfo && declared
                && core.truncated is None ==> fields_of::<WarcinfoField>(bytes) is Ok) && (
            header is Metadata && declared && core.truncated is None
                ==> fields_of::<MetadataField>(bytes) is Ok)
        }),
{
    let core = header.core_headers();
    reveal_strlit("application");
    reveal_strlit("warc-fields");
    lemma_ascii_octets_of("application"@);
    lemma_ascii_octets_of("warc-fields"@);
    if let Some(media) = core.content_type {
        lemma_spells_word(octets(media@.main_type), octets("application"@));
        lemma_spells_word(octets(media@.subtype), octets("warc-fields"@));
    }
}

} // verus!
