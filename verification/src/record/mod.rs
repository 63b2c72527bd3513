//! A semantic representation of WARC records.
//!
//! [`Record`] pairs each record type with its corresponding [`header`] and content block.
//! [`Record::try_from`] converts an [`untyped::Record`](crate::parse::untyped::Record) by checking
//! its fields against the declared version and record type. [`Record::into_raw`] converts it back
//! to a [`raw::Record`](crate::parse::raw::Record). [`RecordHeader`] provides the same validation
//! without reading a content block.
//!
//! This representation is strict, and some real archives do not conform. The `warcinfo` records
//! wpull writes, for example, carry `WARC-Warcinfo-ID`, which clause 5.16 of the WARC 1.1 standard
//! permits on every record type but that one, and are refused here. Records declaring WARC 1.0 are
//! also refused if they carry either field added in WARC 1.1. Read uncertain input as
//! [`raw::Record`](crate::parse::raw::Record) first, then convert records when semantic validation
//! is needed.
//!
//! Semantic records preserve values, but normalize header order, field spelling, white space, and
//! URI brackets when rendered. A declared `Content-Length` is checked whenever a header and body
//! are paired, and again when the record is rendered.
//!
//! Declared digests are preserved when a record is read. Use [`Record::incorrect_block_digest`] and
//! [`Record::incorrect_payload_digest`] to inspect them. Rendering validates declared digests.
//! [`Record::into_raw_with_digests`] and [`Record::into_raw_with_digests_in`] add the digests a
//! record does not declare.
//!
//! Payload digests follow WARC 1.1 clause 5.9. For `application/http`, this means the HTTP
//! entity-body after transfer-coding has been removed. Some widely used tools digest the message
//! body instead, so their chunked records read but cannot be rendered.

pub mod block;
pub mod builder;
pub mod capture;
pub mod checking;
pub mod digest;
pub mod error;
pub mod extension;
pub mod faithful;
pub mod fields;
pub mod header;
pub mod http;
pub mod identify;
pub mod lift;
pub mod message;
pub mod payload;
pub mod read;
pub mod record_type;
pub mod render;
pub mod rewriting;
pub mod round_trip;
pub mod rules;
pub mod spelling;
pub mod write;

pub use crate::record::block::FieldsBlock;
pub use crate::record::error::{BlockError, Error, RenderError};

use crate::octets::{octets, same_but_for_case};
use crate::record::block::block_octets;
use crate::record::extension::{Extension, ExtensionRecordType, NoExtension};
use crate::record::fields::metadata::MetadataField;
use crate::record::fields::warcinfo::WarcinfoField;
use crate::record::header::{
    ContinuationHeader, ConversionHeader, CoreHeaders, MetadataHeader, OtherHeader, PayloadHeaders,
    RequestHeader, ResourceHeader, ResponseHeader, RevisitHeader, WarcinfoHeader,
};
use crate::record::payload::{body_of, octets_in};
use crate::record::record_type::{kind_name, Kind, RecordType};
use crate::value::media_type::is_media;
use crate::value::uri::scheme_of;
use crate::value::{IpAddress, Uri};
use crate::version::WarcVersion;
use std::borrow::Cow;
use vstd::prelude::*;

verus! {

/// A WARC record in its semantic representation.
///
/// The type parameter selects an extension vocabulary and defaults to [`NoExtension`]. Extensions
/// can add record types, truncation reasons, and fields on standard record types.
#[derive(Clone, Debug, Eq, PartialEq)]
pub enum Record<E: Extension = NoExtension> {
    /// A `warcinfo` record: metadata about a WARC file or the process that produced it.
    Warcinfo {
        /// The record's header block.
        header: WarcinfoHeader<E>,
        /// The record's block, recommended to be `application/warc-fields`.
        body: FieldsBlock<WarcinfoField>,
    },
    /// A `response` record: a complete scheme-specific response to a request.
    Response {
        /// The record's header block.
        header: ResponseHeader<E>,
        /// The record's block, the captured response as its scheme defines it.
        body: Vec<u8>,
    },
    /// A `resource` record: a resource captured without full protocol information.
    Resource {
        /// The record's header block.
        header: ResourceHeader<E>,
        /// The record's block, the captured resource itself.
        body: Vec<u8>,
    },
    /// A `request` record: a complete scheme-specific request.
    Request {
        /// The record's header block.
        header: RequestHeader<E>,
        /// The record's block, the captured request as its scheme defines it.
        body: Vec<u8>,
    },
    /// A `metadata` record: content created to further describe another record.
    Metadata {
        /// The record's header block.
        header: MetadataHeader<E>,
        /// The record's block, recommended to be `application/warc-fields`.
        body: FieldsBlock<MetadataField>,
    },
    /// A `revisit` record: a revisitation of content already archived.
    Revisit {
        /// The record's header block.
        header: RevisitHeader<E>,
        /// The record's block, whose shape the revisit profile governs.
        body: Vec<u8>,
    },
    /// A `conversion` record: an alternative version of another record's content.
    Conversion {
        /// The record's header block.
        header: ConversionHeader<E>,
        /// The record's block, the converted content.
        body: Vec<u8>,
    },
    /// A `continuation` record: the continuation of a block segmented across records.
    Continuation {
        /// The record's header block.
        header: ContinuationHeader<E>,
        /// The record's block, the next segment of the origin record's block.
        body: Vec<u8>,
    },
    /// A record of a type defined by the extension in force rather than the standard. Its fields
    /// remain untyped in [`CoreHeaders::unrecognized`].
    Other {
        /// The record's header block.
        header: OtherHeader<E>,
        /// The record's block, whose shape the extension governs.
        body: Vec<u8>,
    },
}

/// A WARC record header in its semantic representation.
///
/// This validates an untyped header without reading its body. Use [`with_body`](Self::with_body)
/// to attach a content block.
#[derive(Clone, Debug, Eq, PartialEq)]
pub enum RecordHeader<E: Extension = NoExtension> {
    /// The header of a `warcinfo` record.
    Warcinfo(WarcinfoHeader<E>),
    /// The header of a `response` record.
    Response(ResponseHeader<E>),
    /// The header of a `resource` record.
    Resource(ResourceHeader<E>),
    /// The header of a `request` record.
    Request(RequestHeader<E>),
    /// The header of a `metadata` record.
    Metadata(MetadataHeader<E>),
    /// The header of a `revisit` record.
    Revisit(RevisitHeader<E>),
    /// The header of a `conversion` record.
    Conversion(ConversionHeader<E>),
    /// The header of a `continuation` record.
    Continuation(ContinuationHeader<E>),
    /// The header of a record of a type the extension in force defines.
    Other(OtherHeader<E>),
}

impl<E: Extension> RecordHeader<E> {
    /// The record's type.
    pub open spec fn kind(self) -> Kind {
        match self {
            RecordHeader::Warcinfo(_) => Kind::Warcinfo,
            RecordHeader::Response(_) => Kind::Response,
            RecordHeader::Resource(_) => Kind::Resource,
            RecordHeader::Request(_) => Kind::Request,
            RecordHeader::Metadata(_) => Kind::Metadata,
            RecordHeader::Revisit(_) => Kind::Revisit,
            RecordHeader::Conversion(_) => Kind::Conversion,
            RecordHeader::Continuation(_) => Kind::Continuation,
            RecordHeader::Other(header) => Kind::Unknown(header.extension.spelled()),
        }
    }

    /// The version that the record declares.
    pub open spec fn declared_version(self) -> WarcVersion {
        match self {
            RecordHeader::Warcinfo(header) => header.version,
            RecordHeader::Response(header) => header.version,
            RecordHeader::Resource(header) => header.version,
            RecordHeader::Request(header) => header.version,
            RecordHeader::Metadata(header) => header.version,
            RecordHeader::Revisit(header) => header.version,
            RecordHeader::Conversion(header) => header.version,
            RecordHeader::Continuation(header) => header.version,
            RecordHeader::Other(header) => header.version,
        }
    }

    /// The fields shared by every record type.
    pub open spec fn core_headers(self) -> CoreHeaders<E> {
        match self {
            RecordHeader::Warcinfo(header) => header.core,
            RecordHeader::Response(header) => header.core,
            RecordHeader::Resource(header) => header.core,
            RecordHeader::Request(header) => header.core,
            RecordHeader::Metadata(header) => header.core,
            RecordHeader::Revisit(header) => header.core,
            RecordHeader::Conversion(header) => header.core,
            RecordHeader::Continuation(header) => header.core,
            RecordHeader::Other(header) => header.core,
        }
    }

    /// The payload fields, where the record type has a payload.
    pub open spec fn payload_headers(self) -> Option<PayloadHeaders> {
        match self {
            RecordHeader::Warcinfo(_) => None,
            RecordHeader::Response(header) => Some(header.payload),
            RecordHeader::Resource(header) => Some(header.payload),
            RecordHeader::Request(header) => Some(header.payload),
            RecordHeader::Metadata(_) => None,
            RecordHeader::Revisit(header) => Some(header.payload),
            RecordHeader::Conversion(header) => Some(header.payload),
            RecordHeader::Continuation(header) => Some(header.payload),
            RecordHeader::Other(_) => None,
        }
    }

    /// The URI that the record's content came from, where it has one.
    pub open spec fn target(self) -> Option<Seq<char>> {
        match self {
            RecordHeader::Warcinfo(_) => None,
            RecordHeader::Response(header) => Some(header.target_uri@),
            RecordHeader::Resource(header) => Some(header.target_uri@),
            RecordHeader::Request(header) => Some(header.target_uri@),
            RecordHeader::Metadata(header) => lift::shown(header.target_uri),
            RecordHeader::Revisit(header) => Some(header.target_uri@),
            RecordHeader::Conversion(header) => Some(header.target_uri@),
            RecordHeader::Continuation(header) => Some(header.target_uri@),
            RecordHeader::Other(_) => None,
        }
    }

    /// The `warcinfo` record describing the record, where it names one.
    pub open spec fn describing(self) -> Option<Seq<char>> {
        match self {
            RecordHeader::Warcinfo(_) => None,
            RecordHeader::Response(header) => lift::shown(header.warcinfo_id),
            RecordHeader::Resource(header) => lift::shown(header.warcinfo_id),
            RecordHeader::Request(header) => lift::shown(header.warcinfo_id),
            RecordHeader::Metadata(header) => lift::shown(header.warcinfo_id),
            RecordHeader::Revisit(header) => lift::shown(header.warcinfo_id),
            RecordHeader::Conversion(header) => lift::shown(header.warcinfo_id),
            RecordHeader::Continuation(header) => lift::shown(header.warcinfo_id),
            RecordHeader::Other(_) => None,
        }
    }

    /// The address that the content was retrieved from, where it is known.
    pub open spec fn address(self) -> Option<IpAddress> {
        match self {
            RecordHeader::Warcinfo(_) => None,
            RecordHeader::Response(header) => header.ip_address,
            RecordHeader::Resource(header) => header.ip_address,
            RecordHeader::Request(header) => header.ip_address,
            RecordHeader::Metadata(header) => header.ip_address,
            RecordHeader::Revisit(header) => header.ip_address,
            RecordHeader::Conversion(_) => None,
            RecordHeader::Continuation(_) => None,
            RecordHeader::Other(_) => None,
        }
    }

    /// The other records of the record's capture event.
    pub open spec fn concurrent(self) -> Seq<Seq<char>> {
        match self {
            RecordHeader::Warcinfo(_) => Seq::empty(),
            RecordHeader::Response(header) => lift::uri_texts(header.concurrent_to@),
            RecordHeader::Resource(header) => lift::uri_texts(header.concurrent_to@),
            RecordHeader::Request(header) => lift::uri_texts(header.concurrent_to@),
            RecordHeader::Metadata(header) => lift::uri_texts(header.concurrent_to@),
            RecordHeader::Revisit(header) => lift::uri_texts(header.concurrent_to@),
            RecordHeader::Conversion(_) => Seq::empty(),
            RecordHeader::Continuation(_) => Seq::empty(),
            RecordHeader::Other(_) => Seq::empty(),
        }
    }

    /// The record that the record describes or derives from, where it names one.
    pub open spec fn referred(self) -> Option<Seq<char>> {
        match self {
            RecordHeader::Warcinfo(_) => None,
            RecordHeader::Response(_) => None,
            RecordHeader::Resource(_) => None,
            RecordHeader::Request(_) => None,
            RecordHeader::Metadata(header) => lift::shown(header.refers_to),
            RecordHeader::Revisit(header) => lift::shown(header.refers_to),
            RecordHeader::Conversion(header) => lift::shown(header.refers_to),
            RecordHeader::Continuation(_) => None,
            RecordHeader::Other(_) => None,
        }
    }

    /// The record's position in a segmented series, where it has one.
    pub open spec fn segment(self) -> Option<nat> {
        match self {
            RecordHeader::Warcinfo(header) => if header.segment_origin {
                Some(1nat)
            } else {
                None
            },
            RecordHeader::Response(header) => if header.segment_origin {
                Some(1nat)
            } else {
                None
            },
            RecordHeader::Resource(header) => if header.segment_origin {
                Some(1nat)
            } else {
                None
            },
            RecordHeader::Request(header) => if header.segment_origin {
                Some(1nat)
            } else {
                None
            },
            RecordHeader::Metadata(header) => if header.segment_origin {
                Some(1nat)
            } else {
                None
            },
            RecordHeader::Revisit(header) => if header.segment_origin {
                Some(1nat)
            } else {
                None
            },
            RecordHeader::Conversion(header) => if header.segment_origin {
                Some(1nat)
            } else {
                None
            },
            RecordHeader::Continuation(header) => Some(header.segment_number@),
            RecordHeader::Other(header) => if header.segment_origin {
                Some(1nat)
            } else {
                None
            },
        }
    }

    /// The same with other fields shared by every record type.
    pub open spec fn with_core(self, core: CoreHeaders<E>) -> Self {
        match self {
            RecordHeader::Warcinfo(header) => RecordHeader::Warcinfo(
                WarcinfoHeader { core, ..header },
            ),
            RecordHeader::Response(header) => RecordHeader::Response(
                ResponseHeader { core, ..header },
            ),
            RecordHeader::Resource(header) => RecordHeader::Resource(
                ResourceHeader { core, ..header },
            ),
            RecordHeader::Request(header) => RecordHeader::Request(
                RequestHeader { core, ..header },
            ),
            RecordHeader::Metadata(header) => RecordHeader::Metadata(
                MetadataHeader { core, ..header },
            ),
            RecordHeader::Revisit(header) => RecordHeader::Revisit(
                RevisitHeader { core, ..header },
            ),
            RecordHeader::Conversion(header) => RecordHeader::Conversion(
                ConversionHeader { core, ..header },
            ),
            RecordHeader::Continuation(header) => RecordHeader::Continuation(
                ContinuationHeader { core, ..header },
            ),
            RecordHeader::Other(header) => RecordHeader::Other(OtherHeader { core, ..header }),
        }
    }

    /// The same with another declared version.
    pub open spec fn with_version(self, version: WarcVersion) -> Self {
        match self {
            RecordHeader::Warcinfo(header) => RecordHeader::Warcinfo(
                WarcinfoHeader { version, ..header },
            ),
            RecordHeader::Response(header) => RecordHeader::Response(
                ResponseHeader { version, ..header },
            ),
            RecordHeader::Resource(header) => RecordHeader::Resource(
                ResourceHeader { version, ..header },
            ),
            RecordHeader::Request(header) => RecordHeader::Request(
                RequestHeader { version, ..header },
            ),
            RecordHeader::Metadata(header) => RecordHeader::Metadata(
                MetadataHeader { version, ..header },
            ),
            RecordHeader::Revisit(header) => RecordHeader::Revisit(
                RevisitHeader { version, ..header },
            ),
            RecordHeader::Conversion(header) => RecordHeader::Conversion(
                ConversionHeader { version, ..header },
            ),
            RecordHeader::Continuation(header) => RecordHeader::Continuation(
                ContinuationHeader { version, ..header },
            ),
            RecordHeader::Other(header) => RecordHeader::Other(OtherHeader { version, ..header }),
        }
    }

    /// The same with other payload fields, where the record type has a payload.
    pub open spec fn with_payload(self, payload: PayloadHeaders) -> Self {
        match self {
            RecordHeader::Response(header) => RecordHeader::Response(
                ResponseHeader { payload, ..header },
            ),
            RecordHeader::Resource(header) => RecordHeader::Resource(
                ResourceHeader { payload, ..header },
            ),
            RecordHeader::Request(header) => RecordHeader::Request(
                RequestHeader { payload, ..header },
            ),
            RecordHeader::Revisit(header) => RecordHeader::Revisit(
                RevisitHeader { payload, ..header },
            ),
            RecordHeader::Conversion(header) => RecordHeader::Conversion(
                ConversionHeader { payload, ..header },
            ),
            RecordHeader::Continuation(header) => RecordHeader::Continuation(
                ContinuationHeader { payload, ..header },
            ),
            _ => self,
        }
    }

    /// The value the record's `WARC-Type` field carries.
    pub fn record_type_name(&self) -> (r: &str)
        ensures
            r@ == kind_name(self.kind()),
    {
        match self {
            RecordHeader::Warcinfo(_) => "warcinfo",
            RecordHeader::Response(_) => "response",
            RecordHeader::Resource(_) => "resource",
            RecordHeader::Request(_) => "request",
            RecordHeader::Metadata(_) => "metadata",
            RecordHeader::Revisit(_) => "revisit",
            RecordHeader::Conversion(_) => "conversion",
            RecordHeader::Continuation(_) => "continuation",
            RecordHeader::Other(header) => header.extension.spelling(),
        }
    }

    /// The WARC version declared by this record.
    pub fn version(&self) -> (r: WarcVersion)
        ensures
            r == self.declared_version(),
    {
        match self {
            RecordHeader::Warcinfo(header) => header.version,
            RecordHeader::Response(header) => header.version,
            RecordHeader::Resource(header) => header.version,
            RecordHeader::Request(header) => header.version,
            RecordHeader::Metadata(header) => header.version,
            RecordHeader::Revisit(header) => header.version,
            RecordHeader::Conversion(header) => header.version,
            RecordHeader::Continuation(header) => header.version,
            RecordHeader::Other(header) => header.version,
        }
    }

    /// Mutably access the WARC version declared by this record.
    pub fn version_mut(&mut self) -> (r: &mut WarcVersion)
        ensures
            *r == old(self).declared_version(),
            *final(self) == old(self).with_version(*final(r)),
    {
        match self {
            RecordHeader::Warcinfo(header) => &mut header.version,
            RecordHeader::Response(header) => &mut header.version,
            RecordHeader::Resource(header) => &mut header.version,
            RecordHeader::Request(header) => &mut header.version,
            RecordHeader::Metadata(header) => &mut header.version,
            RecordHeader::Revisit(header) => &mut header.version,
            RecordHeader::Conversion(header) => &mut header.version,
            RecordHeader::Continuation(header) => &mut header.version,
            RecordHeader::Other(header) => &mut header.version,
        }
    }

    /// The fields shared by every record type.
    pub fn core_fields(&self) -> (r: &CoreHeaders<E>)
        ensures
            *r == self.core_headers(),
    {
        match self {
            RecordHeader::Warcinfo(header) => &header.core,
            RecordHeader::Response(header) => &header.core,
            RecordHeader::Resource(header) => &header.core,
            RecordHeader::Request(header) => &header.core,
            RecordHeader::Metadata(header) => &header.core,
            RecordHeader::Revisit(header) => &header.core,
            RecordHeader::Conversion(header) => &header.core,
            RecordHeader::Continuation(header) => &header.core,
            RecordHeader::Other(header) => &header.core,
        }
    }

    /// The fields every record carries, mutably.
    pub fn core_mut(&mut self) -> (r: &mut CoreHeaders<E>)
        ensures
            *r == old(self).core_headers(),
            *final(self) == old(self).with_core(*final(r)),
    {
        match self {
            RecordHeader::Warcinfo(header) => &mut header.core,
            RecordHeader::Response(header) => &mut header.core,
            RecordHeader::Resource(header) => &mut header.core,
            RecordHeader::Request(header) => &mut header.core,
            RecordHeader::Metadata(header) => &mut header.core,
            RecordHeader::Revisit(header) => &mut header.core,
            RecordHeader::Conversion(header) => &mut header.core,
            RecordHeader::Continuation(header) => &mut header.core,
            RecordHeader::Other(header) => &mut header.core,
        }
    }

    /// The payload fields, or `None` if this record type has no payload.
    pub fn payload(&self) -> (r: Option<&PayloadHeaders>)
        ensures
            match r {
                Some(payload) => self.payload_headers() == Some(*payload),
                None => self.payload_headers() is None,
            },
    {
        match self {
            RecordHeader::Warcinfo(_) => None,
            RecordHeader::Response(header) => Some(&header.payload),
            RecordHeader::Resource(header) => Some(&header.payload),
            RecordHeader::Request(header) => Some(&header.payload),
            RecordHeader::Metadata(_) => None,
            RecordHeader::Revisit(header) => Some(&header.payload),
            RecordHeader::Conversion(header) => Some(&header.payload),
            RecordHeader::Continuation(header) => Some(&header.payload),
            RecordHeader::Other(_) => None,
        }
    }

    /// The payload fields, mutably, or `None` if this record type has no payload.
    pub fn payload_mut(&mut self) -> (r: Option<&mut PayloadHeaders>)
        ensures
            match r {
                Some(payload) => old(self).payload_headers() == Some(*payload) && *final(self)
                    == old(self).with_payload(*final(payload)),
                None => old(self).payload_headers() is None && *final(self) == *old(self),
            },
    {
        match self {
            RecordHeader::Warcinfo(_) => None,
            RecordHeader::Response(header) => Some(&mut header.payload),
            RecordHeader::Resource(header) => Some(&mut header.payload),
            RecordHeader::Request(header) => Some(&mut header.payload),
            RecordHeader::Metadata(_) => None,
            RecordHeader::Revisit(header) => Some(&mut header.payload),
            RecordHeader::Conversion(header) => Some(&mut header.payload),
            RecordHeader::Continuation(header) => Some(&mut header.payload),
            RecordHeader::Other(_) => None,
        }
    }

    /// `WARC-Target-URI`: the URI the record's content came from.
    ///
    /// Returns `None` when the field is forbidden or absent.
    pub fn target_uri(&self) -> (r: Option<&Uri>)
        ensures
            match r {
                Some(uri) => self.target() == Some(uri@),
                None => self.target() is None,
            },
    {
        match self {
            RecordHeader::Warcinfo(_) => None,
            RecordHeader::Response(header) => Some(&header.target_uri),
            RecordHeader::Resource(header) => Some(&header.target_uri),
            RecordHeader::Request(header) => Some(&header.target_uri),
            RecordHeader::Metadata(header) => header.target_uri.as_ref(),
            RecordHeader::Revisit(header) => Some(&header.target_uri),
            RecordHeader::Conversion(header) => Some(&header.target_uri),
            RecordHeader::Continuation(header) => Some(&header.target_uri),
            RecordHeader::Other(_) => None,
        }
    }

    /// `WARC-Warcinfo-ID`: the `warcinfo` record describing this one.
    pub fn warcinfo_id(&self) -> (r: Option<&Uri>)
        ensures
            match r {
                Some(uri) => self.describing() == Some(uri@),
                None => self.describing() is None,
            },
    {
        match self {
            RecordHeader::Warcinfo(_) => None,
            RecordHeader::Response(header) => header.warcinfo_id.as_ref(),
            RecordHeader::Resource(header) => header.warcinfo_id.as_ref(),
            RecordHeader::Request(header) => header.warcinfo_id.as_ref(),
            RecordHeader::Metadata(header) => header.warcinfo_id.as_ref(),
            RecordHeader::Revisit(header) => header.warcinfo_id.as_ref(),
            RecordHeader::Conversion(header) => header.warcinfo_id.as_ref(),
            RecordHeader::Continuation(header) => header.warcinfo_id.as_ref(),
            RecordHeader::Other(_) => None,
        }
    }

    /// `WARC-IP-Address`: the address from which the content was retrieved.
    pub fn ip_address(&self) -> (r: Option<IpAddress>)
        ensures
            r == self.address(),
    {
        match self {
            RecordHeader::Warcinfo(_) => None,
            RecordHeader::Response(header) => header.ip_address,
            RecordHeader::Resource(header) => header.ip_address,
            RecordHeader::Request(header) => header.ip_address,
            RecordHeader::Metadata(header) => header.ip_address,
            RecordHeader::Revisit(header) => header.ip_address,
            RecordHeader::Conversion(_) => None,
            RecordHeader::Continuation(_) => None,
            RecordHeader::Other(_) => None,
        }
    }

    /// `WARC-Concurrent-To`: the other records of this record's capture event, in the order they
    /// were given. Empty for the record types forbidden the field.
    pub fn concurrent_to(&self) -> (r: &[Uri])
        ensures
            lift::uri_texts(r@) == self.concurrent(),
    {
        match self {
            RecordHeader::Warcinfo(_) => no_uris(),
            RecordHeader::Response(header) => header.concurrent_to.as_slice(),
            RecordHeader::Resource(header) => header.concurrent_to.as_slice(),
            RecordHeader::Request(header) => header.concurrent_to.as_slice(),
            RecordHeader::Metadata(header) => header.concurrent_to.as_slice(),
            RecordHeader::Revisit(header) => header.concurrent_to.as_slice(),
            RecordHeader::Conversion(_) => no_uris(),
            RecordHeader::Continuation(_) => no_uris(),
            RecordHeader::Other(_) => no_uris(),
        }
    }

    /// `WARC-Refers-To`: the record this one describes or derives from.
    pub fn refers_to(&self) -> (r: Option<&Uri>)
        ensures
            match r {
                Some(uri) => self.referred() == Some(uri@),
                None => self.referred() is None,
            },
    {
        match self {
            RecordHeader::Warcinfo(_) => None,
            RecordHeader::Response(_) => None,
            RecordHeader::Resource(_) => None,
            RecordHeader::Request(_) => None,
            RecordHeader::Metadata(header) => header.refers_to.as_ref(),
            RecordHeader::Revisit(header) => header.refers_to.as_ref(),
            RecordHeader::Conversion(header) => header.refers_to.as_ref(),
            RecordHeader::Continuation(_) => None,
            RecordHeader::Other(_) => None,
        }
    }

    /// `WARC-Segment-Number`: this record's position in a segmented series.
    ///
    /// Returns `1` for an origin record and the declared number for a continuation. `None` means
    /// the record is not segmented.
    pub fn segment_number(&self) -> (r: Option<u64>)
        ensures
            match r {
                Some(number) => self.segment() == Some(number as nat),
                None => self.segment() is None,
            },
    {
        match self {
            RecordHeader::Warcinfo(header) => if header.segment_origin {
                Some(1)
            } else {
                None
            },
            RecordHeader::Response(header) => if header.segment_origin {
                Some(1)
            } else {
                None
            },
            RecordHeader::Resource(header) => if header.segment_origin {
                Some(1)
            } else {
                None
            },
            RecordHeader::Request(header) => if header.segment_origin {
                Some(1)
            } else {
                None
            },
            RecordHeader::Metadata(header) => if header.segment_origin {
                Some(1)
            } else {
                None
            },
            RecordHeader::Revisit(header) => if header.segment_origin {
                Some(1)
            } else {
                None
            },
            RecordHeader::Conversion(header) => if header.segment_origin {
                Some(1)
            } else {
                None
            },
            RecordHeader::Continuation(header) => Some(header.segment_number.get()),
            RecordHeader::Other(header) => if header.segment_origin {
                Some(1)
            } else {
                None
            },
        }
    }
}

impl<E: Extension> Record<E> {
    /// The record's type.
    pub open spec fn kind(self) -> Kind {
        match self {
            Record::Warcinfo { .. } => Kind::Warcinfo,
            Record::Response { .. } => Kind::Response,
            Record::Resource { .. } => Kind::Resource,
            Record::Request { .. } => Kind::Request,
            Record::Metadata { .. } => Kind::Metadata,
            Record::Revisit { .. } => Kind::Revisit,
            Record::Conversion { .. } => Kind::Conversion,
            Record::Continuation { .. } => Kind::Continuation,
            Record::Other { header, .. } => Kind::Unknown(header.extension.spelled()),
        }
    }

    /// The version that the record declares.
    pub open spec fn declared_version(self) -> WarcVersion {
        match self {
            Record::Warcinfo { header, .. } => header.version,
            Record::Response { header, .. } => header.version,
            Record::Resource { header, .. } => header.version,
            Record::Request { header, .. } => header.version,
            Record::Metadata { header, .. } => header.version,
            Record::Revisit { header, .. } => header.version,
            Record::Conversion { header, .. } => header.version,
            Record::Continuation { header, .. } => header.version,
            Record::Other { header, .. } => header.version,
        }
    }

    /// The fields shared by every record type.
    pub open spec fn core_headers(self) -> CoreHeaders<E> {
        match self {
            Record::Warcinfo { header, .. } => header.core,
            Record::Response { header, .. } => header.core,
            Record::Resource { header, .. } => header.core,
            Record::Request { header, .. } => header.core,
            Record::Metadata { header, .. } => header.core,
            Record::Revisit { header, .. } => header.core,
            Record::Conversion { header, .. } => header.core,
            Record::Continuation { header, .. } => header.core,
            Record::Other { header, .. } => header.core,
        }
    }

    /// The payload fields, where the record type has a payload.
    pub open spec fn payload_headers(self) -> Option<PayloadHeaders> {
        match self {
            Record::Warcinfo { .. } => None,
            Record::Response { header, .. } => Some(header.payload),
            Record::Resource { header, .. } => Some(header.payload),
            Record::Request { header, .. } => Some(header.payload),
            Record::Metadata { .. } => None,
            Record::Revisit { header, .. } => Some(header.payload),
            Record::Conversion { header, .. } => Some(header.payload),
            Record::Continuation { header, .. } => Some(header.payload),
            Record::Other { .. } => None,
        }
    }

    /// The URI that the record's content came from, where it has one.
    pub open spec fn target(self) -> Option<Seq<char>> {
        match self {
            Record::Warcinfo { .. } => None,
            Record::Response { header, .. } => Some(header.target_uri@),
            Record::Resource { header, .. } => Some(header.target_uri@),
            Record::Request { header, .. } => Some(header.target_uri@),
            Record::Metadata { header, .. } => lift::shown(header.target_uri),
            Record::Revisit { header, .. } => Some(header.target_uri@),
            Record::Conversion { header, .. } => Some(header.target_uri@),
            Record::Continuation { header, .. } => Some(header.target_uri@),
            Record::Other { .. } => None,
        }
    }

    /// The `warcinfo` record describing the record, where it names one.
    pub open spec fn describing(self) -> Option<Seq<char>> {
        match self {
            Record::Warcinfo { .. } => None,
            Record::Response { header, .. } => lift::shown(header.warcinfo_id),
            Record::Resource { header, .. } => lift::shown(header.warcinfo_id),
            Record::Request { header, .. } => lift::shown(header.warcinfo_id),
            Record::Metadata { header, .. } => lift::shown(header.warcinfo_id),
            Record::Revisit { header, .. } => lift::shown(header.warcinfo_id),
            Record::Conversion { header, .. } => lift::shown(header.warcinfo_id),
            Record::Continuation { header, .. } => lift::shown(header.warcinfo_id),
            Record::Other { .. } => None,
        }
    }

    /// The address that the content was retrieved from, where it is known.
    pub open spec fn address(self) -> Option<IpAddress> {
        match self {
            Record::Warcinfo { .. } => None,
            Record::Response { header, .. } => header.ip_address,
            Record::Resource { header, .. } => header.ip_address,
            Record::Request { header, .. } => header.ip_address,
            Record::Metadata { header, .. } => header.ip_address,
            Record::Revisit { header, .. } => header.ip_address,
            Record::Conversion { .. } => None,
            Record::Continuation { .. } => None,
            Record::Other { .. } => None,
        }
    }

    /// The other records of the record's capture event.
    pub open spec fn concurrent(self) -> Seq<Seq<char>> {
        match self {
            Record::Warcinfo { .. } => Seq::empty(),
            Record::Response { header, .. } => lift::uri_texts(header.concurrent_to@),
            Record::Resource { header, .. } => lift::uri_texts(header.concurrent_to@),
            Record::Request { header, .. } => lift::uri_texts(header.concurrent_to@),
            Record::Metadata { header, .. } => lift::uri_texts(header.concurrent_to@),
            Record::Revisit { header, .. } => lift::uri_texts(header.concurrent_to@),
            Record::Conversion { .. } => Seq::empty(),
            Record::Continuation { .. } => Seq::empty(),
            Record::Other { .. } => Seq::empty(),
        }
    }

    /// The record that the record describes or derives from, where it names one.
    pub open spec fn referred(self) -> Option<Seq<char>> {
        match self {
            Record::Warcinfo { .. } => None,
            Record::Response { .. } => None,
            Record::Resource { .. } => None,
            Record::Request { .. } => None,
            Record::Metadata { header, .. } => lift::shown(header.refers_to),
            Record::Revisit { header, .. } => lift::shown(header.refers_to),
            Record::Conversion { header, .. } => lift::shown(header.refers_to),
            Record::Continuation { .. } => None,
            Record::Other { .. } => None,
        }
    }

    /// The record's position in a segmented series, where it has one.
    pub open spec fn segment(self) -> Option<nat> {
        match self {
            Record::Warcinfo { header, .. } => if header.segment_origin {
                Some(1nat)
            } else {
                None
            },
            Record::Response { header, .. } => if header.segment_origin {
                Some(1nat)
            } else {
                None
            },
            Record::Resource { header, .. } => if header.segment_origin {
                Some(1nat)
            } else {
                None
            },
            Record::Request { header, .. } => if header.segment_origin {
                Some(1nat)
            } else {
                None
            },
            Record::Metadata { header, .. } => if header.segment_origin {
                Some(1nat)
            } else {
                None
            },
            Record::Revisit { header, .. } => if header.segment_origin {
                Some(1nat)
            } else {
                None
            },
            Record::Conversion { header, .. } => if header.segment_origin {
                Some(1nat)
            } else {
                None
            },
            Record::Continuation { header, .. } => Some(header.segment_number@),
            Record::Other { header, .. } => if header.segment_origin {
                Some(1nat)
            } else {
                None
            },
        }
    }

    /// The same with other fields shared by every record type.
    pub open spec fn with_core(self, core: CoreHeaders<E>) -> Self {
        match self {
            Record::Warcinfo { header, body } => Record::Warcinfo {
                header: WarcinfoHeader { core, ..header },
                body,
            },
            Record::Response { header, body } => Record::Response {
                header: ResponseHeader { core, ..header },
                body,
            },
            Record::Resource { header, body } => Record::Resource {
                header: ResourceHeader { core, ..header },
                body,
            },
            Record::Request { header, body } => Record::Request {
                header: RequestHeader { core, ..header },
                body,
            },
            Record::Metadata { header, body } => Record::Metadata {
                header: MetadataHeader { core, ..header },
                body,
            },
            Record::Revisit { header, body } => Record::Revisit {
                header: RevisitHeader { core, ..header },
                body,
            },
            Record::Conversion { header, body } => Record::Conversion {
                header: ConversionHeader { core, ..header },
                body,
            },
            Record::Continuation { header, body } => Record::Continuation {
                header: ContinuationHeader { core, ..header },
                body,
            },
            Record::Other { header, body } => Record::Other {
                header: OtherHeader { core, ..header },
                body,
            },
        }
    }

    /// The same with another declared version.
    pub open spec fn with_version(self, version: WarcVersion) -> Self {
        match self {
            Record::Warcinfo { header, body } => Record::Warcinfo {
                header: WarcinfoHeader { version, ..header },
                body,
            },
            Record::Response { header, body } => Record::Response {
                header: ResponseHeader { version, ..header },
                body,
            },
            Record::Resource { header, body } => Record::Resource {
                header: ResourceHeader { version, ..header },
                body,
            },
            Record::Request { header, body } => Record::Request {
                header: RequestHeader { version, ..header },
                body,
            },
            Record::Metadata { header, body } => Record::Metadata {
                header: MetadataHeader { version, ..header },
                body,
            },
            Record::Revisit { header, body } => Record::Revisit {
                header: RevisitHeader { version, ..header },
                body,
            },
            Record::Conversion { header, body } => Record::Conversion {
                header: ConversionHeader { version, ..header },
                body,
            },
            Record::Continuation { header, body } => Record::Continuation {
                header: ContinuationHeader { version, ..header },
                body,
            },
            Record::Other { header, body } => Record::Other {
                header: OtherHeader { version, ..header },
                body,
            },
        }
    }

    /// The same with other payload fields, where the record type has a payload.
    pub open spec fn with_payload(self, payload: PayloadHeaders) -> Self {
        match self {
            Record::Response { header, body } => Record::Response {
                header: ResponseHeader { payload, ..header },
                body,
            },
            Record::Resource { header, body } => Record::Resource {
                header: ResourceHeader { payload, ..header },
                body,
            },
            Record::Request { header, body } => Record::Request {
                header: RequestHeader { payload, ..header },
                body,
            },
            Record::Revisit { header, body } => Record::Revisit {
                header: RevisitHeader { payload, ..header },
                body,
            },
            Record::Conversion { header, body } => Record::Conversion {
                header: ConversionHeader { payload, ..header },
                body,
            },
            Record::Continuation { header, body } => Record::Continuation {
                header: ContinuationHeader { payload, ..header },
                body,
            },
            _ => self,
        }
    }

    /// The value the record's `WARC-Type` field carries.
    pub fn record_type_name(&self) -> (r: &str)
        ensures
            r@ == kind_name(self.kind()),
    {
        match self {
            Record::Warcinfo { .. } => "warcinfo",
            Record::Response { .. } => "response",
            Record::Resource { .. } => "resource",
            Record::Request { .. } => "request",
            Record::Metadata { .. } => "metadata",
            Record::Revisit { .. } => "revisit",
            Record::Conversion { .. } => "conversion",
            Record::Continuation { .. } => "continuation",
            Record::Other { header, .. } => header.extension.spelling(),
        }
    }

    /// The WARC version declared by this record.
    pub fn version(&self) -> (r: WarcVersion)
        ensures
            r == self.declared_version(),
    {
        match self {
            Record::Warcinfo { header, .. } => header.version,
            Record::Response { header, .. } => header.version,
            Record::Resource { header, .. } => header.version,
            Record::Request { header, .. } => header.version,
            Record::Metadata { header, .. } => header.version,
            Record::Revisit { header, .. } => header.version,
            Record::Conversion { header, .. } => header.version,
            Record::Continuation { header, .. } => header.version,
            Record::Other { header, .. } => header.version,
        }
    }

    /// Mutably access the WARC version declared by this record.
    pub fn version_mut(&mut self) -> (r: &mut WarcVersion)
        ensures
            *r == old(self).declared_version(),
            *final(self) == old(self).with_version(*final(r)),
    {
        match self {
            Record::Warcinfo { header, .. } => &mut header.version,
            Record::Response { header, .. } => &mut header.version,
            Record::Resource { header, .. } => &mut header.version,
            Record::Request { header, .. } => &mut header.version,
            Record::Metadata { header, .. } => &mut header.version,
            Record::Revisit { header, .. } => &mut header.version,
            Record::Conversion { header, .. } => &mut header.version,
            Record::Continuation { header, .. } => &mut header.version,
            Record::Other { header, .. } => &mut header.version,
        }
    }

    /// The fields shared by every record type.
    pub fn core_fields(&self) -> (r: &CoreHeaders<E>)
        ensures
            *r == self.core_headers(),
    {
        match self {
            Record::Warcinfo { header, .. } => &header.core,
            Record::Response { header, .. } => &header.core,
            Record::Resource { header, .. } => &header.core,
            Record::Request { header, .. } => &header.core,
            Record::Metadata { header, .. } => &header.core,
            Record::Revisit { header, .. } => &header.core,
            Record::Conversion { header, .. } => &header.core,
            Record::Continuation { header, .. } => &header.core,
            Record::Other { header, .. } => &header.core,
        }
    }

    /// The fields every record carries, mutably.
    pub fn core_mut(&mut self) -> (r: &mut CoreHeaders<E>)
        ensures
            *r == old(self).core_headers(),
            *final(self) == old(self).with_core(*final(r)),
    {
        match self {
            Record::Warcinfo { header, .. } => &mut header.core,
            Record::Response { header, .. } => &mut header.core,
            Record::Resource { header, .. } => &mut header.core,
            Record::Request { header, .. } => &mut header.core,
            Record::Metadata { header, .. } => &mut header.core,
            Record::Revisit { header, .. } => &mut header.core,
            Record::Conversion { header, .. } => &mut header.core,
            Record::Continuation { header, .. } => &mut header.core,
            Record::Other { header, .. } => &mut header.core,
        }
    }

    /// The payload fields, or `None` if this record type has no payload.
    pub fn payload(&self) -> (r: Option<&PayloadHeaders>)
        ensures
            match r {
                Some(payload) => self.payload_headers() == Some(*payload),
                None => self.payload_headers() is None,
            },
    {
        match self {
            Record::Warcinfo { .. } => None,
            Record::Response { header, .. } => Some(&header.payload),
            Record::Resource { header, .. } => Some(&header.payload),
            Record::Request { header, .. } => Some(&header.payload),
            Record::Metadata { .. } => None,
            Record::Revisit { header, .. } => Some(&header.payload),
            Record::Conversion { header, .. } => Some(&header.payload),
            Record::Continuation { header, .. } => Some(&header.payload),
            Record::Other { .. } => None,
        }
    }

    /// The payload fields, mutably, or `None` if this record type has no payload.
    pub fn payload_mut(&mut self) -> (r: Option<&mut PayloadHeaders>)
        ensures
            match r {
                Some(payload) => old(self).payload_headers() == Some(*payload) && *final(self)
                    == old(self).with_payload(*final(payload)),
                None => old(self).payload_headers() is None && *final(self) == *old(self),
            },
    {
        match self {
            Record::Warcinfo { .. } => None,
            Record::Response { header, .. } => Some(&mut header.payload),
            Record::Resource { header, .. } => Some(&mut header.payload),
            Record::Request { header, .. } => Some(&mut header.payload),
            Record::Metadata { .. } => None,
            Record::Revisit { header, .. } => Some(&mut header.payload),
            Record::Conversion { header, .. } => Some(&mut header.payload),
            Record::Continuation { header, .. } => Some(&mut header.payload),
            Record::Other { .. } => None,
        }
    }

    /// `WARC-Target-URI`: the URI the record's content came from.
    ///
    /// Returns `None` when the field is forbidden or absent.
    pub fn target_uri(&self) -> (r: Option<&Uri>)
        ensures
            match r {
                Some(uri) => self.target() == Some(uri@),
                None => self.target() is None,
            },
    {
        match self {
            Record::Warcinfo { .. } => None,
            Record::Response { header, .. } => Some(&header.target_uri),
            Record::Resource { header, .. } => Some(&header.target_uri),
            Record::Request { header, .. } => Some(&header.target_uri),
            Record::Metadata { header, .. } => header.target_uri.as_ref(),
            Record::Revisit { header, .. } => Some(&header.target_uri),
            Record::Conversion { header, .. } => Some(&header.target_uri),
            Record::Continuation { header, .. } => Some(&header.target_uri),
            Record::Other { .. } => None,
        }
    }

    /// `WARC-Warcinfo-ID`: the `warcinfo` record describing this one.
    pub fn warcinfo_id(&self) -> (r: Option<&Uri>)
        ensures
            match r {
                Some(uri) => self.describing() == Some(uri@),
                None => self.describing() is None,
            },
    {
        match self {
            Record::Warcinfo { .. } => None,
            Record::Response { header, .. } => header.warcinfo_id.as_ref(),
            Record::Resource { header, .. } => header.warcinfo_id.as_ref(),
            Record::Request { header, .. } => header.warcinfo_id.as_ref(),
            Record::Metadata { header, .. } => header.warcinfo_id.as_ref(),
            Record::Revisit { header, .. } => header.warcinfo_id.as_ref(),
            Record::Conversion { header, .. } => header.warcinfo_id.as_ref(),
            Record::Continuation { header, .. } => header.warcinfo_id.as_ref(),
            Record::Other { .. } => None,
        }
    }

    /// `WARC-IP-Address`: the address from which the content was retrieved.
    pub fn ip_address(&self) -> (r: Option<IpAddress>)
        ensures
            r == self.address(),
    {
        match self {
            Record::Warcinfo { .. } => None,
            Record::Response { header, .. } => header.ip_address,
            Record::Resource { header, .. } => header.ip_address,
            Record::Request { header, .. } => header.ip_address,
            Record::Metadata { header, .. } => header.ip_address,
            Record::Revisit { header, .. } => header.ip_address,
            Record::Conversion { .. } => None,
            Record::Continuation { .. } => None,
            Record::Other { .. } => None,
        }
    }

    /// `WARC-Concurrent-To`: the other records of this record's capture event, in the order they
    /// were given. Empty for the record types forbidden the field.
    pub fn concurrent_to(&self) -> (r: &[Uri])
        ensures
            lift::uri_texts(r@) == self.concurrent(),
    {
        match self {
            Record::Warcinfo { .. } => no_uris(),
            Record::Response { header, .. } => header.concurrent_to.as_slice(),
            Record::Resource { header, .. } => header.concurrent_to.as_slice(),
            Record::Request { header, .. } => header.concurrent_to.as_slice(),
            Record::Metadata { header, .. } => header.concurrent_to.as_slice(),
            Record::Revisit { header, .. } => header.concurrent_to.as_slice(),
            Record::Conversion { .. } => no_uris(),
            Record::Continuation { .. } => no_uris(),
            Record::Other { .. } => no_uris(),
        }
    }

    /// `WARC-Refers-To`: the record this one describes or derives from.
    pub fn refers_to(&self) -> (r: Option<&Uri>)
        ensures
            match r {
                Some(uri) => self.referred() == Some(uri@),
                None => self.referred() is None,
            },
    {
        match self {
            Record::Warcinfo { .. } => None,
            Record::Response { .. } => None,
            Record::Resource { .. } => None,
            Record::Request { .. } => None,
            Record::Metadata { header, .. } => header.refers_to.as_ref(),
            Record::Revisit { header, .. } => header.refers_to.as_ref(),
            Record::Conversion { header, .. } => header.refers_to.as_ref(),
            Record::Continuation { .. } => None,
            Record::Other { .. } => None,
        }
    }

    /// `WARC-Segment-Number`: this record's position in a segmented series.
    ///
    /// Returns `1` for an origin record and the declared number for a continuation. `None` means
    /// the record is not segmented.
    pub fn segment_number(&self) -> (r: Option<u64>)
        ensures
            match r {
                Some(number) => self.segment() == Some(number as nat),
                None => self.segment() is None,
            },
    {
        match self {
            Record::Warcinfo { header, .. } => if header.segment_origin {
                Some(1)
            } else {
                None
            },
            Record::Response { header, .. } => if header.segment_origin {
                Some(1)
            } else {
                None
            },
            Record::Resource { header, .. } => if header.segment_origin {
                Some(1)
            } else {
                None
            },
            Record::Request { header, .. } => if header.segment_origin {
                Some(1)
            } else {
                None
            },
            Record::Metadata { header, .. } => if header.segment_origin {
                Some(1)
            } else {
                None
            },
            Record::Revisit { header, .. } => if header.segment_origin {
                Some(1)
            } else {
                None
            },
            Record::Conversion { header, .. } => if header.segment_origin {
                Some(1)
            } else {
                None
            },
            Record::Continuation { header, .. } => Some(header.segment_number.get()),
            Record::Other { header, .. } => if header.segment_origin {
                Some(1)
            } else {
                None
            },
        }
    }
}

/// No URIs.
fn no_uris() -> (r: &'static [Uri])
    ensures
        r@ == Seq::<Uri>::empty(),
{
    let none: &'static [Uri; 0] = &[];
    none.as_slice()
}

impl<E: Extension> Record<E> {
    /// The octets of the record's content block.
    pub open spec fn block(self) -> Seq<u8> {
        match self {
            Record::Warcinfo { body, .. } => block_octets(body),
            Record::Metadata { body, .. } => block_octets(body),
            Record::Response { body, .. } => body@,
            Record::Resource { body, .. } => body@,
            Record::Request { body, .. } => body@,
            Record::Revisit { body, .. } => body@,
            Record::Conversion { body, .. } => body@,
            Record::Continuation { body, .. } => body@,
            Record::Other { body, .. } => body@,
        }
    }

    /// Whether the record declares an HTTP message as its block: its target names HTTP or HTTPS, and
    /// its media type is `application/http` or absent.
    pub open spec fn is_http(self) -> bool {
        &&& self.target() matches Some(uri) && (same_but_for_case(
            scheme_of(octets(uri)),
            octets("http"@),
        ) || same_but_for_case(scheme_of(octets(uri)), octets("https"@)))
        &&& match self.core_headers().content_type {
            Some(media) => is_media(media@, "application"@, "http"@),
            None => true,
        }
    }

    /// The record's payload, where it can be told from the record, or what keeps an HTTP message
    /// from being read far enough to tell it.
    pub open spec fn payload_content(self) -> Result<Option<Seq<u8>>, payload::Fault> {
        match self {
            Record::Resource { body, .. } => Ok(Some(body@)),
            Record::Conversion { body, .. } => Ok(Some(body@)),
            Record::Response { body, .. } => if self.is_http() {
                match body_of(body@) {
                    Ok(content) => Ok(Some(content)),
                    Err(fault) => Err(fault),
                }
            } else {
                Ok(None)
            },
            Record::Request { body, .. } => if self.is_http() {
                match body_of(body@) {
                    Ok(content) => Ok(Some(content)),
                    Err(fault) => Err(fault),
                }
            } else {
                Ok(None)
            },
            _ => Ok(None),
        }
    }

    /// Convert this variant to its raw record type while preserving extension type spelling.
    pub fn record_type(&self) -> (r: RecordType)
        ensures
            r@ == self.kind(),
    {
        match self {
            Record::Warcinfo { .. } => RecordType::Warcinfo,
            Record::Response { .. } => RecordType::Response,
            Record::Resource { .. } => RecordType::Resource,
            Record::Request { .. } => RecordType::Request,
            Record::Metadata { .. } => RecordType::Metadata,
            Record::Revisit { .. } => RecordType::Revisit,
            Record::Conversion { .. } => RecordType::Conversion,
            Record::Continuation { .. } => RecordType::Continuation,
            Record::Other { header, .. } => RecordType::Unknown(
                header.extension.spelling().to_owned(),
            ),
        }
    }

    /// `Content-Length`: the rendered length of this record's content block.
    ///
    /// This measures the current block. [`into_raw`](Self::into_raw) rejects a conflicting value in
    /// [`CoreHeaders::content_length`].
    pub fn content_length(&self) -> (r: u64)
        ensures
            r == self.block().len(),
    {
        // A block is held in memory, so its length is a `usize` that fits a `u64` on every platform
        // this crate builds for.
        match self {
            Record::Warcinfo { body, .. } => body.rendered_len() as u64,
            Record::Metadata { body, .. } => body.rendered_len() as u64,
            Record::Response { body, .. } => body.len() as u64,
            Record::Resource { body, .. } => body.len() as u64,
            Record::Request { body, .. } => body.len() as u64,
            Record::Revisit { body, .. } => body.len() as u64,
            Record::Conversion { body, .. } => body.len() as u64,
            Record::Continuation { body, .. } => body.len() as u64,
            Record::Other { body, .. } => body.len() as u64,
        }
    }

    /// This record's rendered content block.
    ///
    /// A block read as `application/warc-fields` is rendered on demand and comes back owned; every
    /// other block is the bytes the record arrived with and is borrowed.
    pub fn body_bytes(&self) -> (r: Cow<'_, [u8]>)
        ensures
            octets_in(r) == self.block(),
    {
        match self {
            Record::Warcinfo { body, .. } => body.as_bytes(),
            Record::Metadata { body, .. } => body.as_bytes(),
            Record::Response { body, .. } => Cow::Borrowed(body.as_slice()),
            Record::Resource { body, .. } => Cow::Borrowed(body.as_slice()),
            Record::Request { body, .. } => Cow::Borrowed(body.as_slice()),
            Record::Revisit { body, .. } => Cow::Borrowed(body.as_slice()),
            Record::Conversion { body, .. } => Cow::Borrowed(body.as_slice()),
            Record::Continuation { body, .. } => Cow::Borrowed(body.as_slice()),
            Record::Other { body, .. } => Cow::Borrowed(body.as_slice()),
        }
    }

    /// Return this record's payload as defined by WARC 1.1 clause 5.9.
    ///
    /// A `resource` or `conversion` payload is the complete block. For an HTTP `response` or
    /// `request`, it is the entity-body extracted by [`payload::entity_body`].
    ///
    /// Returns `None` for records without a locally determinable payload, including revisits,
    /// continuations, and non-HTTP captures, and an error if an HTTP block cannot be parsed far
    /// enough to extract its entity-body.
    pub fn payload_bytes(&self) -> (r: Result<Option<Cow<'_, [u8]>>, payload::Error>)
        ensures
            match r {
                Ok(Some(content)) => self.payload_content() == Ok::<
                    Option<Seq<u8>>,
                    payload::Fault,
                >(Some(octets_in(content))),
                Ok(None) => self.payload_content() == Ok::<Option<Seq<u8>>, payload::Fault>(None),
                Err(error) => self.payload_content() == Err::<Option<Seq<u8>>, payload::Fault>(
                    error@,
                ),
            },
    {
        match self {
            Record::Resource { body, .. } => Ok(Some(Cow::Borrowed(body.as_slice()))),
            Record::Conversion { body, .. } => Ok(Some(Cow::Borrowed(body.as_slice()))),
            Record::Response { body, .. } => if self.holds_http_message() {
                match payload::entity_body(body.as_slice()) {
                    Ok(content) => Ok(Some(content)),
                    Err(error) => Err(error),
                }
            } else {
                Ok(None)
            },
            Record::Request { body, .. } => if self.holds_http_message() {
                match payload::entity_body(body.as_slice()) {
                    Ok(content) => Ok(Some(content)),
                    Err(error) => Err(error),
                }
            } else {
                Ok(None)
            },
            _ => Ok(None),
        }
    }

    /// Whether this record declares an HTTP message as its block.
    ///
    /// The target URI must name HTTP or HTTPS, and the media type must be `application/http` or
    /// absent.
    fn holds_http_message(&self) -> (r: bool)
        ensures
            r == self.is_http(),
    {
        let over_http = match self.target_uri() {
            Some(uri) => uri.has_scheme("http") || uri.has_scheme("https"),
            None => false,
        };
        over_http && match &self.core_fields().content_type {
            Some(media) => media.is("application", "http"),
            None => true,
        }
    }
}

} // verus!
