//! A semantic representation of a WARC record's header block.
//!
//! Each record type has its own header struct. Required fields are plain values, optional fields
//! use [`Option`], and forbidden fields are absent. The record variant supplies `WARC-Type`, while
//! each header stores the WARC version declared by its version line.
//!
//! These structs encode clauses 5 and 6 of the WARC 1.1 standard. Where the two versions differ,
//! the 1.1 reading is taken, since it only ever widens what 1.0 allowed.
//!
//! Every header except [`ContinuationHeader`] has a `segment_origin` flag. It represents a
//! `WARC-Segment-Number` of `1`. Continuation headers store their required segment number directly.
//!
//! The type parameter provides record types, fields, and truncation reasons defined by an
//! extension. See [`crate::record::extension`].

pub mod protocol;
pub mod truncated_type;

use crate::record::extension::{Extension, NoExtension};
use crate::record::header::truncated_type::TruncatedType;
use crate::text::same_text;
use crate::value::{IpAddress, LabelledDigest, MediaType, Text, Uri, WarcDate};
use crate::version::WarcVersion;
use vstd::prelude::*;

verus! {

/// The kind of analysis a `revisit` record reports, named by its `WARC-Profile` URI.
///
/// Unknown profiles are preserved as [`Self::Other`]. Each standard profile stores the version
/// named in its URI, which may differ from the record's declared version.
#[derive(Clone, Debug, Hash, Eq, PartialEq)]
pub enum RevisitProfile {
    /// The payload is identical to one already archived, as established by a strong digest.
    ///
    /// A record using this profile must carry the matching `WARC-Payload-Digest`. Its block is
    /// either empty or the beginning of the response it stands for, which the record declares as
    /// `WARC-Truncated: length`.
    ///
    /// Both rules apply only to the standard profile URIs. They are checked when a record is read
    /// and again when one is written, so a record assembled or edited directly is checked before
    /// it reaches a file.
    IdenticalPayloadDigest(WarcVersion),
    /// The server asserted the content had not changed, as with an HTTP `304 Not Modified`.
    ///
    /// A record under this profile may have an empty block.
    ServerNotModified(WarcVersion),
    /// A profile defined outside the standard, held as the URI it was written with.
    Other(String),
}

/// What a [`RevisitProfile`] stands for.
pub ghost enum Profile {
    /// An identical payload, under the URI of a version.
    IdenticalPayloadDigest(WarcVersion),
    /// A server's assertion, under the URI of a version.
    ServerNotModified(WarcVersion),
    /// A profile defined outside the standard.
    Other(Seq<char>),
}

impl View for RevisitProfile {
    type V = Profile;

    open spec fn view(&self) -> Profile {
        match self {
            RevisitProfile::IdenticalPayloadDigest(version) => Profile::IdenticalPayloadDigest(
                *version,
            ),
            RevisitProfile::ServerNotModified(version) => Profile::ServerNotModified(*version),
            RevisitProfile::Other(uri) => Profile::Other(uri@),
        }
    }
}

/// The URI of a profile.
pub open spec fn profile_uri(profile: Profile) -> Seq<char> {
    match profile {
        Profile::IdenticalPayloadDigest(WarcVersion::V1_0) => {
            "http://netpreserve.org/warc/1.0/revisit/identical-payload-digest"@
        },
        Profile::IdenticalPayloadDigest(WarcVersion::V1_1) => {
            "http://netpreserve.org/warc/1.1/revisit/identical-payload-digest"@
        },
        Profile::ServerNotModified(WarcVersion::V1_0) => {
            "http://netpreserve.org/warc/1.0/revisit/server-not-modified"@
        },
        Profile::ServerNotModified(WarcVersion::V1_1) => {
            "http://netpreserve.org/warc/1.1/revisit/server-not-modified"@
        },
        Profile::Other(uri) => uri,
    }
}

/// The profile that a URI names. URIs are case-sensitive and preserved as written.
pub open spec fn profile_named(uri: Seq<char>) -> Profile {
    if uri == profile_uri(Profile::IdenticalPayloadDigest(WarcVersion::V1_0)) {
        Profile::IdenticalPayloadDigest(WarcVersion::V1_0)
    } else if uri == profile_uri(Profile::IdenticalPayloadDigest(WarcVersion::V1_1)) {
        Profile::IdenticalPayloadDigest(WarcVersion::V1_1)
    } else if uri == profile_uri(Profile::ServerNotModified(WarcVersion::V1_0)) {
        Profile::ServerNotModified(WarcVersion::V1_0)
    } else if uri == profile_uri(Profile::ServerNotModified(WarcVersion::V1_1)) {
        Profile::ServerNotModified(WarcVersion::V1_1)
    } else {
        Profile::Other(uri)
    }
}

/// A profile that the standard defines is read back from its URI.
pub proof fn lemma_profile_is_named(profile: Profile)
    requires
        !(profile is Other),
    ensures
        profile_named(profile_uri(profile)) == profile,
{
    reveal_strlit("http://netpreserve.org/warc/1.0/revisit/identical-payload-digest");
    reveal_strlit("http://netpreserve.org/warc/1.1/revisit/identical-payload-digest");
    reveal_strlit("http://netpreserve.org/warc/1.0/revisit/server-not-modified");
    reveal_strlit("http://netpreserve.org/warc/1.1/revisit/server-not-modified");
    let a = profile_uri(Profile::IdenticalPayloadDigest(WarcVersion::V1_0));
    let b = profile_uri(Profile::IdenticalPayloadDigest(WarcVersion::V1_1));
    let c = profile_uri(Profile::ServerNotModified(WarcVersion::V1_0));
    let d = profile_uri(Profile::ServerNotModified(WarcVersion::V1_1));
    assert(a[30] == '0' && b[30] == '1' && c[30] == '0' && d[30] == '1');
    assert(a != b && c != d);
    assert(a.len() != c.len() && a.len() != d.len() && b.len() != c.len() && b.len() != d.len());
    assert(a != c && a != d && b != c && b != d);
    match profile {
        Profile::IdenticalPayloadDigest(WarcVersion::V1_0) => {},
        Profile::IdenticalPayloadDigest(WarcVersion::V1_1) => {},
        Profile::ServerNotModified(WarcVersion::V1_0) => {},
        Profile::ServerNotModified(WarcVersion::V1_1) => {},
        Profile::Other(_) => {},
    }
}

impl RevisitProfile {
    /// The profile URI.
    pub fn as_str(&self) -> (r: &str)
        ensures
            r@ == profile_uri(self@),
    {
        match self {
            RevisitProfile::IdenticalPayloadDigest(WarcVersion::V1_0) => {
                "http://netpreserve.org/warc/1.0/revisit/identical-payload-digest"
            },
            RevisitProfile::IdenticalPayloadDigest(WarcVersion::V1_1) => {
                "http://netpreserve.org/warc/1.1/revisit/identical-payload-digest"
            },
            RevisitProfile::ServerNotModified(WarcVersion::V1_0) => {
                "http://netpreserve.org/warc/1.0/revisit/server-not-modified"
            },
            RevisitProfile::ServerNotModified(WarcVersion::V1_1) => {
                "http://netpreserve.org/warc/1.1/revisit/server-not-modified"
            },
            RevisitProfile::Other(uri) => uri.as_str(),
        }
    }

    /// The profile that a URI names. URIs are case-sensitive and preserved as written.
    pub fn from(uri: &str) -> (r: Self)
        ensures
            r@ == profile_named(uri@),
    {
        let v1_0 = RevisitProfile::IdenticalPayloadDigest(WarcVersion::V1_0);
        if same_text(uri, v1_0.as_str()) {
            return v1_0;
        }
        let v1_1 = RevisitProfile::IdenticalPayloadDigest(WarcVersion::V1_1);
        if same_text(uri, v1_1.as_str()) {
            return v1_1;
        }
        let unmodified_v1_0 = RevisitProfile::ServerNotModified(WarcVersion::V1_0);
        if same_text(uri, unmodified_v1_0.as_str()) {
            return unmodified_v1_0;
        }
        let unmodified_v1_1 = RevisitProfile::ServerNotModified(WarcVersion::V1_1);
        if same_text(uri, unmodified_v1_1.as_str()) {
            return unmodified_v1_1;
        }
        RevisitProfile::Other(uri.to_owned())
    }

    /// Whether the payload is identical to one already archived.
    pub fn is_identical_payload(&self) -> (r: bool)
        ensures
            r == (self@ is IdenticalPayloadDigest),
    {
        match self {
            RevisitProfile::IdenticalPayloadDigest(_) => true,
            _ => false,
        }
    }
}

impl PayloadHeaders {
    /// No fields.
    pub fn none() -> (r: Self)
        ensures
            r.payload_digest is None,
            r.identified_payload_type is None,
    {
        PayloadHeaders { payload_digest: None, identified_payload_type: None }
    }
}

impl Default for PayloadHeaders {
    fn default() -> (r: Self)
        ensures
            r.payload_digest is None,
            r.identified_payload_type is None,
    {
        PayloadHeaders::none()
    }
}

/// The named fields every record carries, whatever its type.
///
/// `WARC-Type` comes from the record variant, and the version comes from the containing header.
/// The type parameter supplies extension truncation reasons.
#[derive(Clone, Debug, Eq, PartialEq)]
pub struct CoreHeaders<E: Extension = NoExtension> {
    /// `WARC-Record-ID`: this record's required identifier.
    pub record_id: Uri,
    /// `WARC-Date`: the required start time of the capture event.
    pub date: WarcDate,
    /// `Content-Length`: the declared length of the record's block.
    ///
    /// `None` lets the block supply its own length. A declared length must match the block when the
    /// record is rendered.
    pub content_length: Option<u64>,
    /// `WARC-Block-Digest`: `algorithm ":" value` over the whole of the record's block.
    ///
    /// Rendering adds a SHA-256 digest when this is `None`. Supported algorithms are validated;
    /// unsupported algorithms are preserved without validation.
    pub block_digest: Option<LabelledDigest>,
    /// `Content-Type`: the media type of the block itself.
    ///
    /// For an archived HTTP message, this describes the WARC block, not the enclosed HTTP entity.
    /// Every record with a nonempty block except a `continuation` should carry this field.
    pub content_type: Option<MediaType>,
    /// `WARC-Truncated`: why the block holds less than the resource that was captured.
    /// [`Record::content_length`](crate::record::Record::content_length) still reports the
    /// truncated length.
    pub truncated: Option<TruncatedType<E::TruncatedReasons>>,
    /// Fields claimed by neither the standard nor the extension.
    ///
    /// Their order and name spelling are preserved. Values are stored as unfolded UTF-8 text.
    pub unrecognized: Vec<(String, String)>,
}

/// The named fields describing a record's payload, as opposed to its block.
///
/// A payload may be part of the block, such as an HTTP message body, or content referenced by a
/// `revisit` record.
#[derive(Clone, Debug, Eq, PartialEq)]
pub struct PayloadHeaders {
    /// `WARC-Payload-Digest`: `algorithm ":" value` over the payload, which need not be
    /// present in this record's block. A segmented record records it in its first segment,
    /// where it covers the payload of the reassembled logical record.
    pub payload_digest: Option<LabelledDigest>,
    /// `WARC-Identified-Payload-Type`: the media type of the payload as determined by
    /// inspecting it, never by promoting a declared `Content-Type` out of the block.
    pub identified_payload_type: Option<MediaType>,
}

/// The header of a `warcinfo` record, which describes the records that follow it up to the
/// next `warcinfo` record or the end of the file.
///
/// It describes a file rather than a capture, so it has no target URI, no IP address, and no
/// association with either a `warcinfo` record or a capture event. It has no payload, so it
/// carries no payload fields either.
#[derive(Clone, Debug, Eq, PartialEq)]
pub struct WarcinfoHeader<E: Extension = NoExtension> {
    /// The WARC version declared by this record.
    pub version: WarcVersion,
    /// The fields every record carries.
    pub core: CoreHeaders<E>,
    /// `WARC-Filename`: the name of the file holding this record. Permitted on no other
    /// record type.
    pub filename: Option<Text>,
    /// Whether `WARC-Segment-Number` is present with the value `1`, marking this record as
    /// the first segment of a series continued by `continuation` records.
    ///
    /// No other value is permitted on a record that is not itself a `continuation`.
    pub segment_origin: bool,
    /// The fields the extension adds to a `warcinfo` record.
    pub other: E::WarcinfoFields,
}

/// The header of a `response` record, which holds a complete scheme-specific response
/// including protocol information. For `http` and `https` that is the full response message
/// with its headers.
#[derive(Clone, Debug, Eq, PartialEq)]
pub struct ResponseHeader<E: Extension = NoExtension> {
    /// The WARC version declared by this record.
    pub version: WarcVersion,
    /// The fields every record carries.
    pub core: CoreHeaders<E>,
    /// The fields describing the payload, which for an HTTP response is its entity-body.
    pub payload: PayloadHeaders,
    /// `WARC-Target-URI`: the URI whose capture produced this record. Mandatory.
    pub target_uri: Uri,
    /// `WARC-Warcinfo-ID`: the `warcinfo` record describing this one, overriding whichever
    /// `warcinfo` record precedes it in the file.
    pub warcinfo_id: Option<Uri>,
    /// `WARC-IP-Address`: the address the response was received from.
    pub ip_address: Option<IpAddress>,
    /// `WARC-Concurrent-To`: the records produced by the same capture event, typically the
    /// matching `request`. The one field the standard allows to repeat.
    pub concurrent_to: Vec<Uri>,
    /// Whether `WARC-Segment-Number` is present with the value `1`, marking this record as
    /// the first segment of a series continued by `continuation` records.
    pub segment_origin: bool,
    /// The fields the extension adds to a `response` record.
    pub other: E::ResponseFields,
}

/// The header of a `resource` record, which holds a resource without the protocol information
/// a `response` would carry. Its payload is its block.
#[derive(Clone, Debug, Eq, PartialEq)]
pub struct ResourceHeader<E: Extension = NoExtension> {
    /// The WARC version declared by this record.
    pub version: WarcVersion,
    /// The fields every record carries.
    pub core: CoreHeaders<E>,
    /// The fields describing the payload, which for a `resource` is the block itself.
    pub payload: PayloadHeaders,
    /// `WARC-Target-URI`: the URI whose capture produced this record. Mandatory.
    pub target_uri: Uri,
    /// `WARC-Warcinfo-ID`: the `warcinfo` record describing this one.
    pub warcinfo_id: Option<Uri>,
    /// `WARC-IP-Address`: the address the resource was retrieved from.
    pub ip_address: Option<IpAddress>,
    /// `WARC-Concurrent-To`: the records produced by the same capture event.
    pub concurrent_to: Vec<Uri>,
    /// Whether `WARC-Segment-Number` is present with the value `1`, marking this record as
    /// the first segment of a series continued by `continuation` records.
    pub segment_origin: bool,
    /// The fields the extension adds to a `resource` record.
    pub other: E::ResourceFields,
}

/// The header of a `request` record, which holds a complete scheme-specific request including
/// protocol information. For `http` and `https` that is the full request message with its
/// headers.
#[derive(Clone, Debug, Eq, PartialEq)]
pub struct RequestHeader<E: Extension = NoExtension> {
    /// The WARC version declared by this record.
    pub version: WarcVersion,
    /// The fields every record carries.
    pub core: CoreHeaders<E>,
    /// The fields describing the payload, which for an HTTP request is its entity-body.
    pub payload: PayloadHeaders,
    /// `WARC-Target-URI`: the URI this request was directed at. Mandatory.
    pub target_uri: Uri,
    /// `WARC-Warcinfo-ID`: the `warcinfo` record describing this one.
    pub warcinfo_id: Option<Uri>,
    /// `WARC-IP-Address`: the address the request was directed to.
    pub ip_address: Option<IpAddress>,
    /// `WARC-Concurrent-To`: the records produced by the same capture event, typically the
    /// matching `response`.
    pub concurrent_to: Vec<Uri>,
    /// Whether `WARC-Segment-Number` is present with the value `1`, marking this record as
    /// the first segment of a series continued by `continuation` records.
    pub segment_origin: bool,
    /// The fields the extension adds to a `request` record.
    pub other: E::RequestFields,
}

/// The header of a `metadata` record, which describes or accompanies another record in a way
/// no other record type covers.
///
/// It has no payload, so it carries no payload fields, and its target URI is optional: a
/// metadata record describes a record rather than a capture, and names what it describes with
/// `refers_to`.
#[derive(Clone, Debug, Eq, PartialEq)]
pub struct MetadataHeader<E: Extension = NoExtension> {
    /// The WARC version declared by this record.
    pub version: WarcVersion,
    /// The fields every record carries.
    pub core: CoreHeaders<E>,
    /// `WARC-Target-URI`: a copy of the target URI of the record this one describes.
    /// Optional here, unlike on the record types that describe a capture directly.
    pub target_uri: Option<Uri>,
    /// `WARC-Warcinfo-ID`: the `warcinfo` record describing this one.
    pub warcinfo_id: Option<Uri>,
    /// `WARC-IP-Address`: the address the described material was retrieved from.
    pub ip_address: Option<IpAddress>,
    /// `WARC-Concurrent-To`: the records produced by the same capture event.
    pub concurrent_to: Vec<Uri>,
    /// `WARC-Refers-To`: the record this one describes, which may be of any type,
    /// `metadata` included.
    pub refers_to: Option<Uri>,
    /// Whether `WARC-Segment-Number` is present with the value `1`, marking this record as
    /// the first segment of a series continued by `continuation` records.
    pub segment_origin: bool,
    /// The fields the extension adds to a `metadata` record.
    pub other: E::MetadataFields,
}

/// The header of a `revisit` record, which stands in for a `response` or `resource` whose
/// content was found to duplicate content already archived.
#[derive(Clone, Debug, Eq, PartialEq)]
pub struct RevisitHeader<E: Extension = NoExtension> {
    /// The WARC version declared by this record.
    pub version: WarcVersion,
    /// The fields every record carries.
    pub core: CoreHeaders<E>,
    /// The fields describing the unchanged original payload. The
    /// [`RevisitProfile::IdenticalPayloadDigest`] profile requires its digest.
    pub payload: PayloadHeaders,
    /// `WARC-Target-URI`: the URI this retrieval was directed at. Mandatory.
    pub target_uri: Uri,
    /// `WARC-Warcinfo-ID`: the `warcinfo` record describing this one.
    pub warcinfo_id: Option<Uri>,
    /// `WARC-Profile`: why the revisit was created and how it is interpreted. Mandatory on a
    /// `revisit` and defined for no other record type.
    pub profile: RevisitProfile,
    /// `WARC-IP-Address`: the address the revisited resource was retrieved from.
    pub ip_address: Option<IpAddress>,
    /// `WARC-Concurrent-To`: the records produced by the same capture event.
    pub concurrent_to: Vec<Uri>,
    /// `WARC-Refers-To`: the earlier record holding the content this one duplicates. Recommended
    /// to identify the referenced record unambiguously.
    pub refers_to: Option<Uri>,
    /// `WARC-Refers-To-Target-URI`: the target URI of the record this one revisits, which
    /// need not equal `target_uri`. Named by WARC 1.1; permitted on no other record type.
    pub refers_to_target_uri: Option<Uri>,
    /// `WARC-Refers-To-Date`: the date of the record this one revisits. Named by WARC 1.1;
    /// permitted on no other record type.
    pub refers_to_date: Option<WarcDate>,
    /// Whether `WARC-Segment-Number` is present with the value `1`, marking this record as
    /// the first segment of a series continued by `continuation` records.
    pub segment_origin: bool,
    /// The fields the extension adds to a `revisit` record.
    pub other: E::RevisitFields,
}

/// The header of a `conversion` record, which holds an alternative version of another
/// record's content produced by an archival process. Its payload is its block.
///
/// It is the product of a transformation rather than of a capture, so it carries neither an
/// IP address nor an association with a capture event.
#[derive(Clone, Debug, Eq, PartialEq)]
pub struct ConversionHeader<E: Extension = NoExtension> {
    /// The WARC version declared by this record.
    pub version: WarcVersion,
    /// The fields every record carries.
    pub core: CoreHeaders<E>,
    /// The fields describing the payload, which for a `conversion` is the block itself.
    pub payload: PayloadHeaders,
    /// `WARC-Target-URI`: a copy of the target URI of the record that was converted.
    /// Mandatory.
    pub target_uri: Uri,
    /// `WARC-Warcinfo-ID`: the `warcinfo` record describing this one.
    pub warcinfo_id: Option<Uri>,
    /// `WARC-Refers-To`: the record whose content was converted. Recommended wherever it
    /// is practical to record it.
    pub refers_to: Option<Uri>,
    /// Whether `WARC-Segment-Number` is present with the value `1`, marking this record as
    /// the first segment of a series continued by `continuation` records.
    pub segment_origin: bool,
    /// The fields the extension adds to a `conversion` record.
    pub other: E::ConversionFields,
}

/// The position of a `continuation` record in its series.
///
/// Under clause 5.20 of the WARC 1.1 standard a segmented record's series is numbered from the
/// origin record's `1`, so a `continuation` is numbered from `2`: the record numbered `1` is the
/// origin rather than a continuation of it. This type holds only numbers a `continuation` can
/// carry, which is what keeps one that cannot be read back from being written.
#[derive(Clone, Copy, Debug, Hash, Eq, Ord, PartialEq, PartialOrd)]
pub struct SegmentNumber {
    number: u64,
}

impl View for SegmentNumber {
    type V = nat;

    closed spec fn view(&self) -> nat {
        self.number as nat
    }
}

impl SegmentNumber {
    #[verifier::type_invariant]
    spec fn well_formed(self) -> bool {
        self.number > 1
    }

    /// The position of a segment, or `None` for a number below `2`.
    pub fn new(number: u64) -> (r: Option<Self>)
        ensures
            match r {
                Some(position) => number > 1 && position@ == number,
                None => number <= 1,
            },
    {
        if number > 1 {
            Some(SegmentNumber { number })
        } else {
            None
        }
    }

    /// The position as a number.
    pub fn get(self) -> (r: u64)
        ensures
            r == self@,
            r > 1,
    {
        proof {
            use_type_invariant(&self);
        }
        self.number
    }
}

/// The header of a `continuation` record, which holds a later segment of a block too large
/// for one file.
///
/// Its block is appended to those of the earlier segments to rebuild the logical record, so
/// it describes no capture of its own: it carries no IP address, no association with a
/// capture event, and no `WARC-Refers-To`. The standard recommends against the remaining
/// optional fields here as well, apart from a `WARC-Block-Digest` over this segment's own
/// block and, on the last segment of a series, `WARC-Segment-Total-Length` and
/// `WARC-Truncated`. It recommends rather than forbids, so the rest are admitted here, and a
/// builder leaves every one of them empty.
#[derive(Clone, Debug, Eq, PartialEq)]
pub struct ContinuationHeader<E: Extension = NoExtension> {
    /// The WARC version declared by this record.
    pub version: WarcVersion,
    /// The fields every record carries.
    pub core: CoreHeaders<E>,
    /// The fields describing the payload of the logical record this segment continues.
    pub payload: PayloadHeaders,
    /// `WARC-Target-URI`: the target URI of the logical record, identical across every
    /// segment of the series. Mandatory.
    pub target_uri: Uri,
    /// `WARC-Warcinfo-ID`: the `warcinfo` record describing this one.
    pub warcinfo_id: Option<Uri>,
    /// `WARC-Segment-Number`: this segment's position in the series, counting from the
    /// origin record's `1`. Mandatory on a `continuation`.
    pub segment_number: SegmentNumber,
    /// `WARC-Segment-Origin-ID`: the record holding the first segment of the series.
    /// Mandatory on a `continuation` and permitted on no other record type.
    pub segment_origin_id: Uri,
    /// `WARC-Segment-Total-Length`: the total length of every segment's block once
    /// reassembled. Present exactly on the last `continuation` of a series, so its
    /// presence is what marks the series as complete.
    pub segment_total_length: Option<u64>,
    /// The fields the extension adds to a `continuation` record.
    pub other: E::ContinuationFields,
}

/// The header of a record whose `WARC-Type` the extension defines.
///
/// It carries the fields every record has and the type itself. The standard does not constrain
/// other fields on extension record types, so they remain in
/// [`core.unrecognized`](CoreHeaders::unrecognized) rather than being lifted into typed fields.
#[derive(Clone, Debug, Eq, PartialEq)]
pub struct OtherHeader<E: Extension = NoExtension> {
    /// The WARC version declared by this record.
    pub version: WarcVersion,
    /// The fields every record carries.
    pub core: CoreHeaders<E>,
    /// Whether `WARC-Segment-Number` is present with the value `1`. Segmentation applies
    /// to any record type but `continuation`, extension types included.
    pub segment_origin: bool,
    /// The extension's record type, which names itself and nothing else. Its untyped fields remain
    /// in [`core.unrecognized`](CoreHeaders::unrecognized).
    pub extension: E::Types,
}

/// A profile is written with the URI that named it, whether or not the standard defines it.
pub proof fn lemma_profile_keeps_its_uri(uri: Seq<char>)
    ensures
        profile_uri(profile_named(uri)) == uri,
{
}

} // verus!
