//! The ways a record can break the rules of its type and version.

use crate::parse::untyped::name::Field;
use crate::record::{fields, payload};
use crate::value::digest::{Algorithm, Labelled};
use crate::value::{uri, DigestAlgorithm, LabelledDigest};
use crate::version::WarcVersion;
use vstd::prelude::*;

verus! {

/// Errors in a record's content block or its relationship to the header.
///
/// [`Error::Block`] wraps these failures while reading, and [`RenderError::Block`] wraps them while
/// rendering. Digest errors are reported during rendering or by the digest inspection methods on
/// [`Record`](crate::record::Record).
#[derive(Clone, Debug, Eq, PartialEq)]
pub enum BlockError {
    /// The record declares a `Content-Length` that is not the length of the block it carries.
    ContentLengthMismatch {
        /// The length the record declares.
        declared: u64,
        /// The length of the block it carries.
        actual: u64,
    },
    /// The block digest is invalid for its declared algorithm, which this crate computes.
    MalformedBlockDigest(Box<LabelledDigest>),
    /// The record's block digest does not match the block it carries.
    BlockDigestMismatch {
        /// The digest the record declares.
        declared: Box<LabelledDigest>,
        /// The digest of the block it carries.
        actual: Box<LabelledDigest>,
    },
    /// The payload digest is invalid for its declared algorithm, which this crate computes.
    MalformedPayloadDigest(Box<LabelledDigest>),
    /// The record's payload digest does not match the payload its block carries.
    PayloadDigestMismatch {
        /// The digest the record declares.
        declared: Box<LabelledDigest>,
        /// The digest of the payload it carries.
        actual: Box<LabelledDigest>,
    },
    /// The declared payload digest cannot be checked because the HTTP message is malformed.
    Payload(payload::Error),
    /// A nonempty identical-payload-digest revisit block lacks `WARC-Truncated: length`.
    UndeclaredRevisitTruncation(u64),
    /// The block could not be read as the `application/warc-fields` its record's `Content-Type`
    /// declares.
    Fields(fields::Error),
}

/// What a [`BlockError`] says.
pub ghost enum BlockFault {
    /// The declared and the actual length differ.
    ContentLengthMismatch(int, int),
    /// The block digest is malformed.
    MalformedBlockDigest(Labelled),
    /// The declared and the actual block digest differ.
    BlockDigestMismatch(Labelled, Labelled),
    /// The payload digest is malformed.
    MalformedPayloadDigest(Labelled),
    /// The declared and the actual payload digest differ.
    PayloadDigestMismatch(Labelled, Labelled),
    /// The payload cannot be read.
    Payload(payload::Fault),
    /// A revisit's block is not declared truncated.
    UndeclaredRevisitTruncation(int),
    /// The block is not named fields.
    Fields(fields::Fault),
}

impl View for BlockError {
    type V = BlockFault;

    open spec fn view(&self) -> BlockFault {
        match self {
            BlockError::ContentLengthMismatch { declared, actual } => {
                BlockFault::ContentLengthMismatch(*declared as int, *actual as int)
            },
            BlockError::MalformedBlockDigest(digest) => BlockFault::MalformedBlockDigest(digest@),
            BlockError::BlockDigestMismatch { declared, actual } => {
                BlockFault::BlockDigestMismatch(declared@, actual@)
            },
            BlockError::MalformedPayloadDigest(digest) => BlockFault::MalformedPayloadDigest(
                digest@,
            ),
            BlockError::PayloadDigestMismatch { declared, actual } => {
                BlockFault::PayloadDigestMismatch(declared@, actual@)
            },
            BlockError::Payload(error) => BlockFault::Payload(error@),
            BlockError::UndeclaredRevisitTruncation(length) => {
                BlockFault::UndeclaredRevisitTruncation(*length as int)
            },
            BlockError::Fields(error) => BlockFault::Fields(error@),
        }
    }
}

/// Semantic validation errors for a record's type and declared WARC version.
#[derive(Clone, Debug, Eq, PartialEq)]
pub enum Error {
    /// A field the standard makes mandatory for the record's type is missing.
    MissingField(Field),
    /// A field the standard names is present on a record type it is not permitted for.
    ForbiddenField {
        /// The standard record type carrying the field.
        record_type: &'static str,
        /// The field the standard does not permit that type.
        field: Field,
    },
    /// A field the standard names is present on a record declaring a version that does not define
    /// it.
    FieldNotInVersion {
        /// The field the declared version does not define.
        field: Field,
        /// The version the record declares.
        version: WarcVersion,
    },
    /// A nonrepeatable standard field is written more than once.
    ///
    /// `WARC-Concurrent-To` is the only repeatable standard field.
    RepeatedField(Field),
    /// A field's value is well-formed under its field's grammar but says something the standard
    /// does not permit, such as a `continuation` numbered below `2` or a WARC 1.0 date written at a
    /// precision only WARC 1.1 defines.
    MalformedField {
        /// The field whose value the standard does not permit.
        field: Field,
        /// The value as it was read.
        value: String,
    },
    /// A value given to a builder for a URI-valued field is not a URI.
    NotAUri {
        /// The field the value was given for.
        field: Field,
        /// The RFC 3986 violation.
        source: uri::Error,
    },
    /// An unrecognized field has a value that cannot be preserved as UTF-8 text.
    NonUtf8Field(String),
    /// `WARC-Type` names a type defined by neither the standard nor the extension.
    UnknownRecordType(String),
    /// The extension attempts to redefine a standard record type.
    RedefinedRecordType(String),
    /// The extension could not parse the fields it claims.
    Extension(String),
    /// The header block does not go with the block it was given.
    Block(BlockError),
}

/// What an [`Error`] says.
pub ghost enum Fault {
    /// A mandatory field is missing.
    MissingField(Field),
    /// A field is not permitted on the record type.
    ForbiddenField(Seq<char>, Field),
    /// A field is not defined in the version.
    FieldNotInVersion(Field, WarcVersion),
    /// A field is repeated.
    RepeatedField(Field),
    /// The value of a field is not permitted.
    MalformedField(Field, Seq<char>),
    /// The value for a field is not a URI.
    NotAUri(Field, Seq<char>),
    /// The value of a field is not UTF-8.
    NonUtf8Field(Seq<char>),
    /// The record type is unknown.
    UnknownRecordType(Seq<char>),
    /// The record type is the standard's.
    RedefinedRecordType(Seq<char>),
    /// The extension refuses.
    Extension(Seq<char>),
    /// The block does not go with the header.
    Block(BlockFault),
}

impl View for Error {
    type V = Fault;

    open spec fn view(&self) -> Fault {
        match self {
            Error::MissingField(field) => Fault::MissingField(*field),
            Error::ForbiddenField { record_type, field } => Fault::ForbiddenField(
                record_type@,
                *field,
            ),
            Error::FieldNotInVersion { field, version } => Fault::FieldNotInVersion(
                *field,
                *version,
            ),
            Error::RepeatedField(field) => Fault::RepeatedField(*field),
            Error::MalformedField { field, value } => Fault::MalformedField(*field, value@),
            Error::NotAUri { field, source } => Fault::NotAUri(*field, source.0@),
            Error::NonUtf8Field(name) => Fault::NonUtf8Field(name@),
            Error::UnknownRecordType(name) => Fault::UnknownRecordType(name@),
            Error::RedefinedRecordType(name) => Fault::RedefinedRecordType(name@),
            Error::Extension(reason) => Fault::Extension(reason@),
            Error::Block(error) => Fault::Block(error@),
        }
    }
}

/// The ways a semantic record can fail to render as a raw record.
///
/// These checks apply both to records assembled by hand and to records read from an archive and
/// then edited.
#[derive(Clone, Debug, Eq, PartialEq)]
pub enum RenderError {
    /// The record's declared version does not define a field it contains.
    FieldNotInVersion {
        /// The field the declared version does not define.
        field: Field,
        /// The version the record declares.
        version: WarcVersion,
    },
    /// The record's declared version has no spelling for a value the record carries.
    ValueNotInVersion {
        /// The field carrying the value.
        field: Field,
        /// The version the record declares.
        version: WarcVersion,
        /// The value, spelled as WARC 1.1 writes it.
        value: String,
    },
    /// A field carries a name or a value that cannot be written as a valid header line.
    UnwritableField {
        /// The field's name, as it was given.
        name: String,
        /// What about the field cannot be written.
        reason: String,
    },
    /// A standard field would be written more than once.
    ///
    /// Extension records may retain additional standard fields; rendering rejects nonrepeatable
    /// duplicates.
    RepeatedField(Field),
    /// A field the record's revisit profile requires is not present.
    MissingProfileField(Field),
    /// An extension or unrecognized field names a field the standard defines.
    ///
    /// Standard fields on standard record types must come from the typed header. An extension or
    /// unrecognized field cannot use a reserved name, even if the typed field is absent.
    ReservedField(Field),
    /// The record does not go with the block it carries.
    Block(BlockError),
    /// A digest was to be added with an algorithm this build does not enable.
    UnsupportedDigestAlgorithm(DigestAlgorithm),
}

/// What a [`RenderError`] says.
pub ghost enum RenderFault {
    /// A field is not defined in the version.
    FieldNotInVersion(Field, WarcVersion),
    /// A value has no spelling in the version.
    ValueNotInVersion(Field, WarcVersion, Seq<char>),
    /// A field cannot be written.
    UnwritableField(Seq<char>, Seq<char>),
    /// A field is repeated.
    RepeatedField(Field),
    /// A field that the profile requires is missing.
    MissingProfileField(Field),
    /// A field is the standard's.
    ReservedField(Field),
    /// The block does not go with the record.
    Block(BlockFault),
    /// The algorithm is not computed here.
    UnsupportedDigestAlgorithm(Algorithm),
}

impl View for RenderError {
    type V = RenderFault;

    open spec fn view(&self) -> RenderFault {
        match self {
            RenderError::FieldNotInVersion { field, version } => RenderFault::FieldNotInVersion(
                *field,
                *version,
            ),
            RenderError::ValueNotInVersion { field, version, value } => {
                RenderFault::ValueNotInVersion(*field, *version, value@)
            },
            RenderError::UnwritableField { name, reason } => RenderFault::UnwritableField(
                name@,
                reason@,
            ),
            RenderError::RepeatedField(field) => RenderFault::RepeatedField(*field),
            RenderError::MissingProfileField(field) => RenderFault::MissingProfileField(*field),
            RenderError::ReservedField(field) => RenderFault::ReservedField(*field),
            RenderError::Block(error) => RenderFault::Block(error@),
            RenderError::UnsupportedDigestAlgorithm(algorithm) => {
                RenderFault::UnsupportedDigestAlgorithm(algorithm@)
            },
        }
    }
}

} // verus!
