//! Digest calculation and validation for record blocks and payloads.

use crate::octets::equal;
use crate::record::error::{BlockError, BlockFault};
use crate::record::extension::Extension;
use crate::record::header::PayloadHeaders;
use crate::record::lift::shown;
use crate::record::payload::{self, octets_in};
use crate::record::Record;
use crate::value::digest::{
    digest_octets, is_readable, labelled_from, labelled_in, lemma_known_digest_decodes,
    lemma_known_digest_is_readable, length_of, Algorithm, Labelled,
};
use crate::value::hash::digest_of;
use crate::value::{DigestEncoding, DigestFormat, LabelledDigest};
use std::borrow::Cow;
use vstd::prelude::*;

verus! {

/// How a digest is written: its algorithm and its encoding.
pub type Format = (Algorithm, DigestEncoding);

/// How an optional format writes a digest.
pub open spec fn format_of(format: Option<DigestFormat>) -> Option<Format> {
    match format {
        Some(format) => Some((format.algorithm@, format.encoding)),
        None => None,
    }
}

/// Whether digests in an optional format are computed here.
pub open spec fn is_computed(format: Option<Format>) -> bool {
    format matches Some((algorithm, _)) ==> !(algorithm is Other)
}

/// The digest of a content in a format.
pub open spec fn computed(format: Format, content: Seq<u8>) -> Labelled {
    labelled_in(format.0, format.1, digest_of(format.0, content)->0)
}

/// What a declared digest is to a content.
pub ghost enum Comparison {
    /// It is the content's digest, or its algorithm is not computed here.
    Accepted,
    /// The value is invalid for its declared algorithm.
    Malformed,
    /// The computed digest differs from the declared value.
    Mismatch(Labelled),
}

/// What a declared digest is to a content.
pub open spec fn comparison(declared: Labelled, content: Seq<u8>) -> Comparison {
    match digest_of(declared.algorithm, content) {
        None => Comparison::Accepted,
        Some(digest) => match digest_octets(declared) {
            None => Comparison::Malformed,
            Some(value) => if value != digest {
                Comparison::Mismatch(labelled_from(declared.algorithm, digest))
            } else {
                Comparison::Accepted
            },
        },
    }
}

/// A digest that is computed of a content, in any encoding, is accepted as that content's, and can
/// be read.
proof fn lemma_added_digest_is_accepted(format: Format, content: Seq<u8>)
    requires
        digest_of(format.0, content) matches Some(digest) && length_of(format.0) == Some(
            digest.len(),
        ),
    ensures
        comparison(computed(format, content), content) is Accepted,
        is_readable(computed(format, content)),
{
    lemma_known_digest_decodes(format.0, format.1, digest_of(format.0, content)->0);
    lemma_known_digest_is_readable(format.0, format.1, digest_of(format.0, content)->0);
}

/// What keeps a declared block digest from being that of a block.
pub open spec fn block_digest_fault(declared: Labelled, block: Seq<u8>) -> Option<BlockFault> {
    match comparison(declared, block) {
        Comparison::Accepted => None,
        Comparison::Malformed => Some(BlockFault::MalformedBlockDigest(declared)),
        Comparison::Mismatch(actual) => Some(BlockFault::BlockDigestMismatch(declared, actual)),
    }
}

/// What keeps a declared payload digest from being that of a payload.
pub open spec fn payload_digest_fault(declared: Labelled, content: Seq<u8>) -> Option<BlockFault> {
    match comparison(declared, content) {
        Comparison::Accepted => None,
        Comparison::Malformed => Some(BlockFault::MalformedPayloadDigest(declared)),
        Comparison::Mismatch(actual) => Some(BlockFault::PayloadDigestMismatch(declared, actual)),
    }
}

/// The block digest to write: the declared one, where it is the block's, or an added one.
pub open spec fn block_digest(
    declared: Option<Labelled>,
    block: Seq<u8>,
    added: Option<Format>,
) -> Result<Option<Labelled>, BlockFault> {
    match declared {
        Some(declared) => match block_digest_fault(declared, block) {
            Some(fault) => Err(fault),
            None => Ok(Some(declared)),
        },
        None => match added {
            Some(format) => Ok(Some(computed(format, block))),
            None => Ok(None),
        },
    }
}

/// Whether a record is complete: neither a segment of a series nor truncated.
pub open spec fn is_complete<E: Extension>(record: Record<E>) -> bool {
    record.segment() is None && record.core_headers().truncated is None
}

/// The payload digest that a record declares.
pub open spec fn declared_payload_digest<E: Extension>(record: Record<E>) -> Option<Labelled> {
    match record.payload_headers() {
        Some(headers) => shown(headers.payload_digest),
        None => None,
    }
}

/// The payload digest to add to a record, or what keeps the declared one from being its payload's.
///
/// One is added only where the record is complete, its payload can be told, and it declares none.
/// A malformed HTTP message is a fault only where a payload digest is declared.
pub open spec fn payload_digest<E: Extension>(
    record: Record<E>,
    added: Option<Format>,
) -> Result<Option<Labelled>, BlockFault> {
    if record.payload_headers() is None || !is_complete(record) {
        Ok(None)
    } else {
        let declared = declared_payload_digest(record);
        match record.payload_content() {
            Ok(None) => Ok(None),
            Err(fault) => if fault is UnsupportedTransferCoding || declared is None {
                Ok(None)
            } else {
                Err(BlockFault::Payload(fault))
            },
            Ok(Some(content)) => match declared {
                Some(declared) => match payload_digest_fault(declared, content) {
                    Some(fault) => Err(fault),
                    None => Ok(None),
                },
                None => match added {
                    Some(format) => Ok(Some(computed(format, content))),
                    None => Ok(None),
                },
            },
        }
    }
}

/// Compute a digest in the given format.
///
/// Whichever encoding it is in, the digest passes the check of a declared one against the content.
pub fn added_digest(format: &DigestFormat, content: &[u8]) -> (r: LabelledDigest)
    requires
        !(format.algorithm@ is Other),
    ensures
        r@ == computed((format.algorithm@, format.encoding), content@),
        comparison(r@, content@) is Accepted,
        is_readable(r@),
{
    let digest = match format.algorithm.digest(content) {
        Some(digest) => digest,
        None => Vec::new(),
    };
    proof {
        lemma_added_digest_is_accepted((format.algorithm@, format.encoding), content@);
    }
    LabelledDigest::from_digest_in(format.algorithm.clone(), format.encoding, digest.as_slice())
}

/// A digest validation failure, independent of whether it applies to a block or payload.
enum Failure {
    Malformed,
    Mismatch(LabelledDigest),
}

/// Compare a declared digest with the supplied content.
///
/// Digests by an algorithm that is not computed here are not checked.
fn compare_digest(declared: &LabelledDigest, content: &[u8]) -> (r: Option<Failure>)
    ensures
        match r {
            None => comparison(declared@, content@) is Accepted,
            Some(Failure::Malformed) => comparison(declared@, content@) is Malformed,
            Some(Failure::Mismatch(actual)) => comparison(declared@, content@)
                == Comparison::Mismatch(actual@),
        },
{
    let algorithm = declared.algorithm();
    match algorithm.digest(content) {
        None => None,
        Some(digest) => match declared.decoded() {
            None => Some(Failure::Malformed),
            Some(value) => if equal(value.as_slice(), digest.as_slice()) {
                None
            } else {
                Some(
                    Failure::Mismatch(
                        LabelledDigest::from_digest(algorithm.clone(), digest.as_slice()),
                    ),
                )
            },
        },
    }
}

/// Validate a declared block digest.
pub fn verify_block_digest(declared: &LabelledDigest, block: &[u8]) -> (r: Result<(), BlockError>)
    ensures
        match r {
            Ok(_) => block_digest_fault(declared@, block@) is None,
            Err(error) => block_digest_fault(declared@, block@) == Some(error@),
        },
{
    match compare_digest(declared, block) {
        None => Ok(()),
        Some(Failure::Malformed) => Err(
            BlockError::MalformedBlockDigest(Box::new(declared.clone())),
        ),
        Some(Failure::Mismatch(actual)) => Err(
            BlockError::BlockDigestMismatch {
                declared: Box::new(declared.clone()),
                actual: Box::new(actual),
            },
        ),
    }
}

/// Return the block digest to render, validating a declared digest if present.
///
/// If absent, compute one in `added` when provided.
pub fn check_block_digest(
    declared: Option<LabelledDigest>,
    block: &[u8],
    added: Option<&DigestFormat>,
) -> (r: Result<Option<LabelledDigest>, BlockError>)
    requires
        added matches Some(format) ==> !(format.algorithm@ is Other),
    ensures
        ({
            let format = match added {
                Some(format) => Some((format.algorithm@, format.encoding)),
                None => None,
            };
            match r {
                Ok(digest) => block_digest(shown(declared), block@, format) == Ok::<
                    Option<Labelled>,
                    BlockFault,
                >(shown(digest)),
                Err(error) => block_digest(shown(declared), block@, format) == Err::<
                    Option<Labelled>,
                    BlockFault,
                >(error@),
            }
        }),
{
    match declared {
        None => match added {
            Some(format) => Ok(Some(added_digest(format, block))),
            None => Ok(None),
        },
        Some(declared) => match verify_block_digest(&declared, block) {
            Ok(_) => Ok(Some(declared)),
            Err(error) => Err(error),
        },
    }
}

/// Validate a declared payload digest.
pub fn verify_payload_digest(declared: &LabelledDigest, content: &[u8]) -> (r: Result<
    (),
    BlockError,
>)
    ensures
        match r {
            Ok(_) => payload_digest_fault(declared@, content@) is None,
            Err(error) => payload_digest_fault(declared@, content@) == Some(error@),
        },
{
    match compare_digest(declared, content) {
        None => Ok(()),
        Some(Failure::Malformed) => Err(
            BlockError::MalformedPayloadDigest(Box::new(declared.clone())),
        ),
        Some(Failure::Mismatch(actual)) => Err(
            BlockError::PayloadDigestMismatch {
                declared: Box::new(declared.clone()),
                actual: Box::new(actual),
            },
        ),
    }
}

/// The octets of a payload.
fn cow_octets<'a>(content: &'a Cow<'_, [u8]>) -> (r: &'a [u8])
    ensures
        r@ == octets_in(*content),
{
    match content {
        Cow::Borrowed(bytes) => bytes,
        Cow::Owned(bytes) => bytes.as_slice(),
    }
}

/// Validate a declared payload digest or compute one to add during rendering.
///
/// Returns a newly computed digest only when the record needs one and `added` supplies a
/// format. A valid declared digest, a segment or truncated record, an undetermined payload, or
/// a `None` format yields `None`. A malformed HTTP message is an error only when a payload
/// digest is declared.
pub fn check_payload_digest<E: Extension>(
    record: &Record<E>,
    added: Option<&DigestFormat>,
) -> (r: Result<Option<LabelledDigest>, BlockError>)
    requires
        added matches Some(format) ==> !(format.algorithm@ is Other),
    ensures
        ({
            let format = match added {
                Some(format) => Some((format.algorithm@, format.encoding)),
                None => None,
            };
            match r {
                Ok(digest) => payload_digest(*record, format) == Ok::<
                    Option<Labelled>,
                    BlockFault,
                >(shown(digest)),
                Err(error) => payload_digest(*record, format) == Err::<
                    Option<Labelled>,
                    BlockFault,
                >(error@),
            }
        }),
{
    let declared = match record.payload() {
        Some(headers) => headers.payload_digest.as_ref(),
        None => {
            return Ok(None);
        },
    };
    if record.segment_number().is_some() || record.core_fields().truncated.is_some() {
        return Ok(None);
    }
    let content = match record.payload_bytes() {
        Ok(Some(content)) => content,
        Ok(None) => {
            return Ok(None);
        },
        Err(payload::Error::UnsupportedTransferCoding(_)) => {
            return Ok(None);
        },
        Err(error) => {
            return if declared.is_some() {
                Err(BlockError::Payload(error))
            } else {
                Ok(None)
            };
        },
    };
    match declared {
        Some(declared) => match verify_payload_digest(declared, cow_octets(&content)) {
            Ok(_) => Ok(None),
            Err(error) => Err(error),
        },
        None => match added {
            Some(format) => Ok(Some(added_digest(format, cow_octets(&content)))),
            None => Ok(None),
        },
    }
}

impl<E: Extension> Record<E> {
    /// Check the declared block digest and return its failure, if any.
    ///
    /// Returns `None` for a valid digest, no digest, or an unsupported algorithm. The current block
    /// is digested on every call.
    pub fn incorrect_block_digest(&self) -> (r: Option<BlockError>)
        ensures
            shown(r) == (match self.core_headers().block_digest {
                Some(declared) => block_digest_fault(declared@, self.block()),
                None => None,
            }),
    {
        match &self.core_fields().block_digest {
            Some(declared) => {
                let block = self.body_bytes();
                match verify_block_digest(declared, cow_octets(&block)) {
                    Ok(_) => None,
                    Err(error) => Some(error),
                }
            },
            None => None,
        }
    }

    /// Check the declared payload digest and return its failure, if any.
    ///
    /// Returns `None` for a segment or truncated record, for a payload
    /// [`payload_bytes`](Self::payload_bytes) does not determine, and when no supported digest can
    /// be checked. A malformed HTTP message is reported where a digest is declared over it. The
    /// payload is recomputed on every call.
    pub fn incorrect_payload_digest(&self) -> (r: Option<BlockError>)
        ensures
            match r {
                Some(error) => payload_digest(*self, None) == Err::<Option<Labelled>, BlockFault>(
                    error@,
                ),
                None => payload_digest(*self, None) is Ok,
            },
    {
        match check_payload_digest(self, None) {
            Ok(_) => None,
            Err(error) => Some(error),
        }
    }
}

/// Add a block digest unless the record already declares one.
pub fn add_block_digest<E: Extension>(record: Record<E>, format: &DigestFormat) -> (r: Record<E>)
    requires
        !(format.algorithm@ is Other),
    ensures
        match record.core_headers().block_digest {
            Some(_) => r == record,
            None => exists|digest: LabelledDigest|
                digest@ == computed((format.algorithm@, format.encoding), record.block())
                    && is_readable(digest@) && r == #[trigger] with_block_digest(record, digest),
        },
{
    let mut record = record;
    if record.core_fields().block_digest.is_some() {
        return record;
    }
    let ghost before = record;
    let block = record.body_bytes();
    let digest = added_digest(format, cow_octets(&block));
    let ghost given = digest;
    record.core_mut().block_digest = Some(digest);
    assert(record == with_block_digest(before, given));
    record
}

/// The same record with a block digest.
pub open spec fn with_block_digest<E: Extension>(
    record: Record<E>,
    digest: LabelledDigest,
) -> Record<E> {
    record.with_core(
        crate::record::header::CoreHeaders {
            block_digest: Some(digest),
            ..record.core_headers()
        },
    )
}

/// The same record with a payload digest.
pub open spec fn with_payload_digest<E: Extension>(
    record: Record<E>,
    digest: LabelledDigest,
) -> Record<E> {
    record.with_payload(
        PayloadHeaders {
            payload_digest: Some(digest),
            ..record.payload_headers()->0
        },
    )
}

/// Whether a payload digest is added to a record: it is complete, can carry one, declares none,
/// and its payload can be told.
pub open spec fn takes_added_payload_digest<E: Extension>(record: Record<E>) -> bool {
    &&& record.payload_headers() is Some
    &&& declared_payload_digest(record) is None
    &&& is_complete(record)
    &&& record.payload_content() matches Ok(Some(_))
}

/// Add a payload digest when the record is eligible and declares none.
///
/// Records that would not receive a payload digest during rendering are unchanged.
pub fn add_payload_digest<E: Extension>(record: Record<E>, format: &DigestFormat) -> (r: Record<E>)
    requires
        !(format.algorithm@ is Other),
    ensures
        if takes_added_payload_digest(record) {
            exists|digest: LabelledDigest|
                digest@ == computed(
                    (format.algorithm@, format.encoding),
                    record.payload_content()->Ok_0->0,
                ) && is_readable(digest@) && r == #[trigger] with_payload_digest(record, digest)
        } else {
            r == record
        },
{
    let mut record = record;
    let ghost before = record;
    let bare = match record.payload() {
        Some(headers) => headers.payload_digest.is_none(),
        None => false,
    };
    if !bare || record.segment_number().is_some() || record.core_fields().truncated.is_some() {
        return record;
    }
    let digest = match record.payload_bytes() {
        Ok(Some(content)) => added_digest(format, cow_octets(&content)),
        _ => {
            return record;
        },
    };
    let ghost given = digest;
    match record.payload_mut() {
        Some(headers) => {
            headers.payload_digest = Some(digest);
        },
        None => {},
    }
    assert(record == with_payload_digest(before, given));
    record
}

} // verus!
