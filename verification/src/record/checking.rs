//! What of a record its payload is, which declared digests are refused, and which digests are
//! added.

use crate::octets::{
    lemma_ascii_octets_of, lemma_position_is, lemma_spells_word, octets, position,
    same_but_for_case, spells_word,
};
use crate::record::digest::{
    block_digest, block_digest_fault, comparison, payload_digest, Comparison, Format,
};
use crate::record::error::{BlockFault, RenderFault};
use crate::record::extension::Extension;
use crate::record::lift::shown;
use crate::record::payload::{body_of, Fault};
use crate::record::Record;
use crate::value::digest::{
    digest_octets, labelled_from, labelled_in, lemma_known_digest_decodes, Algorithm, Labelled,
};
use crate::value::hash::{md5_of, sha1_of, sha256_of};
use crate::value::media_type::Media;
use crate::value::uri::{is_uri, scheme_of};
use crate::value::DigestEncoding;
use vstd::prelude::*;

verus! {

/// Whether a URI names HTTP or HTTPS: one of the two words, in whichever case, and then a colon.
pub open spec fn names_http(uri: Seq<char>) -> bool {
    exists|scheme: Seq<u8>, rest: Seq<u8>|
        #![trigger scheme + rest]
        octets(uri) == scheme + rest && rest.len() > 0 && rest[0] == 0x3a && (spells_word(
            scheme,
            seq![0x68u8, 0x74, 0x74, 0x70],
        ) || spells_word(scheme, seq![0x68u8, 0x74, 0x74, 0x70, 0x73]))
}

/// Whether a media type is `application/http`, in whichever case and with whichever parameters.
pub open spec fn is_http_type(media: Media) -> bool {
    spells_word(octets(media.main_type), octets("application"@)) && spells_word(
        octets(media.subtype),
        octets("http"@),
    )
}

/// Whether a record that has a target holds an HTTP message: the target names HTTP, and its media
/// type is that of such messages or is not declared.
pub open spec fn holds_message<E: Extension>(record: Record<E>, target: Seq<char>) -> bool {
    names_http(target) && match record.core_headers().content_type {
        Some(media) => is_http_type(media@),
        None => true,
    }
}

proof fn lemma_names_http(uri: Seq<char>)
    requires
        is_uri(uri),
    ensures
        names_http(uri) == (same_but_for_case(scheme_of(octets(uri)), octets("http"@))
            || same_but_for_case(scheme_of(octets(uri)), octets("https"@))),
{
    let s = octets(uri);
    let plain = seq![0x68u8, 0x74, 0x74, 0x70];
    let secure = seq![0x68u8, 0x74, 0x74, 0x70, 0x73];
    reveal_strlit("http");
    reveal_strlit("https");
    lemma_ascii_octets_of("http"@);
    lemma_ascii_octets_of("https"@);
    assert(octets("http"@) =~= plain);
    assert(octets("https"@) =~= secure);
    crate::octets::lemma_position(s, 0x3a, 0);
    let colon = position(s, 0x3a, 0);
    let own = s.take(colon);
    assert(s =~= own + s.skip(colon));
    lemma_spells_word(own, plain);
    lemma_spells_word(own, secure);
    if names_http(uri) {
        let (scheme, rest) = choose|scheme: Seq<u8>, rest: Seq<u8>|
            #![trigger scheme + rest]
            s == scheme + rest && rest.len() > 0 && rest[0] == 0x3a && (spells_word(scheme, plain)
                || spells_word(scheme, secure));
        let n = scheme.len() as int;
        assert(s[n] == rest[0]);
        assert forall|i: int| 0 <= i < n implies #[trigger] s[i] != 0x3a by {
            assert(s[i] == scheme[i]);
            assert(scheme[i] != 0x3a);
        }
        lemma_position_is(s, 0x3a, 0, n);
        assert(s.take(n) =~= scheme);
    }
}

/// The payload of a record is its whole block in a `resource` or `conversion` record, and the
/// entity-body of its block in a `response` or `request` record that holds an HTTP message. No other
/// record has a payload that can be told.
pub proof fn lemma_payload_is_told<E: Extension>(record: Record<E>)
    requires
        record.target() matches Some(target) ==> is_uri(target),
    ensures
        record is Resource || record is Conversion ==> record.payload_content() == Ok::<
            Option<Seq<u8>>,
            Fault,
        >(Some(record.block())),
        (record is Response || record is Request) && record.target() is Some && holds_message(
            record,
            record.target()->0,
        ) ==> record.payload_content() == match body_of(record.block()) {
            Ok(content) => Ok::<Option<Seq<u8>>, Fault>(Some(content)),
            Err(fault) => Err(fault),
        },
        (record is Response || record is Request) && !(record.target() is Some && holds_message(
            record,
            record.target()->0,
        )) ==> record.payload_content() == Ok::<Option<Seq<u8>>, Fault>(None),
        record is Warcinfo || record is Metadata || record is Revisit || record is Continuation
            || record is Other ==> record.payload_content() == Ok::<Option<Seq<u8>>, Fault>(None),
{
    match record.target() {
        Some(target) => lemma_names_http(target),
        None => {},
    }
    match record.core_headers().content_type {
        Some(media) => {
            reveal_strlit("application");
            reveal_strlit("http");
            lemma_ascii_octets_of("application"@);
            lemma_ascii_octets_of("http"@);
            lemma_spells_word(octets(media@.main_type), octets("application"@));
            lemma_spells_word(octets(media@.subtype), octets("http"@));
        },
        None => {},
    }
}

/// The digest of a content by an algorithm that is computed here: MD5, SHA-1, or SHA-256.
pub open spec fn is_digest_by(algorithm: Algorithm, content: Seq<u8>, digest: Seq<u8>) -> bool {
    ||| algorithm is Md5 && digest == md5_of(content)
    ||| algorithm is Sha1 && digest == sha1_of(content)
    ||| algorithm is Sha256 && digest == sha256_of(content)
}

/// Whether a record holds all of its content: it is no segment, and it is not truncated.
pub open spec fn is_whole<E: Extension>(record: Record<E>) -> bool {
    &&& record.core_headers().truncated is None
    &&& match record {
        Record::Warcinfo { header, .. } => !header.segment_origin,
        Record::Response { header, .. } => !header.segment_origin,
        Record::Resource { header, .. } => !header.segment_origin,
        Record::Request { header, .. } => !header.segment_origin,
        Record::Metadata { header, .. } => !header.segment_origin,
        Record::Revisit { header, .. } => !header.segment_origin,
        Record::Conversion { header, .. } => !header.segment_origin,
        Record::Continuation { .. } => false,
        Record::Other { header, .. } => !header.segment_origin,
    }
}

/// The payload digest that a record of any type declares.
pub open spec fn payload_digest_declared<E: Extension>(record: Record<E>) -> Option<Labelled> {
    match record {
        Record::Response { header, .. } => shown(header.payload.payload_digest),
        Record::Resource { header, .. } => shown(header.payload.payload_digest),
        Record::Request { header, .. } => shown(header.payload.payload_digest),
        Record::Revisit { header, .. } => shown(header.payload.payload_digest),
        Record::Conversion { header, .. } => shown(header.payload.payload_digest),
        Record::Continuation { header, .. } => shown(header.payload.payload_digest),
        _ => None,
    }
}

/// A payload digest that a whole record declares is checked against its payload, whatever the type
/// of the record and whatever digests are to be added.
///
/// Where the value decodes to other octets than the payload's digest, it is a mismatch with that
/// digest; where it does not decode, it is malformed; either way the record is not written. The
/// digest of the payload, in whichever encoding, is accepted.
pub proof fn lemma_payload_digest_is_checked<E: Extension>(
    record: Record<E>,
    content: Seq<u8>,
    declared: Labelled,
    digest: Seq<u8>,
    block: Option<Format>,
    payload: Option<Format>,
)
    requires
        is_whole(record),
        record.payload_content() == Ok::<Option<Seq<u8>>, Fault>(Some(content)),
        payload_digest_declared(record) == Some(declared),
        is_digest_by(declared.algorithm, content, digest),
    ensures
        digest_octets(declared) is Some && digest_octets(declared) != Some(digest) ==> {
            let fault = BlockFault::PayloadDigestMismatch(
                declared,
                labelled_from(declared.algorithm, digest),
            );
            &&& payload_digest(record, payload) == Err::<Option<Labelled>, BlockFault>(fault)
            &&& record.rendering(block, payload) is Err
            &&& record.rendering(block, payload)->Err_0 == RenderFault::Block(fault)
        },
        digest_octets(declared) is None ==> {
            let fault = BlockFault::MalformedPayloadDigest(declared);
            &&& payload_digest(record, payload) == Err::<Option<Labelled>, BlockFault>(fault)
            &&& record.rendering(block, payload) is Err
            &&& record.rendering(block, payload)->Err_0 == RenderFault::Block(fault)
        },
        digest_octets(declared) == Some(digest) ==> payload_digest(record, payload) == Ok::<
            Option<Labelled>,
            BlockFault,
        >(None),
{
}

/// A payload digest is checked only where it can be: one by an algorithm that is not computed here,
/// one of a record that is a segment or truncated, and one of a payload that cannot be told, stays
/// as it is.
pub proof fn lemma_payload_digest_is_left<E: Extension>(record: Record<E>, payload: Option<Format>)
    ensures
        !is_whole(record) || record.payload_content() == Ok::<Option<Seq<u8>>, Fault>(None) || (
        record.payload_content() is Ok && payload_digest_declared(record) is Some
            && payload_digest_declared(record)->0.algorithm is Other) ==> payload_digest(
            record,
            payload,
        ) == Ok::<Option<Labelled>, BlockFault>(None),
        is_whole(record) && record.payload_content() is Err ==> {
            let fault = record.payload_content()->Err_0;
            payload_digest(record, payload) == if payload_digest_declared(record) is Some && !(
            fault is UnsupportedTransferCoding) {
                Err::<Option<Labelled>, BlockFault>(BlockFault::Payload(fault))
            } else {
                Ok(None)
            }
        },
{
}

/// A payload digest is added to a whole record whose payload can be told and that declares none, and
/// is the digest of the payload, in the format that is asked for.
pub proof fn lemma_payload_digest_is_added<E: Extension>(
    record: Record<E>,
    content: Seq<u8>,
    algorithm: Algorithm,
    encoding: DigestEncoding,
    digest: Seq<u8>,
)
    requires
        is_whole(record),
        record is Response || record is Resource || record is Request || record is Conversion,
        record.payload_content() == Ok::<Option<Seq<u8>>, Fault>(Some(content)),
        payload_digest_declared(record) is None,
        is_digest_by(algorithm, content, digest),
    ensures
        payload_digest(record, Some((algorithm, encoding))) == Ok::<Option<Labelled>, BlockFault>(
            Some(labelled_in(algorithm, encoding, digest)),
        ),
        payload_digest(record, None) == Ok::<Option<Labelled>, BlockFault>(None),
{
}

/// A block digest that a record declares is checked against its block, whatever its type and
/// whether it is whole or not, and whatever digests are to be added.
pub proof fn lemma_block_digest_is_checked<E: Extension>(
    record: Record<E>,
    declared: Labelled,
    digest: Seq<u8>,
    block: Option<Format>,
    payload: Option<Format>,
)
    requires
        shown(record.core_headers().block_digest) == Some(declared),
        is_digest_by(declared.algorithm, record.block(), digest),
    ensures
        digest_octets(declared) is Some && digest_octets(declared) != Some(digest) ==> {
            &&& block_digest_fault(declared, record.block()) == Some(
                BlockFault::BlockDigestMismatch(
                    declared,
                    labelled_from(declared.algorithm, digest),
                ),
            )
            &&& record.rendering(block, payload) is Err
        },
        digest_octets(declared) is None ==> {
            &&& block_digest_fault(declared, record.block()) == Some(
                BlockFault::MalformedBlockDigest(declared),
            )
            &&& record.rendering(block, payload) is Err
        },
        digest_octets(declared) == Some(digest) ==> block_digest_fault(
            declared,
            record.block(),
        ) is None && block_digest(Some(declared), record.block(), block) == Ok::<
            Option<Labelled>,
            BlockFault,
        >(Some(declared)),
{
}

/// A block digest by an algorithm that is not computed here is left as it is, and one is added where
/// none is declared and a format is asked for.
pub proof fn lemma_block_digest_is_added(
    declared: Labelled,
    block: Seq<u8>,
    algorithm: Algorithm,
    encoding: DigestEncoding,
    digest: Seq<u8>,
    format: Option<Format>,
)
    requires
        is_digest_by(algorithm, block, digest),
    ensures
        declared.algorithm is Other ==> block_digest_fault(declared, block) is None
            && block_digest(Some(declared), block, format) == Ok::<Option<Labelled>, BlockFault>(
            Some(declared),
        ),
        block_digest(None, block, Some((algorithm, encoding))) == Ok::<
            Option<Labelled>,
            BlockFault,
        >(Some(labelled_in(algorithm, encoding, digest))),
        block_digest(None, block, None) == Ok::<Option<Labelled>, BlockFault>(None),
{
}

/// A digest that was computed, in whichever encoding, is accepted of the content that it was
/// computed of, and refused of any other whose digest differs.
pub proof fn lemma_computed_digest_is_told_apart(
    algorithm: Algorithm,
    encoding: DigestEncoding,
    digest: Seq<u8>,
    content: Seq<u8>,
    actual: Seq<u8>,
)
    requires
        is_digest_by(algorithm, content, actual),
        algorithm is Md5 ==> digest.len() == 16,
        algorithm is Sha1 ==> digest.len() == 20,
        algorithm is Sha256 ==> digest.len() == 32,
    ensures
        digest == actual ==> comparison(
            labelled_in(algorithm, encoding, digest),
            content,
        ) is Accepted,
        digest != actual ==> comparison(labelled_in(algorithm, encoding, digest), content)
            == Comparison::Mismatch(labelled_from(algorithm, actual)),
{
    lemma_known_digest_decodes(algorithm, encoding, digest);
}

} // verus!
