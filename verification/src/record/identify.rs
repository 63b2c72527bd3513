//! Media-type identification for `WARC-Identified-Payload-Type`.
//!
//! Clause 5.19 of the WARC 1.1 standard requires this field to carry a type determined by
//! examining the payload, not one copied from a declaration in the block. [`payload_type`]
//! identifies payload bytes, and [`http_payload_type`] applies it to an archived HTTP message's
//! entity-body.
//!
//! Identification is opt-in. A capture enables it with
//! [`CaptureEvent::identify_payload_type`](crate::record::capture::CaptureEvent::identify_payload_type),
//! and a directly built record can pass the result to
//! [`identified_payload_type`](crate::record::builder::ResponseBuilder::identified_payload_type).

use crate::octets::{
    append, copied, equal_ignoring_case, lemma_ascii_octets_of, lemma_spells_word, octets,
    same_but_for_case, spells_word, trim, trimmed,
};
use crate::parsing::{
    content_end, field_colon, is_lws, line_break, lws, next_line, split_field_line,
};
use crate::record::lift::shown;
use crate::record::payload::{body_of, entity_body};
use crate::value::media_type::{
    is_spellable, lemma_media_type_reads_back, media_octets, media_type, plain_media, Media,
};
use crate::value::MediaType;
use std::borrow::Cow;
use vstd::prelude::*;
use vstd::slice::slice_subrange;
use vstd::string::*;

verus! {

/// Whether octets are a JSON document.
pub uninterp spec fn is_json(payload: Seq<u8>) -> bool;

/// Whether octets are a JSON document.
///
/// Calls `serde_json::from_slice` for a value that is ignored, which succeeds on JSON alone. Which
/// octets are JSON is left unsaid.
#[verifier::external_body]
fn parses_as_json(payload: &[u8]) -> (r: bool)
    ensures
        r == is_json(payload@),
{
    serde_json::from_slice::<serde::de::IgnoredAny>(payload).is_ok()
}

/// What the signature of a payload tells: whether the payload is arbitrary binary data, and the
/// media type of its format.
pub uninterp spec fn signature(payload: Seq<u8>) -> (bool, Seq<char>);

/// What the signature of a payload tells.
///
/// Calls `file_format::FileFormat::from_bytes`, compares the format with
/// `FileFormat::ArbitraryBinaryData`, and takes its `media_type`. The format is the one that the
/// first octets are the signature of, or plain text where there is none and the first lines hold
/// text; no reader looks further into a container. Which format a payload has is left unsaid.
#[verifier::external_body]
fn file_format(payload: &[u8]) -> (r: (bool, String))
    ensures
        (r.0, r.1@) == signature(payload@),
{
    let format = file_format::FileFormat::from_bytes(payload);
    (format == file_format::FileFormat::ArbitraryBinaryData, format.media_type().to_owned())
}

/// Whether a declared media type names JSON: a `json` subtype, or a `+json` suffix.
pub open spec fn names_json(declared: Media) -> bool {
    let subtype = octets(declared.subtype);
    ||| same_but_for_case(subtype, octets("json"@))
    ||| subtype.len() >= 5 && same_but_for_case(subtype.skip(subtype.len() - 5), octets("+json"@))
}

/// The media type that a signature tells.
pub open spec fn told_by(signature: (bool, Seq<char>)) -> Option<Media> {
    if signature.0 {
        None
    } else {
        match media_type(octets(signature.1)) {
            Ok(media) => Some(media),
            Err(_) => None,
        }
    }
}

/// The media type of a payload of which it is known whether it is JSON, and what its signature
/// tells.
pub open spec fn identified(
    payload: Seq<u8>,
    declared: Option<Media>,
    json: bool,
    signature: (bool, Seq<char>),
) -> Option<Media> {
    if payload.len() == 0 {
        None
    } else if json && declared is Some && names_json(declared->0) {
        Some(plain_media("application"@, "json"@))
    } else {
        told_by(signature)
    }
}

/// What a media type behind an optional reference stands for.
pub open spec fn shown_ref(media: Option<&MediaType>) -> Option<Media> {
    match media {
        Some(media) => Some(media@),
        None => None,
    }
}

/// Identify the media type of a payload from whether it parses as JSON and from its signature:
/// whether it is arbitrary binary data, and the media type of its format.
#[must_use]
pub fn identified_type(
    payload: &[u8],
    declared: Option<&MediaType>,
    json: bool,
    arbitrary: bool,
    format: &str,
) -> (r: Option<MediaType>)
    ensures
        shown(r) == identified(payload@, shown_ref(declared), json, (arbitrary, format@)),
{
    if payload.len() == 0 {
        return None;
    }
    let named = match declared {
        Some(declared) => declares_json(declared),
        None => false,
    };
    if named && json {
        return Some(MediaType::json());
    }
    if arbitrary {
        return None;
    }
    match MediaType::parse(format.as_bytes()) {
        Ok(media) => Some(media),
        Err(_) => None,
    }
}

/// Identify the media type of a payload by examining its bytes.
///
/// If the declared type names JSON (a `json` subtype or `+json` suffix) and the payload parses as
/// JSON, the result is `application/json`. Every other payload is identified by content alone.
///
/// Returns `None` for an empty or unidentified payload instead of falling back to
/// `application/octet-stream`.
#[must_use]
pub fn payload_type(payload: &[u8], declared: Option<&MediaType>) -> (r: Option<MediaType>)
    ensures
        shown(r) == identified(
            payload@,
            shown_ref(declared),
            is_json(payload@),
            signature(payload@),
        ),
{
    let json = match declared {
        Some(declared) => declares_json(declared) && parses_as_json(payload),
        None => false,
    };
    let (arbitrary, format) = file_format(payload);
    identified_type(payload, declared, json, arbitrary, format.as_str())
}

/// Identify the entity-body of an archived HTTP message.
///
/// The message's `Content-Type` is passed to [`payload_type`] as its declared type. Returns `None`
/// when the entity-body cannot be extracted or identified. A truncated message is identified from
/// the recorded bytes.
#[must_use]
pub fn http_payload_type(message: &[u8]) -> (r: Option<MediaType>)
    ensures
        shown(r) == http_identified(message@),
{
    let body = match entity_body(message) {
        Ok(body) => body,
        Err(_) => {
            return None;
        },
    };
    let declared = declared_content_type(message);
    let declared = match &declared {
        Some(media) => Some(media),
        None => None,
    };
    match body {
        Cow::Borrowed(body) => payload_type(body, declared),
        Cow::Owned(body) => payload_type(body.as_slice(), declared),
    }
}

/// The media type of the entity-body of an HTTP message.
pub open spec fn http_identified(message: Seq<u8>) -> Option<Media> {
    match body_of(message) {
        Ok(body) => identified(body, declared_type(message), is_json(body), signature(body)),
        Err(_) => None,
    }
}

/// Whether a declared media type names JSON.
fn declares_json(declared: &MediaType) -> (r: bool)
    ensures
        r == names_json(declared@),
{
    let subtype = declared.subtype().as_bytes();
    if equal_ignoring_case(subtype, "json".as_bytes()) {
        return true;
    }
    if subtype.len() < 5 {
        return false;
    }
    let suffix = slice_subrange(subtype, subtype.len() - 5, subtype.len());
    assert(suffix@ =~= subtype@.skip(subtype@.len() - 5));
    equal_ignoring_case(suffix, "+json".as_bytes())
}

/// Whether a subtype is `json`, or ends in `+json`, in whichever case.
pub open spec fn is_json_subtype(subtype: Seq<char>) -> bool {
    ||| spells_word(octets(subtype), seq![0x6au8, 0x73, 0x6f, 0x6e])
    ||| exists|stem: Seq<u8>, suffix: Seq<u8>|
        #![trigger stem + suffix]
        octets(subtype) == stem + suffix && spells_word(
            suffix,
            seq![0x2bu8, 0x6a, 0x73, 0x6f, 0x6e],
        )
}

/// What a payload is identified as.
///
/// Whether a declared type names JSON depends on its subtype alone: two types with one subtype,
/// whatever their parameters, identify a payload as the same. With a JSON subtype, a payload that
/// is JSON is `application/json`; with another, or where the payload is not JSON, the declared type
/// does not matter. A payload of no octets is never identified, one of arbitrary binary data only
/// as JSON, and any other is what its signature spells.
pub proof fn lemma_identified(
    payload: Seq<u8>,
    declared: Media,
    other: Media,
    json: bool,
    signature: (bool, Seq<char>),
)
    ensures
        declared.subtype == other.subtype ==> identified(payload, Some(declared), json, signature)
            == identified(payload, Some(other), json, signature),
        payload.len() > 0 && json && is_json_subtype(declared.subtype) ==> identified(
            payload,
            Some(declared),
            json,
            signature,
        ) == Some(
            (Media { main_type: "application"@, subtype: "json"@, parameters: Seq::empty() }),
        ),
        !json || !is_json_subtype(declared.subtype) ==> identified(
            payload,
            Some(declared),
            json,
            signature,
        ) == identified(payload, None, json, signature),
        identified(payload, None, json, signature) == identified(payload, None, !json, signature),
        payload.len() == 0 ==> identified(payload, Some(declared), json, signature) is None
            && identified(payload, None, json, signature) is None,
        signature.0 ==> identified(payload, None, json, signature) is None,
        payload.len() > 0 && !signature.0 && is_spellable(other) && octets(signature.1)
            == media_octets(other) ==> identified(payload, None, json, signature) == Some(other),
{
    let subtype = octets(declared.subtype);
    let plain = seq![0x6au8, 0x73, 0x6f, 0x6e];
    let suffixed = seq![0x2bu8, 0x6a, 0x73, 0x6f, 0x6e];
    reveal_strlit("json");
    reveal_strlit("+json");
    lemma_ascii_octets_of("json"@);
    lemma_ascii_octets_of("+json"@);
    assert(octets("json"@) =~= plain);
    assert(octets("+json"@) =~= suffixed);
    lemma_spells_word(subtype, plain);
    if subtype.len() >= 5 {
        let stem = subtype.take(subtype.len() - 5);
        let suffix = subtype.skip(subtype.len() - 5);
        assert(subtype =~= stem + suffix);
        lemma_spells_word(suffix, suffixed);
    }
    if exists|stem: Seq<u8>, suffix: Seq<u8>|
        #![trigger stem + suffix]
        subtype == stem + suffix && spells_word(suffix, suffixed) {
        let (stem, suffix) = choose|stem: Seq<u8>, suffix: Seq<u8>|
            #![trigger stem + suffix]
            subtype == stem + suffix && spells_word(suffix, suffixed);
        assert(subtype.skip(subtype.len() - 5) =~= suffix);
    }
    if is_spellable(other) {
        lemma_media_type_reads_back(other);
    }
}

/// Whether a header line is a `Content-Type` field.
pub open spec fn is_content_type(line: Seq<u8>) -> bool {
    field_colon(line) matches Some(colon) && same_but_for_case(
        line.take(colon),
        octets("content-type"@),
    )
}

/// The value of the first `Content-Type` from the header line at `offset` on, with folds joined,
/// where the header section ends.
pub open spec fn content_type_from(
    message: Seq<u8>,
    offset: int,
    value: Option<Seq<u8>>,
    folding: bool,
) -> Option<Seq<u8>>
    decreases message.len() - offset,
{
    let next = line_break(message, offset) + 1;
    let line = message.subrange(offset, content_end(message, offset));
    if !(0 <= offset < next <= message.len()) {
        None
    } else if line.len() == 0 {
        value
    } else if is_lws(line[0]) {
        let joined = match value {
            Some(value) if folding => Some(value + seq![0x20u8] + trimmed(line)),
            _ => value,
        };
        content_type_from(message, next, joined, folding)
    } else if value is None && is_content_type(line) {
        content_type_from(
            message,
            next,
            Some(trimmed(line.skip(field_colon(line)->0 + 1))),
            true,
        )
    } else {
        content_type_from(message, next, value, false)
    }
}

/// The media type that an HTTP message's first `Content-Type` field declares.
pub open spec fn declared_type(message: Seq<u8>) -> Option<Media> {
    let first = line_break(message, 0) + 1;
    if first > message.len() {
        None
    } else {
        match content_type_from(message, first, None, false) {
            None => None,
            Some(value) => match media_type(value) {
                Ok(media) => Some(media),
                Err(_) => None,
            },
        }
    }
}

/// What an optional vector holds.
spec fn held(value: Option<Vec<u8>>) -> Option<Seq<u8>> {
    match value {
        Some(value) => Some(value@),
        None => None,
    }
}

/// The media type an HTTP message's first `Content-Type` field declares.
///
/// A value that does not parse yields no type, and a later field is not read.
pub fn declared_content_type(message: &[u8]) -> (r: Option<MediaType>)
    ensures
        shown(r) == declared_type(message@),
{
    // Skip the HTTP start line.
    let mut offset: usize = match next_line(message, 0) {
        Some(line) => line.next,
        None => {
            return None;
        },
    };
    let mut value: Option<Vec<u8>> = None;
    let mut folding = false;
    loop
        invariant_except_break
            offset <= message.len(),
            line_break(message@, 0) + 1 <= message.len(),
            content_type_from(message@, line_break(message@, 0) + 1, None, false)
                == content_type_from(message@, offset as int, held(value), folding),
        ensures
            line_break(message@, 0) + 1 <= message.len(),
            content_type_from(message@, line_break(message@, 0) + 1, None, false) == held(value),
        decreases message.len() - offset,
    {
        let line = match next_line(message, offset) {
            Some(line) => line,
            None => {
                return None;
            },
        };
        let content = slice_subrange(message, offset, line.end);
        offset = line.next;
        if content.len() == 0 {
            break ;
        }
        if lws(content[0]) {
            // A fold represents whitespace; media-type parsing decides whether it is valid here.
            if folding {
                value = match value {
                    Some(so_far) => {
                        let mut joined = so_far;
                        let ghost before = joined@;
                        joined.push(0x20);
                        append(&mut joined, trim(content));
                        assert(joined@ =~= before + seq![0x20u8] + trimmed(content@));
                        Some(joined)
                    },
                    None => None,
                };
            }
            continue ;
        }
        folding = false;
        if value.is_none() {
            match split_field_line(content) {
                Some(colon) => {
                    let name = slice_subrange(content, 0, colon);
                    assert(name@ =~= content@.take(colon as int));
                    if equal_ignoring_case(name, "content-type".as_bytes()) {
                        let rest = slice_subrange(content, colon + 1, content.len());
                        assert(rest@ =~= content@.skip(colon + 1));
                        value = Some(copied(trim(rest)));
                        folding = true;
                    }
                },
                None => {},
            }
        }
    }
    match value {
        Some(value) => match MediaType::parse(value.as_slice()) {
            Ok(media) => Some(media),
            Err(_) => None,
        },
        None => None,
    }
}

} // verus!
