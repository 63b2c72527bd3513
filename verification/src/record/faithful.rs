//! Which records read back as they are: those that were read, and those made of values that can be
//! read.

use crate::octets::{is_trim, lemma_lowercase_stays, lemma_trimmed_is_trim, lowered, octets};
use crate::parse::untyped::name::{field_named, Field};
use crate::parse::untyped::value::{
    is_faithful, lemma_form_octets, lemma_said_is_faithful, Form,
};
use crate::parse::untyped::{entry_line, read_entries, Entry};
use crate::record::builder::{
    adds_block_digest, adds_payload_digest, format_for, is_built, is_digested, is_fresh,
};
use crate::record::digest::declared_payload_digest;
use crate::parsing::is_token_char;
use crate::record::extension::{lines_of, Extension, ExtensionFields, Lines, NoExtension};
use crate::record::fields::parser::{joined, unfolded, Written as Line};
use crate::record::header::{
    lemma_profile_is_named, profile_named, profile_uri, CoreHeaders, PayloadHeaders, RevisitHeader,
};
use crate::record::lift::{
    first_position, form_in, plain, shown, texts_from, token_in, uri_texts, uris_in,
};
use crate::record::render::{
    is_bracketed_in, line_for, spelled_value, with_address, with_date, with_digest, with_digits,
    with_form, with_line, with_lines, with_media_type, with_origin, with_payload, with_profile,
    with_text, with_token, with_uri, with_uris, Written,
};
use crate::record::round_trip::{
    all_trim, claims_own, is_faithful_line, is_faithful_record, is_named_reason, is_sound,
    lemma_block_is_kept, lemma_record_reads_back, other_lines, reads_back,
};
use crate::record::write::{number_of, with_capture, with_revisit};
use crate::record::{Record, RecordHeader};
use crate::value::date::{in_leap_second, is_date, Date};
use crate::value::digest::{is_readable, Labelled};
use crate::value::media_type::{is_spellable, Media};
use crate::value::text::{self, text_octets, Content};
use crate::value::uri::is_uri;
use crate::value::hash::Supported;
use crate::value::{IpAddress, WarcDate};
use crate::version::WarcVersion;
use vstd::prelude::*;
use vstd::utf8::decode_utf8_encode_utf8;

verus! {

/// Whether a URI, where there is one, can be read.
pub open spec fn uri_reads(uri: Option<Seq<char>>) -> bool {
    uri matches Some(uri) ==> is_uri(uri)
}

/// Whether each URI of a list can be read.
#[verifier::opaque]
pub open spec fn uris_read(uris: Seq<Seq<char>>) -> bool {
    forall|i: int| 0 <= i < uris.len() ==> is_uri(#[trigger] uris[i])
}

/// Whether a digest, where there is one, can be read.
pub open spec fn digest_reads(digest: Option<Labelled>) -> bool {
    digest matches Some(digest) ==> is_readable(digest)
}

/// Whether a media type, where there is one, can be read.
pub open spec fn media_reads(media: Option<Media>) -> bool {
    media matches Some(media) ==> is_spellable(media)
}

/// Whether a date, where there is one, can be read: it holds no more than its precision says, its
/// year has four digits, and it lies in no leap second.
pub open spec fn date_reads(date: Option<Date>) -> bool {
    date matches Some(date) ==> is_date(date) && 0 <= date.instant.year <= 9999 && !in_leap_second(
        date.instant,
    )
}

/// Whether a text, where there is one, can be read from a header line: white space neither opens
/// nor closes what it is written as.
pub open spec fn text_reads(content: Option<Content>) -> bool {
    content matches Some(content) ==> text::is_spellable(content) && is_trim(text_octets(content))
}

/// The lines that the fields of an extension are written as.
pub open spec fn extension_lines<E: Extension>(header: RecordHeader<E>) -> Lines {
    match header {
        RecordHeader::Warcinfo(header) => header.other.written(),
        RecordHeader::Response(header) => header.other.written(),
        RecordHeader::Resource(header) => header.other.written(),
        RecordHeader::Request(header) => header.other.written(),
        RecordHeader::Metadata(header) => header.other.written(),
        RecordHeader::Revisit(header) => header.other.written(),
        RecordHeader::Conversion(header) => header.other.written(),
        RecordHeader::Continuation(header) => header.other.written(),
        RecordHeader::Other(_) => Seq::empty(),
    }
}

/// Whether what describes a payload can be read.
pub open spec fn payload_reads(payload: Option<PayloadHeaders>) -> bool {
    payload matches Some(payload) ==> digest_reads(shown(payload.payload_digest)) && media_reads(
        shown(payload.identified_payload_type),
    )
}

/// Whether a header is made of values that can be read: URIs, dates, digests, media types, and
/// texts that parse, a reason that its token names, a profile that its URI names, and kept lines
/// whose values white space neither opens nor closes.
pub open spec fn has_readable_values<E: Extension>(header: RecordHeader<E>) -> bool {
    let core = header.core_headers();
    &&& is_uri(core.record_id@)
    &&& date_reads(Some(core.date@))
    &&& digest_reads(shown(core.block_digest))
    &&& media_reads(shown(core.content_type))
    &&& is_named_reason(core)
    &&& all_trim(lines_of(core.unrecognized@))
    &&& all_trim(extension_lines(header))
    &&& payload_reads(header.payload_headers())
    &&& uri_reads(header.target())
    &&& uri_reads(header.describing())
    &&& uri_reads(header.referred())
    &&& uris_read(header.concurrent())
    &&& match header {
        RecordHeader::Warcinfo(header) => text_reads(shown(header.filename)),
        RecordHeader::Revisit(header) => {
            &&& uri_reads(shown(header.refers_to_target_uri))
            &&& date_reads(shown(header.refers_to_date))
            &&& is_uri(profile_uri(header.profile@))
            &&& header.profile@ == profile_named(profile_uri(header.profile@))
        },
        RecordHeader::Continuation(header) => {
            &&& is_uri(header.segment_origin_id@)
            &&& 1 < header.segment_number@ <= u64::MAX
        },
        _ => true,
    }
}

/// The payload type that a record identifies.
spec fn identified_type<E: Extension>(record: Record<E>) -> Option<Media> {
    match record.payload_headers() {
        Some(headers) => shown(headers.identified_payload_type),
        None => None,
    }
}

/// Whether lines so far read back as what they say, where there are any.
#[verifier::opaque]
spec fn fine(out: Written, version: WarcVersion) -> bool {
    out matches Ok(lines) ==> forall|i: int|
        0 <= i < lines.len() ==> is_faithful_line(#[trigger] lines[i], version)
}

proof fn lemma_fine_form(out: Written, version: WarcVersion, field: Field, form: Form)
    requires
        fine(out, version),
        is_faithful(form),
    ensures
        fine(with_form(out, version, field, form), version),
{
    reveal(fine);
    if out is Ok && field.is_defined_in(version) {
        let lines = out->Ok_0;
        let longer = lines.push(line_for(field, form));
        assert forall|i: int| 0 <= i < longer.len() implies is_faithful_line(
            #[trigger] longer[i],
            version,
        ) by {
            if i < lines.len() {
                assert(longer[i] == lines[i]);
            }
        }
    }
}

proof fn lemma_fine_digest(
    out: Written,
    version: WarcVersion,
    field: Field,
    digest: Option<Labelled>,
)
    requires
        fine(out, version),
        digest_reads(digest),
    ensures
        fine(with_digest(out, version, field, digest), version),
{
    if digest is Some {
        lemma_form_octets(Form::Digest(digest->0));
        lemma_fine_form(out, version, field, Form::Digest(digest->0));
    }
}

proof fn lemma_fine_media(out: Written, version: WarcVersion, field: Field, media: Option<Media>)
    requires
        fine(out, version),
        media_reads(media),
    ensures
        fine(with_media_type(out, version, field, media), version),
{
    if media is Some {
        lemma_form_octets(Form::MediaType(media->0));
        lemma_fine_form(out, version, field, Form::MediaType(media->0));
    }
}

proof fn lemma_fine_text(
    out: Written,
    version: WarcVersion,
    field: Field,
    content: Option<Content>,
)
    requires
        fine(out, version),
        text_reads(content),
    ensures
        fine(with_text(out, version, field, content), version),
{
    if content is Some {
        lemma_fine_form(out, version, field, Form::Text(content->0));
    }
}

proof fn lemma_fine_digits(out: Written, version: WarcVersion, field: Field, number: Option<nat>)
    requires
        fine(out, version),
        number matches Some(number) ==> number <= u64::MAX,
    ensures
        fine(with_digits(out, version, field, number), version),
{
    if number is Some {
        lemma_form_octets(Form::Digits(number->0));
        lemma_fine_form(out, version, field, Form::Digits(number->0));
    }
}

proof fn lemma_fine_uri(out: Written, version: WarcVersion, field: Field, uri: Option<Seq<char>>)
    requires
        fine(out, version),
        uri_reads(uri),
    ensures
        fine(with_uri(out, version, field, uri), version),
{
    if uri is Some {
        let form = Form::Uri(uri->0, is_bracketed_in(version, field));
        lemma_form_octets(form);
        lemma_fine_form(out, version, field, form);
    }
}

proof fn lemma_fine_uris(out: Written, version: WarcVersion, field: Field, uris: Seq<Seq<char>>)
    requires
        fine(out, version),
        uris_read(uris),
    ensures
        fine(with_uris(out, version, field, uris), version),
    decreases uris.len(),
{
    reveal(uris_read);
    if uris.len() > 0 {
        let shorter = uris.drop_last();
        assert forall|i: int| 0 <= i < shorter.len() implies is_uri(#[trigger] shorter[i]) by {
            assert(shorter[i] == uris[i]);
        }
        assert(is_uri(uris[uris.len() - 1]));
        lemma_fine_uris(out, version, field, shorter);
        let before = with_uris(out, version, field, shorter);
        lemma_fine_uri(before, version, field, Some(uris.last()));
    }
}

proof fn lemma_fine_address(out: Written, version: WarcVersion, address: Option<IpAddress>)
    requires
        fine(out, version),
    ensures
        fine(with_address(out, version, address), version),
{
    if address is Some {
        lemma_form_octets(Form::IpAddress(address->0));
        lemma_fine_form(out, version, Field::IPAddress, Form::IpAddress(address->0));
    }
}

proof fn lemma_fine_date(out: Written, version: WarcVersion, field: Field, date: Option<Date>)
    requires
        fine(out, version),
        date_reads(date),
    ensures
        fine(with_date(out, version, field, date), version),
{
    reveal(fine);
    if date is Some {
        lemma_form_octets(Form::Date(date->0));
        lemma_fine_form(out, version, field, Form::Date(date->0));
    }
}

proof fn lemma_fine_token(
    out: Written,
    version: WarcVersion,
    field: Field,
    token: Option<Seq<char>>,
)
    requires
        fine(out, version),
    ensures
        fine(with_token(out, version, field, token), version),
{
    reveal(fine);
    if token is Some && crate::parsing::is_token(octets(token->0)) {
        lemma_form_octets(Form::Token(token->0));
        lemma_fine_form(out, version, field, Form::Token(token->0));
    }
}

proof fn lemma_fine_lines(
    out: Written,
    version: WarcVersion,
    unconstrained: bool,
    lines: Lines,
)
    requires
        fine(out, version),
    ensures
        fine(with_lines(out, version, unconstrained, lines), version),
    decreases lines.len(),
{
    if lines.len() > 0 {
        let before = with_lines(out, version, unconstrained, lines.drop_last());
        lemma_fine_lines(out, version, unconstrained, lines.drop_last());
        let (name, value) = lines.last();
        let next = with_line(before, version, unconstrained, (name, value));
        reveal(fine);
        if next is Ok {
            let longer = next->Ok_0;
            let line = longer.last();
            assert(longer.drop_last() =~= before->Ok_0);
            lemma_said_is_faithful(field_named(name), spelled_value(octets(value)));
            assert(is_sound(line, version));
            assert forall|i: int| 0 <= i < longer.len() implies is_faithful_line(
                #[trigger] longer[i],
                version,
            ) by {
                if i < longer.len() - 1 {
                    assert(longer[i] == before->Ok_0[i]);
                }
            }
        }
    }
}

proof fn lemma_fine_payload(
    out: Written,
    version: WarcVersion,
    digest: Option<Labelled>,
    media: Option<Media>,
)
    requires
        fine(out, version),
        digest_reads(digest),
        media_reads(media),
    ensures
        fine(with_payload(out, version, digest, media), version),
{
    lemma_fine_digest(out, version, Field::PayloadDigest, digest);
    let before = with_digest(out, version, Field::PayloadDigest, digest);
    lemma_fine_media(before, version, Field::IdentifiedPayloadType, media);
}

proof fn lemma_fine_origin(out: Written, version: WarcVersion, origin: bool)
    requires
        fine(out, version),
    ensures
        fine(with_origin(out, version, origin), version),
{
    lemma_fine_digits(
        out,
        version,
        Field::SegmentNumber,
        if origin {
            Some(1nat)
        } else {
            None
        },
    );
}

proof fn lemma_fine_capture(
    out: Written,
    version: WarcVersion,
    digest: Option<Labelled>,
    media: Option<Media>,
    target: Seq<char>,
    warcinfo: Option<Seq<char>>,
    address: Option<IpAddress>,
    concurrent: Seq<Seq<char>>,
    origin: bool,
    other: Lines,
)
    requires
        fine(out, version),
        digest_reads(digest),
        media_reads(media),
        is_uri(target),
        uri_reads(warcinfo),
        uris_read(concurrent),
    ensures
        fine(
            with_capture(
                out,
                version,
                digest,
                media,
                target,
                warcinfo,
                address,
                concurrent,
                origin,
                other,
            ),
            version,
        ),
{
    lemma_fine_payload(out, version, digest, media);
    let a = with_payload(out, version, digest, media);
    lemma_fine_uri(a, version, Field::TargetURI, Some(target));
    let b = with_uri(a, version, Field::TargetURI, Some(target));
    lemma_fine_uri(b, version, Field::WarcinfoID, warcinfo);
    let c = with_uri(b, version, Field::WarcinfoID, warcinfo);
    lemma_fine_address(c, version, address);
    let d = with_address(c, version, address);
    lemma_fine_uris(d, version, Field::ConcurrentTo, concurrent);
    let e = with_uris(d, version, Field::ConcurrentTo, concurrent);
    lemma_fine_origin(e, version, origin);
    lemma_fine_lines(with_origin(e, version, origin), version, false, other);
}

proof fn lemma_fine_revisit<E: Extension>(
    out: Written,
    header: RevisitHeader<E>,
    digest: Option<Labelled>,
)
    requires
        fine(out, header.version),
        digest_reads(digest),
        media_reads(shown(header.payload.identified_payload_type)),
        is_uri(header.target_uri@),
        uri_reads(shown(header.warcinfo_id)),
        is_uri(profile_uri(header.profile@)),
        uris_read(uri_texts(header.concurrent_to@)),
        uri_reads(shown(header.refers_to)),
        uri_reads(shown(header.refers_to_target_uri)),
        date_reads(shown(header.refers_to_date)),
    ensures
        fine(with_revisit(out, header, digest), header.version),
{
    let version = header.version;
    let media = shown(header.payload.identified_payload_type);
    let concurrent = uri_texts(header.concurrent_to@);
    lemma_fine_payload(out, version, digest, media);
    let a = with_payload(out, version, digest, media);
    lemma_fine_uri(a, version, Field::TargetURI, Some(header.target_uri@));
    let b = with_uri(a, version, Field::TargetURI, Some(header.target_uri@));
    lemma_fine_uri(b, version, Field::WarcinfoID, shown(header.warcinfo_id));
    let c = with_uri(b, version, Field::WarcinfoID, shown(header.warcinfo_id));
    lemma_fine_uri(c, version, Field::Profile, Some(profile_uri(header.profile@)));
    let d = with_profile(c, version, header.profile@);
    lemma_fine_address(d, version, header.ip_address);
    let e = with_address(d, version, header.ip_address);
    lemma_fine_uris(e, version, Field::ConcurrentTo, concurrent);
    let f = with_uris(e, version, Field::ConcurrentTo, concurrent);
    lemma_fine_uri(f, version, Field::RefersTo, shown(header.refers_to));
    let g = with_uri(f, version, Field::RefersTo, shown(header.refers_to));
    lemma_fine_uri(g, version, Field::RefersToTargetURI, shown(header.refers_to_target_uri));
    let h = with_uri(g, version, Field::RefersToTargetURI, shown(header.refers_to_target_uri));
    lemma_fine_date(h, version, Field::RefersToDate, shown(header.refers_to_date));
    let i = with_date(h, version, Field::RefersToDate, shown(header.refers_to_date));
    lemma_fine_origin(i, version, header.segment_origin);
    lemma_fine_lines(
        with_origin(i, version, header.segment_origin),
        version,
        false,
        header.other.written(),
    );
}

/// The lines of a `warcinfo` record's own fields read back as what they say.
#[verifier::spinoff_prover]
proof fn lemma_fine_warcinfo_record<E: Extension>(record: Record<E>)
    requires
        record is Warcinfo,
        has_readable_values(record.header()),
    ensures
        fine(
            record.with_own(Ok(Seq::empty()), declared_payload_digest(record)),
            record.declared_version(),
        ),
{
    let version = record.declared_version();
    let out: Written = Ok(Seq::empty());
    let header = record->Warcinfo_header;
    assert(fine(out, record.declared_version())) by {
        reveal(fine);
    }
    lemma_fine_text(out, version, Field::Filename, shown(header.filename));
    let a = with_text(out, version, Field::Filename, shown(header.filename));
    lemma_fine_origin(a, version, header.segment_origin);
    let b = with_origin(a, version, header.segment_origin);
    lemma_fine_lines(b, version, false, header.other.written());
}

/// The lines of a `response` record's own fields read back as what they say.
#[verifier::spinoff_prover]
proof fn lemma_fine_response_record<E: Extension>(record: Record<E>)
    requires
        record is Response,
        has_readable_values(record.header()),
    ensures
        fine(
            record.with_own(Ok(Seq::empty()), declared_payload_digest(record)),
            record.declared_version(),
        ),
{
    let version = record.declared_version();
    let out: Written = Ok(Seq::empty());
    let digest = declared_payload_digest(record);
    let media = identified_type(record);
    let header = record->Response_header;
    assert(fine(out, record.declared_version())) by {
        reveal(fine);
    }
    lemma_fine_capture(
        out,
        version,
        digest,
        media,
        header.target_uri@,
        shown(header.warcinfo_id),
        header.ip_address,
        uri_texts(header.concurrent_to@),
        header.segment_origin,
        header.other.written(),
    );
}

/// The lines of a `resource` record's own fields read back as what they say.
#[verifier::spinoff_prover]
proof fn lemma_fine_resource_record<E: Extension>(record: Record<E>)
    requires
        record is Resource,
        has_readable_values(record.header()),
    ensures
        fine(
            record.with_own(Ok(Seq::empty()), declared_payload_digest(record)),
            record.declared_version(),
        ),
{
    let version = record.declared_version();
    let out: Written = Ok(Seq::empty());
    let digest = declared_payload_digest(record);
    let media = identified_type(record);
    let header = record->Resource_header;
    assert(fine(out, record.declared_version())) by {
        reveal(fine);
    }
    lemma_fine_capture(
        out,
        version,
        digest,
        media,
        header.target_uri@,
        shown(header.warcinfo_id),
        header.ip_address,
        uri_texts(header.concurrent_to@),
        header.segment_origin,
        header.other.written(),
    );
}

/// The lines of a `request` record's own fields read back as what they say.
#[verifier::spinoff_prover]
proof fn lemma_fine_request_record<E: Extension>(record: Record<E>)
    requires
        record is Request,
        has_readable_values(record.header()),
    ensures
        fine(
            record.with_own(Ok(Seq::empty()), declared_payload_digest(record)),
            record.declared_version(),
        ),
{
    let version = record.declared_version();
    let out: Written = Ok(Seq::empty());
    let digest = declared_payload_digest(record);
    let media = identified_type(record);
    let header = record->Request_header;
    assert(fine(out, record.declared_version())) by {
        reveal(fine);
    }
    lemma_fine_capture(
        out,
        version,
        digest,
        media,
        header.target_uri@,
        shown(header.warcinfo_id),
        header.ip_address,
        uri_texts(header.concurrent_to@),
        header.segment_origin,
        header.other.written(),
    );
}

/// The lines of a `metadata` record's own fields read back as what they say.
#[verifier::spinoff_prover]
proof fn lemma_fine_metadata_record<E: Extension>(record: Record<E>)
    requires
        record is Metadata,
        has_readable_values(record.header()),
    ensures
        fine(
            record.with_own(Ok(Seq::empty()), declared_payload_digest(record)),
            record.declared_version(),
        ),
{
    let version = record.declared_version();
    let out: Written = Ok(Seq::empty());
    let header = record->Metadata_header;
    assert(fine(out, record.declared_version())) by {
        reveal(fine);
    }
    let concurrent = uri_texts(header.concurrent_to@);
    lemma_fine_uri(out, version, Field::TargetURI, shown(header.target_uri));
    let a = with_uri(out, version, Field::TargetURI, shown(header.target_uri));
    lemma_fine_uri(a, version, Field::WarcinfoID, shown(header.warcinfo_id));
    let b = with_uri(a, version, Field::WarcinfoID, shown(header.warcinfo_id));
    lemma_fine_address(b, version, header.ip_address);
    let c = with_address(b, version, header.ip_address);
    lemma_fine_uris(c, version, Field::ConcurrentTo, concurrent);
    let d = with_uris(c, version, Field::ConcurrentTo, concurrent);
    lemma_fine_uri(d, version, Field::RefersTo, shown(header.refers_to));
    let e = with_uri(d, version, Field::RefersTo, shown(header.refers_to));
    lemma_fine_origin(e, version, header.segment_origin);
    let f = with_origin(e, version, header.segment_origin);
    lemma_fine_lines(f, version, false, header.other.written());
}

/// The lines of a `revisit` record's own fields read back as what they say.
#[verifier::spinoff_prover]
proof fn lemma_fine_revisit_record<E: Extension>(record: Record<E>)
    requires
        record is Revisit,
        has_readable_values(record.header()),
    ensures
        fine(
            record.with_own(Ok(Seq::empty()), declared_payload_digest(record)),
            record.declared_version(),
        ),
{
    let out: Written = Ok(Seq::empty());
    let digest = declared_payload_digest(record);
    let header = record->Revisit_header;
    assert(fine(out, record.declared_version())) by {
        reveal(fine);
    }
    lemma_fine_revisit(out, header, digest);
    reveal(fine);
}

/// The lines of a `conversion` record's own fields read back as what they say.
#[verifier::spinoff_prover]
proof fn lemma_fine_conversion_record<E: Extension>(record: Record<E>)
    requires
        record is Conversion,
        has_readable_values(record.header()),
    ensures
        fine(
            record.with_own(Ok(Seq::empty()), declared_payload_digest(record)),
            record.declared_version(),
        ),
{
    let version = record.declared_version();
    let out: Written = Ok(Seq::empty());
    let digest = declared_payload_digest(record);
    let media = identified_type(record);
    let header = record->Conversion_header;
    assert(fine(out, record.declared_version())) by {
        reveal(fine);
    }
    lemma_fine_payload(out, version, digest, media);
    let a = with_payload(out, version, digest, media);
    lemma_fine_uri(a, version, Field::TargetURI, Some(header.target_uri@));
    let b = with_uri(a, version, Field::TargetURI, Some(header.target_uri@));
    lemma_fine_uri(b, version, Field::WarcinfoID, shown(header.warcinfo_id));
    let c = with_uri(b, version, Field::WarcinfoID, shown(header.warcinfo_id));
    lemma_fine_uri(c, version, Field::RefersTo, shown(header.refers_to));
    let d = with_uri(c, version, Field::RefersTo, shown(header.refers_to));
    lemma_fine_origin(d, version, header.segment_origin);
    let e = with_origin(d, version, header.segment_origin);
    lemma_fine_lines(e, version, false, header.other.written());
}

/// The lines of a `continuation` record's own fields read back as what they say.
#[verifier::spinoff_prover]
proof fn lemma_fine_continuation_record<E: Extension>(record: Record<E>)
    requires
        record is Continuation,
        has_readable_values(record.header()),
    ensures
        fine(
            record.with_own(Ok(Seq::empty()), declared_payload_digest(record)),
            record.declared_version(),
        ),
{
    let version = record.declared_version();
    let out: Written = Ok(Seq::empty());
    let digest = declared_payload_digest(record);
    let media = identified_type(record);
    let header = record->Continuation_header;
    assert(fine(out, record.declared_version())) by {
        reveal(fine);
    }
    let number = Some(header.segment_number@);
    let total = number_of(header.segment_total_length);
    lemma_fine_payload(out, version, digest, media);
    let a = with_payload(out, version, digest, media);
    lemma_fine_uri(a, version, Field::TargetURI, Some(header.target_uri@));
    let b = with_uri(a, version, Field::TargetURI, Some(header.target_uri@));
    lemma_fine_uri(b, version, Field::WarcinfoID, shown(header.warcinfo_id));
    let c = with_uri(b, version, Field::WarcinfoID, shown(header.warcinfo_id));
    lemma_fine_digits(c, version, Field::SegmentNumber, number);
    let d = with_digits(c, version, Field::SegmentNumber, number);
    lemma_fine_uri(d, version, Field::SegmentOriginID, Some(header.segment_origin_id@));
    let e = with_uri(d, version, Field::SegmentOriginID, Some(header.segment_origin_id@));
    lemma_fine_digits(e, version, Field::SegmentTotalLength, total);
    let f = with_digits(e, version, Field::SegmentTotalLength, total);
    lemma_fine_lines(f, version, false, header.other.written());
}

/// The lines of a `other` record's own fields read back as what they say.
#[verifier::spinoff_prover]
proof fn lemma_fine_other_record<E: Extension>(record: Record<E>)
    requires
        record is Other,
        has_readable_values(record.header()),
    ensures
        fine(
            record.with_own(Ok(Seq::empty()), declared_payload_digest(record)),
            record.declared_version(),
        ),
{
    let version = record.declared_version();
    let out: Written = Ok(Seq::empty());
    let header = record->Other_header;
    assert(fine(out, record.declared_version())) by {
        reveal(fine);
    }
    lemma_fine_origin(out, version, header.segment_origin);
}

/// The lines of a record's own type read back as what they say.
proof fn lemma_fine_own<E: Extension>(record: Record<E>)
    requires
        has_readable_values(record.header()),
    ensures
        fine(
            record.with_own(Ok(Seq::empty()), declared_payload_digest(record)),
            record.declared_version(),
        ),
{
    match record {
        Record::Warcinfo { .. } => {
            lemma_fine_warcinfo_record(record);
        },
        Record::Response { .. } => {
            lemma_fine_response_record(record);
        },
        Record::Resource { .. } => {
            lemma_fine_resource_record(record);
        },
        Record::Request { .. } => {
            lemma_fine_request_record(record);
        },
        Record::Metadata { .. } => {
            lemma_fine_metadata_record(record);
        },
        Record::Revisit { .. } => {
            lemma_fine_revisit_record(record);
        },
        Record::Conversion { .. } => {
            lemma_fine_conversion_record(record);
        },
        Record::Continuation { .. } => {
            lemma_fine_continuation_record(record);
        },
        Record::Other { .. } => {
            lemma_fine_other_record(record);
        },
    }
}

/// The lines of the fields that every record carries read back as what they say.
proof fn lemma_fine_shared<E: Extension>(
    record: Record<E>,
    out: Written,
    digest: Option<Labelled>,
)
    requires
        has_readable_values(record.header()),
        record.block().len() <= u64::MAX,
        fine(out, record.declared_version()),
        digest_reads(digest),
    ensures
        fine(record.with_shared(out, digest), record.declared_version()),
{
    let version = record.declared_version();
    let core = record.core_headers();
    let name = Some(crate::record::record_type::kind_name(record.kind()));
    let id = Some(core.record_id@);
    let length = Some(record.block().len());
    let reason = crate::record::round_trip::reason_token(core);
    lemma_fine_token(out, version, Field::WarcType, name);
    let a = with_token(out, version, Field::WarcType, name);
    lemma_fine_uri(a, version, Field::RecordID, id);
    let b = with_uri(a, version, Field::RecordID, id);
    lemma_fine_date(b, version, Field::Date, Some(core.date@));
    let c = with_date(b, version, Field::Date, Some(core.date@));
    lemma_fine_digits(c, version, Field::ContentLength, length);
    let d = with_digits(c, version, Field::ContentLength, length);
    lemma_fine_digest(d, version, Field::BlockDigest, digest);
    let e = with_digest(d, version, Field::BlockDigest, digest);
    lemma_fine_media(e, version, Field::ContentType, shown(core.content_type));
    let f = with_media_type(e, version, Field::ContentType, shown(core.content_type));
    lemma_fine_token(f, version, Field::Truncated, reason);
    let g = with_token(f, version, Field::Truncated, reason);
    lemma_fine_lines(g, version, record is Other, lines_of(core.unrecognized@));
}

/// A record made of values that can be read reads back as it is.
pub proof fn lemma_readable_record_is_faithful<E: Extension>(record: Record<E>)
    requires
        has_readable_values(record.header()),
        record.block().len() <= u64::MAX,
        record.rendering(None, None) is Ok,
    ensures
        is_faithful_record(record),
{
    lemma_fine_own(record);
    let own = record.with_own(Ok(Seq::empty()), declared_payload_digest(record));
    lemma_fine_shared(record, own, shown(record.core_headers().block_digest));
    reveal(fine);
}

/// Whether what each line is read as reads back as itself.
#[verifier::opaque]
spec fn all_read(lines: Seq<Entry>) -> bool {
    forall|i: int|
        0 <= i < lines.len() ==> ((#[trigger] lines[i]).1.form matches Some(form) ==> is_faithful(
            form,
        ))
}

/// What lines are read as reads back as itself.
proof fn lemma_lines_are_read(written: Seq<Line>, i: int)
    requires
        read_entries(written, i) is Ok,
    ensures
        all_read(read_entries(written, i)->Ok_0),
    decreases written.len() - i,
{
    reveal(all_read);
    if 0 <= i < written.len() {
        lemma_lines_are_read(written, i + 1);
        let all = read_entries(written, i)->Ok_0;
        let rest = read_entries(written, i + 1)->Ok_0;
        lemma_said_is_faithful(field_named(written[i].0), written[i].1);
        assert forall|j: int| 0 <= j < all.len() implies ((#[trigger] all[j]).1.form matches Some(
            form,
        ) ==> is_faithful(form)) by {
            if j > 0 {
                assert(all[j] == rest[j - 1]);
            }
        }
    }
}

proof fn lemma_first_bounds(lines: Seq<Entry>, field: Field, i: int)
    requires
        0 <= i <= lines.len(),
    ensures
        i <= first_position(lines, field, i) <= lines.len(),
    decreases lines.len() - i,
{
    if i < lines.len() && lines[i].0.field != Some(field) {
        lemma_first_bounds(lines, field, i + 1);
    }
}

/// What a field holds in lines that are read reads back as itself.
proof fn lemma_form_is_read(lines: Seq<Entry>, field: Field)
    requires
        all_read(lines),
    ensures
        form_in(lines, field) matches Some(form) ==> is_faithful(form),
{
    reveal(all_read);
    lemma_first_bounds(lines, field, 0);
}

/// The URIs of a field in lines that are read can be read.
proof fn lemma_uris_are_read(lines: Seq<Entry>, field: Field)
    requires
        all_read(lines),
    ensures
        uris_read(uris_in(lines, field)),
    decreases lines.len(),
{
    reveal(all_read);
    reveal(uris_read);
    if lines.len() > 0 {
        let shorter = lines.drop_last();
        assert forall|i: int| 0 <= i < shorter.len() implies ((#[trigger] shorter[i]).1.form
            matches Some(form) ==> is_faithful(form)) by {
            assert(shorter[i] == lines[i]);
        }
        lemma_uris_are_read(shorter, field);
        assert(lines[lines.len() - 1] == lines.last());
        let before = uris_in(shorter, field);
        let all = uris_in(lines, field);
        assert forall|i: int| 0 <= i < all.len() implies is_uri(#[trigger] all[i]) by {
            if i < before.len() {
                assert(all[i] == before[i]);
            }
        }
    }
}

/// White space neither opens nor closes the values of lines that are kept as text.
proof fn lemma_texts_are_trim(lines: Seq<Entry>, i: int)
    requires
        texts_from(lines, i) is Ok,
    ensures
        all_trim(texts_from(lines, i)->Ok_0),
    decreases lines.len() - i,
{
    if 0 <= i < lines.len() {
        lemma_texts_are_trim(lines, i + 1);
        let all = texts_from(lines, i)->Ok_0;
        let rest = texts_from(lines, i + 1)->Ok_0;
        let value = unfolded(lines[i].1.octets);
        decode_utf8_encode_utf8(value);
        lemma_trimmed_is_trim(joined(lines[i].1.octets, 0));
        assert forall|j: int| 0 <= j < all.len() implies is_trim(octets((#[trigger] all[j]).1)) by {
            if j > 0 {
                assert(all[j] == rest[j - 1]);
            }
        }
    }
}

/// The values that every header holds of lines that are read can be read.
proof fn lemma_core_is_read<E: Extension>(core: CoreHeaders<E>, lines: Seq<Entry>)
    requires
        all_read(lines),
        core.reads(lines),
    ensures
        is_uri(core.record_id@),
        date_reads(Some(core.date@)),
        digest_reads(shown(core.block_digest)),
        media_reads(shown(core.content_type)),
{
    lemma_form_is_read(lines, Field::RecordID);
    lemma_form_is_read(lines, Field::Date);
    lemma_form_is_read(lines, Field::BlockDigest);
    lemma_form_is_read(lines, Field::ContentType);
}

/// The values that describe a payload in lines that are read can be read.
proof fn lemma_payload_is_read(payload: PayloadHeaders, lines: Seq<Entry>)
    requires
        all_read(lines),
        payload.reads(lines),
    ensures
        digest_reads(shown(payload.payload_digest)),
        media_reads(shown(payload.identified_payload_type)),
{
    lemma_form_is_read(lines, Field::PayloadDigest);
    lemma_form_is_read(lines, Field::IdentifiedPayloadType);
}

/// A record that was read is made of values that can be read, where what its extension keeps, and
/// the reason that it names, can.
#[verifier::spinoff_prover]
#[verifier::rlimit(40)]
pub proof fn lemma_read_record_has_readable_values<E: Extension>(
    written: Seq<Line>,
    version: WarcVersion,
    header: RecordHeader<E>,
    bytes: Seq<u8>,
    record: Record<E>,
)
    requires
        read_entries(written, 0) is Ok,
        RecordHeader::is_lifted(Ok(header), version, read_entries(written, 0)->Ok_0),
        record.is_made_of(header, bytes),
        is_named_reason(header.core_headers()),
        all_trim(lines_of(header.core_headers().unrecognized@)),
        all_trim(extension_lines(header)),
    ensures
        has_readable_values(record.header()),
{
    let lines = read_entries(written, 0)->Ok_0;
    lemma_lines_are_read(written, 0);
    lemma_core_is_read(header.core_headers(), lines);
    if header.payload_headers() is Some {
        lemma_payload_is_read(header.payload_headers()->0, lines);
    }
    lemma_form_is_read(lines, Field::TargetURI);
    lemma_form_is_read(lines, Field::WarcinfoID);
    lemma_form_is_read(lines, Field::RefersTo);
    lemma_uris_are_read(lines, Field::ConcurrentTo);
    assert(uris_read(Seq::empty())) by {
        reveal(uris_read);
    }
    match record {
        Record::Warcinfo { .. } => {
            lemma_form_is_read(lines, Field::Filename);
        },
        Record::Revisit { header, .. } => {
            lemma_form_is_read(lines, Field::Profile);
            lemma_form_is_read(lines, Field::RefersToTargetURI);
            lemma_form_is_read(lines, Field::RefersToDate);
            if !(header.profile@ is Other) {
                lemma_profile_is_named(header.profile@);
            }
        },
        Record::Continuation { .. } => {
            lemma_form_is_read(lines, Field::SegmentNumber);
            lemma_form_is_read(lines, Field::SegmentOriginID);
        },
        _ => {},
    }
}

/// A reason of the standard, or one that is kept in lower case, is named by its token.
proof fn lemma_reason_is_named(core: CoreHeaders<NoExtension>, lines: Seq<Entry>)
    requires
        all_read(lines),
        core.reads(lines),
    ensures
        is_named_reason(core),
{
    lemma_form_is_read(lines, Field::Truncated);
    if core.truncated is Some {
        let token = token_in(lines, Field::Truncated)->0;
        let s = octets(token);
        assert forall|i: int| 0 <= i < s.len() implies #[trigger] s[i] < 0x80 by {
            assert(is_token_char(s[i]));
        }
        lemma_lowercase_stays(token);
        assert(lowered(lowered(s)) =~= lowered(s));
    }
}

/// A record of the standard that was read reads back as it is: it is made of values that read back
/// as themselves, and every line that it keeps is one that nothing claims.
pub proof fn lemma_read_record_is_faithful(
    written: Seq<Line>,
    version: WarcVersion,
    header: RecordHeader<NoExtension>,
    bytes: Seq<u8>,
    record: Record<NoExtension>,
)
    requires
        read_entries(written, 0) is Ok,
        RecordHeader::is_lifted(Ok(header), version, read_entries(written, 0)->Ok_0),
        record.is_made_of(header, bytes),
        bytes.len() <= u64::MAX,
        record.rendering(None, None) is Ok,
    ensures
        !(record is Other),
        is_faithful_record(record),
        claims_own(record),
{
    let lines = read_entries(written, 0)->Ok_0;
    lemma_lines_are_read(written, 0);
    lemma_block_is_kept(record, header, bytes);
    lemma_reason_is_named(header.core_headers(), lines);
    lemma_texts_are_trim(plain(lines), 0);
    let left = lines_of(record.core_headers().unrecognized@);
    assert(other_lines(record) + left =~= left);
    lemma_read_record_has_readable_values(written, version, header, bytes, record);
    lemma_readable_record_is_faithful(record);
}

/// Adding digests to a record leaves it made of values that can be read, with the same block.
pub proof fn lemma_digested_record_is_readable<E: Extension>(
    before: Record<E>,
    record: Record<E>,
    chosen: Option<Supported>,
)
    requires
        is_digested(before, record, chosen),
        has_readable_values(before.header()),
    ensures
        has_readable_values(record.header()),
        record.block() == before.block(),
        record is Other == before is Other,
{
    if chosen is Some {
        let format = format_for(chosen->0);
        let middle = choose|middle: Record<E>|
            #[trigger] adds_block_digest(before, middle, format) && adds_payload_digest(
                middle,
                record,
                format,
            );
        assert(has_readable_values(middle.header()) && middle.block() == before.block());
        assert(has_readable_values(record.header()) && record.block() == middle.block());
    }
}

/// A record that is built of a header and a content block reads back as it is, where the header is
/// made of values that can be read.
pub proof fn lemma_built_record_is_faithful<E: Extension>(
    header: RecordHeader<E>,
    body: Seq<u8>,
    chosen: Option<Supported>,
    record: Record<E>,
)
    requires
        is_built(Ok(record), header, body, chosen),
        has_readable_values(header),
        body.len() <= u64::MAX,
        record.rendering(None, None) is Ok,
    ensures
        is_faithful_record(record),
        record.block() == body,
{
    let made = choose|made: Record<E>|
        #[trigger] made.is_made_of(header, body) && is_digested(made, record, chosen);
    lemma_block_is_kept(made, header, body);
    assert(has_readable_values(made.header()));
    lemma_digested_record_is_readable(made, record, chosen);
    lemma_readable_record_is_faithful(record);
}

/// What a builder starts from can be read, where what it is given can: a fresh identifier, a date
/// and a target that can be read, and nothing that is optional.
pub proof fn lemma_new_header_is_readable(
    header: RecordHeader<NoExtension>,
    date: WarcDate,
    content_type: Option<Media>,
)
    requires
        is_fresh(header.core_headers(), date, content_type),
        date_reads(Some(date@)),
        uri_reads(header.target()),
        header.payload_headers() matches Some(payload) ==> payload.is_none(),
        header.describing() is None,
        header.referred() is None,
        header.concurrent().len() == 0,
        match header {
            RecordHeader::Warcinfo(header) => header.filename is None,
            RecordHeader::Revisit(header) => {
                &&& header.refers_to_target_uri is None
                &&& header.refers_to_date is None
                &&& is_uri(profile_uri(header.profile@))
                &&& header.profile@ == profile_named(profile_uri(header.profile@))
            },
            RecordHeader::Continuation(header) => {
                &&& is_uri(header.segment_origin_id@)
                &&& 1 < header.segment_number@ <= u64::MAX
            },
            _ => true,
        },
    ensures
        has_readable_values(header),
{
    reveal(uris_read);
}

/// A record of the standard that is built, and that can be written, reads back as it is: its lines
/// are read as themselves, and say what it says.
pub proof fn lemma_built_record_reads_back(
    header: RecordHeader<NoExtension>,
    body: Seq<u8>,
    chosen: Option<Supported>,
    record: Record<NoExtension>,
)
    requires
        is_built(Ok(record), header, body, chosen),
        has_readable_values(header),
        body.len() <= u64::MAX,
        !(record is Other),
        record.rendering(None, None) is Ok,
    ensures
        ({
            let lines = record.rendering(None, None)->Ok_0;
            &&& read_entries(lines.map_values(|entry: Entry| entry_line(entry)), 0) == Ok::<
                Seq<Entry>,
                (Field, crate::value::Fault),
            >(lines)
            &&& reads_back(record, lines)
        }),
{
    lemma_built_record_is_faithful(header, body, chosen, record);
    let left = lines_of(record.core_headers().unrecognized@);
    assert(other_lines(record) + left =~= left);
    lemma_record_reads_back(record);
}

} // verus!
