//! Writing a record by the rules of its type and version.

use crate::parse::raw;
use crate::parse::untyped;
use crate::parse::untyped::name::Field;
use crate::parse::untyped::{entry_line, Entry};
use crate::record::digest::{
    block_digest, check_block_digest, check_payload_digest, format_of, is_computed, payload_digest,
    Format,
};
use crate::record::error::{BlockError, BlockFault, RenderError, RenderFault};
use crate::record::extension::{lines_of, Extension, ExtensionFields, Lines};
use crate::record::header::truncated_type::TruncatedType;
use crate::record::header::{CoreHeaders, PayloadHeaders, RevisitHeader};
use crate::record::lift::{repeated_from, shown, uri_texts};
use crate::record::read::{check_declared_length, length_fault};
use crate::record::record_type::{kind_name, RecordType};
use crate::record::render::{
    lemma_fault_stays, ordered, with_address, with_date, with_digest, with_digits, with_lines,
    with_media_type, with_origin, with_payload, with_profile, with_text, with_token, with_uri,
    with_uris, Renderer, Written,
};
use crate::record::Record;
use crate::value::digest::{encoding_for, Labelled};
use crate::value::media_type::Media;
use crate::value::hash::Supported;
use crate::value::{DigestFormat, IpAddress, LabelledDigest, Uri};
use crate::version::WarcVersion;
use vstd::prelude::*;

verus! {

/// The lines of a capture's own fields.
pub open spec fn with_capture(
    out: Written,
    version: WarcVersion,
    digest: Option<Labelled>,
    media: Option<Media>,
    target: Seq<char>,
    warcinfo: Option<Seq<char>>,
    address: Option<IpAddress>,
    concurrent: Seq<Seq<char>>,
    origin: bool,
    other: Lines,
) -> Written {
    let payload = with_payload(out, version, digest, media);
    let target = with_uri(payload, version, Field::TargetURI, Some(target));
    let warcinfo = with_uri(target, version, Field::WarcinfoID, warcinfo);
    let address = with_address(warcinfo, version, address);
    let concurrent = with_uris(address, version, Field::ConcurrentTo, concurrent);
    with_lines(with_origin(concurrent, version, origin), version, false, other)
}

/// What keeps a `revisit` record from being written under its profile.
///
/// For the identical-payload-digest profile, WARC 1.1 clause 6.7.2 requires the digest that was
/// compared, and requires a nonempty block to be an initial portion of the response, marked
/// `WARC-Truncated: length`. Other profiles are not checked here.
pub open spec fn revisit_fault<E: Extension>(
    header: RevisitHeader<E>,
    digest: Option<Labelled>,
    length: nat,
) -> Option<RenderFault> {
    if header.profile@ is IdenticalPayloadDigest && digest is None {
        Some(RenderFault::MissingProfileField(Field::PayloadDigest))
    } else if length > 0 && header.profile@ is IdenticalPayloadDigest && !(header.core.truncated
        matches Some(TruncatedType::Length)) {
        Some(RenderFault::Block(BlockFault::UndeclaredRevisitTruncation(length as int)))
    } else {
        None
    }
}

/// The lines of a `revisit` record's own fields.
pub open spec fn with_revisit<E: Extension>(
    out: Written,
    header: RevisitHeader<E>,
    digest: Option<Labelled>,
) -> Written {
    let version = header.version;
    let payload = with_payload(out, version, digest, shown(header.payload.identified_payload_type));
    let target = with_uri(payload, version, Field::TargetURI, Some(header.target_uri@));
    let warcinfo = with_uri(target, version, Field::WarcinfoID, shown(header.warcinfo_id));
    let profile = with_profile(warcinfo, version, header.profile@);
    let address = with_address(profile, version, header.ip_address);
    let concurrent = with_uris(
        address,
        version,
        Field::ConcurrentTo,
        uri_texts(header.concurrent_to@),
    );
    let refers = with_uri(concurrent, version, Field::RefersTo, shown(header.refers_to));
    let uri = with_uri(
        refers,
        version,
        Field::RefersToTargetURI,
        shown(header.refers_to_target_uri),
    );
    let date = with_date(uri, version, Field::RefersToDate, shown(header.refers_to_date));
    with_lines(
        with_origin(date, version, header.segment_origin),
        version,
        false,
        header.other.written(),
    )
}

/// A number, where there is one.
pub open spec fn number_of(number: Option<u64>) -> Option<nat> {
    match number {
        Some(number) => Some(number as nat),
        None => None,
    }
}

impl<E: Extension> Record<E> {
    /// Lines with those of the fields of the record's own type, under a payload digest.
    pub open spec fn with_own(self, out: Written, digest: Option<Labelled>) -> Written {
        let version = self.declared_version();
        match self {
            Record::Warcinfo { header, .. } => with_lines(
                with_origin(
                    with_text(out, version, Field::Filename, shown(header.filename)),
                    version,
                    header.segment_origin,
                ),
                version,
                false,
                header.other.written(),
            ),
            Record::Response { header, .. } => with_capture(
                out,
                version,
                digest,
                shown(header.payload.identified_payload_type),
                header.target_uri@,
                shown(header.warcinfo_id),
                header.ip_address,
                uri_texts(header.concurrent_to@),
                header.segment_origin,
                header.other.written(),
            ),
            Record::Resource { header, .. } => with_capture(
                out,
                version,
                digest,
                shown(header.payload.identified_payload_type),
                header.target_uri@,
                shown(header.warcinfo_id),
                header.ip_address,
                uri_texts(header.concurrent_to@),
                header.segment_origin,
                header.other.written(),
            ),
            Record::Request { header, .. } => with_capture(
                out,
                version,
                digest,
                shown(header.payload.identified_payload_type),
                header.target_uri@,
                shown(header.warcinfo_id),
                header.ip_address,
                uri_texts(header.concurrent_to@),
                header.segment_origin,
                header.other.written(),
            ),
            Record::Metadata { header, .. } => {
                let target = with_uri(out, version, Field::TargetURI, shown(header.target_uri));
                let warcinfo = with_uri(
                    target,
                    version,
                    Field::WarcinfoID,
                    shown(header.warcinfo_id),
                );
                let address = with_address(warcinfo, version, header.ip_address);
                let concurrent = with_uris(
                    address,
                    version,
                    Field::ConcurrentTo,
                    uri_texts(header.concurrent_to@),
                );
                let refers = with_uri(
                    concurrent,
                    version,
                    Field::RefersTo,
                    shown(header.refers_to),
                );
                with_lines(
                    with_origin(refers, version, header.segment_origin),
                    version,
                    false,
                    header.other.written(),
                )
            },
            Record::Revisit { header, body } => match out {
                Err(fault) => Err(fault),
                Ok(_) => match revisit_fault(header, digest, body@.len()) {
                    Some(fault) => Err(fault),
                    None => with_revisit(out, header, digest),
                },
            },
            Record::Conversion { header, .. } => {
                let payload = with_payload(
                    out,
                    version,
                    digest,
                    shown(header.payload.identified_payload_type),
                );
                let target = with_uri(payload, version, Field::TargetURI, Some(header.target_uri@));
                let warcinfo = with_uri(
                    target,
                    version,
                    Field::WarcinfoID,
                    shown(header.warcinfo_id),
                );
                let refers = with_uri(warcinfo, version, Field::RefersTo, shown(header.refers_to));
                with_lines(
                    with_origin(refers, version, header.segment_origin),
                    version,
                    false,
                    header.other.written(),
                )
            },
            Record::Continuation { header, .. } => {
                let payload = with_payload(
                    out,
                    version,
                    digest,
                    shown(header.payload.identified_payload_type),
                );
                let target = with_uri(payload, version, Field::TargetURI, Some(header.target_uri@));
                let warcinfo = with_uri(
                    target,
                    version,
                    Field::WarcinfoID,
                    shown(header.warcinfo_id),
                );
                let number = with_digits(
                    warcinfo,
                    version,
                    Field::SegmentNumber,
                    Some(header.segment_number@),
                );
                let origin = with_uri(
                    number,
                    version,
                    Field::SegmentOriginID,
                    Some(header.segment_origin_id@),
                );
                let total = with_digits(
                    origin,
                    version,
                    Field::SegmentTotalLength,
                    number_of(header.segment_total_length),
                );
                with_lines(total, version, false, header.other.written())
            },
            Record::Other { header, .. } => with_origin(out, version, header.segment_origin),
        }
    }

    /// Lines with those of the fields that every record carries, under a block digest, and those
    /// that nothing claims.
    pub open spec fn with_shared(self, out: Written, digest: Option<Labelled>) -> Written {
        let version = self.declared_version();
        let core = self.core_headers();
        let kind = with_token(out, version, Field::WarcType, Some(kind_name(self.kind())));
        let id = with_uri(kind, version, Field::RecordID, Some(core.record_id@));
        let date = with_date(id, version, Field::Date, Some(core.date@));
        let length = with_digits(date, version, Field::ContentLength, Some(self.block().len()));
        let digest = with_digest(length, version, Field::BlockDigest, digest);
        let media = with_media_type(digest, version, Field::ContentType, shown(core.content_type));
        let truncated = with_token(
            media,
            version,
            Field::Truncated,
            match core.truncated {
                Some(reason) => Some(reason.token()),
                None => None,
            },
        );
        with_lines(truncated, version, self is Other, lines_of(core.unrecognized@))
    }

    /// All lines of the record before they are put in order, or why it cannot be written, where
    /// missing digests are added in the given formats.
    pub open spec fn collected(self, block: Option<Format>, payload: Option<Format>) -> Written {
        match payload_digest(self, payload) {
            Err(fault) => Err(RenderFault::Block(fault)),
            Ok(added) => {
                let digest = if added is Some {
                    added
                } else {
                    match self.payload_headers() {
                        Some(headers) => shown(headers.payload_digest),
                        None => None,
                    }
                };
                let core = self.core_headers();
                match self.with_own(Ok(Seq::empty()), digest) {
                    Err(fault) => Err(fault),
                    Ok(lines) => match length_fault(core.content_length, self.block().len()) {
                        Some(fault) => Err(RenderFault::Block(fault)),
                        None => match block_digest(
                            shown(core.block_digest),
                            self.block(),
                            block,
                        ) {
                            Err(fault) => Err(RenderFault::Block(fault)),
                            Ok(digest) => self.with_shared(Ok(lines), digest),
                        },
                    },
                }
            },
        }
    }

    /// The lines of the record in the conventional order, or why it cannot be written.
    pub open spec fn rendering(self, block: Option<Format>, payload: Option<Format>) -> Written {
        match self.collected(block, payload) {
            Err(fault) => Err(fault),
            Ok(lines) => match repeated_from(lines, 0) {
                Some(field) => Err(RenderFault::RepeatedField(field)),
                None => Ok(ordered(lines)),
            },
        }
    }

    /// Whether a result is the record as it is written.
    pub open spec fn is_rendered(
        self,
        result: Result<raw::Record, RenderError>,
        block: Option<Format>,
        payload: Option<Format>,
    ) -> bool {
        match result {
            Ok(record) => {
                &&& self.rendering(block, payload) is Ok
                &&& record.header.version == self.declared_version()
                &&& record.header.lines() == self.rendering(block, payload)->Ok_0.map_values(
                    |entry: Entry| entry_line(entry),
                )
                &&& record.body@ == self.block()
            },
            Err(error) => self.rendering(block, payload) == Err::<Seq<Entry>, RenderFault>(error@),
        }
    }
}

/// Check what the block of a `revisit` record says against the profile the record names.
///
/// The clause obliges the writer, so this is checked when a record is written and not when one is
/// read. A record read from a writer that omits the field is reported by the `lint` operation.
fn check_revisit<E: Extension>(header: &RevisitHeader<E>, content_length: u64) -> (r: Result<
    (),
    RenderError,
>)
    ensures
        match r {
            Ok(_) => revisit_fault(
                *header,
                shown(header.payload.payload_digest),
                content_length as nat,
            ) is None,
            Err(error) => revisit_fault(
                *header,
                shown(header.payload.payload_digest),
                content_length as nat,
            ) == Some(error@),
        },
{
    if header.profile.is_identical_payload() {
        // The digest is what a record under this profile asserts, per clause 6.7.2 of the WARC 1.1
        // standard, so a record without one says nothing and is refused here as it is when read.
        if header.payload.payload_digest.is_none() {
            return Err(RenderError::MissingProfileField(Field::PayloadDigest));
        }
        let declared = match &header.core.truncated {
            Some(TruncatedType::Length) => true,
            _ => false,
        };
        if content_length > 0 && !declared {
            return Err(
                RenderError::Block(BlockError::UndeclaredRevisitTruncation(content_length)),
            );
        }
    }
    Ok(())
}

/// Push the fields of a capture into the renderer.
fn store_capture<F: ExtensionFields>(
    renderer: &mut Renderer,
    payload: PayloadHeaders,
    target_uri: Uri,
    warcinfo_id: Option<Uri>,
    ip_address: Option<IpAddress>,
    concurrent_to: Vec<Uri>,
    segment_origin: bool,
    other: &F,
) -> (r: Result<(), RenderError>)
    requires
        !old(renderer).is_unconstrained(),
    ensures
        final(renderer).steps(
            *old(renderer),
            with_capture(
                old(renderer).so_far(),
                old(renderer).declared(),
                shown(payload.payload_digest),
                shown(payload.identified_payload_type),
                target_uri@,
                shown(warcinfo_id),
                ip_address,
                uri_texts(concurrent_to@),
                segment_origin,
                other.written(),
            ),
            r,
        ),
{
    let ghost version = renderer.declared();
    let ghost uris = uri_texts(concurrent_to@);
    let ghost lines = other.written();
    match renderer.push_payload(payload) {
        Ok(_) => {},
        Err(error) => {
            proof {
                lemma_uris_fault_stays(error@, version, uris);
                lemma_fault_stays(error@, version, false, lines);
            }
            return Err(error);
        },
    }
    match renderer.push_uri(Field::TargetURI, Some(target_uri)) {
        Ok(_) => {},
        Err(error) => {
            proof {
                lemma_uris_fault_stays(error@, version, uris);
                lemma_fault_stays(error@, version, false, lines);
            }
            return Err(error);
        },
    }
    match renderer.push_uri(Field::WarcinfoID, warcinfo_id) {
        Ok(_) => {},
        Err(error) => {
            proof {
                lemma_uris_fault_stays(error@, version, uris);
                lemma_fault_stays(error@, version, false, lines);
            }
            return Err(error);
        },
    }
    match renderer.push_ip_address(ip_address) {
        Ok(_) => {},
        Err(error) => {
            proof {
                lemma_uris_fault_stays(error@, version, uris);
                lemma_fault_stays(error@, version, false, lines);
            }
            return Err(error);
        },
    }
    match renderer.push_concurrent_to(concurrent_to) {
        Ok(_) => {},
        Err(error) => {
            proof {
                lemma_fault_stays(error@, version, false, lines);
            }
            return Err(error);
        },
    }
    match renderer.push_segment_origin(segment_origin) {
        Ok(_) => {},
        Err(error) => {
            proof {
                lemma_fault_stays(error@, version, false, lines);
            }
            return Err(error);
        },
    }
    renderer.push_extension(other)
}

/// Lines that cannot be written stay so.
pub proof fn lemma_uris_fault_stays(fault: RenderFault, version: WarcVersion, uris: Seq<Seq<char>>)
    ensures
        with_uris(Err(fault), version, Field::ConcurrentTo, uris) == Err::<Seq<Entry>, RenderFault>(
            fault,
        ),
    decreases uris.len(),
{
    if uris.len() > 0 {
        lemma_uris_fault_stays(fault, version, uris.drop_last());
    }
}

/// Push the fields of a `revisit` record into the renderer.
fn store_revisit<E: Extension>(renderer: &mut Renderer, header: RevisitHeader<E>) -> (r: Result<
    CoreHeaders<E>,
    RenderError,
>)
    requires
        !old(renderer).is_unconstrained(),
        old(renderer).declared() == header.version,
    ensures
        ({
            let out = with_revisit(
                old(renderer).so_far(),
                header,
                shown(header.payload.payload_digest),
            );
            match r {
                Ok(shared) => shared == header.core && final(renderer).steps(
                    *old(renderer),
                    out,
                    Ok(()),
                ),
                Err(error) => final(renderer).steps(*old(renderer), out, Err(error)),
            }
        }),
{
    let ghost version = header.version;
    let ghost uris = uri_texts(header.concurrent_to@);
    let ghost lines = header.other.written();
    match renderer.push_payload(header.payload) {
        Ok(_) => {},
        Err(error) => {
            proof {
                lemma_uris_fault_stays(error@, version, uris);
                lemma_fault_stays(error@, version, false, lines);
            }
            return Err(error);
        },
    }
    match renderer.push_uri(Field::TargetURI, Some(header.target_uri)) {
        Ok(_) => {},
        Err(error) => {
            proof {
                lemma_uris_fault_stays(error@, version, uris);
                lemma_fault_stays(error@, version, false, lines);
            }
            return Err(error);
        },
    }
    match renderer.push_uri(Field::WarcinfoID, header.warcinfo_id) {
        Ok(_) => {},
        Err(error) => {
            proof {
                lemma_uris_fault_stays(error@, version, uris);
                lemma_fault_stays(error@, version, false, lines);
            }
            return Err(error);
        },
    }
    match renderer.push_profile(&header.profile) {
        Ok(_) => {},
        Err(error) => {
            proof {
                lemma_uris_fault_stays(error@, version, uris);
                lemma_fault_stays(error@, version, false, lines);
            }
            return Err(error);
        },
    }
    match renderer.push_ip_address(header.ip_address) {
        Ok(_) => {},
        Err(error) => {
            proof {
                lemma_uris_fault_stays(error@, version, uris);
                lemma_fault_stays(error@, version, false, lines);
            }
            return Err(error);
        },
    }
    match renderer.push_concurrent_to(header.concurrent_to) {
        Ok(_) => {},
        Err(error) => {
            proof {
                lemma_fault_stays(error@, version, false, lines);
            }
            return Err(error);
        },
    }
    match renderer.push_uri(Field::RefersTo, header.refers_to) {
        Ok(_) => {},
        Err(error) => {
            proof {
                lemma_fault_stays(error@, version, false, lines);
            }
            return Err(error);
        },
    }
    match renderer.push_uri(Field::RefersToTargetURI, header.refers_to_target_uri) {
        Ok(_) => {},
        Err(error) => {
            proof {
                lemma_fault_stays(error@, version, false, lines);
            }
            return Err(error);
        },
    }
    match renderer.push_date(Field::RefersToDate, header.refers_to_date) {
        Ok(_) => {},
        Err(error) => {
            proof {
                lemma_fault_stays(error@, version, false, lines);
            }
            return Err(error);
        },
    }
    match renderer.push_segment_origin(header.segment_origin) {
        Ok(_) => {},
        Err(error) => {
            proof {
                lemma_fault_stays(error@, version, false, lines);
            }
            return Err(error);
        },
    }
    match renderer.push_extension(&header.other) {
        Ok(_) => Ok(header.core),
        Err(error) => Err(error),
    }
}

impl<E: Extension> Record<E> {
    /// Render type-specific fields and return the core fields and body.
    fn into_stored(self, renderer: &mut Renderer) -> (r: Result<
        (CoreHeaders<E>, Vec<u8>),
        RenderError,
    >)
        requires
            old(renderer).declared() == self.declared_version(),
            old(renderer).is_unconstrained() == (self is Other),
        ensures
            ({
                let out = self.with_own(
                    old(renderer).so_far(),
                    match self.payload_headers() {
                        Some(headers) => shown(headers.payload_digest),
                        None => None,
                    },
                );
                match r {
                    Ok((shared, body)) => {
                        &&& final(renderer).steps(*old(renderer), out, Ok(()))
                        &&& shared == self.core_headers()
                        &&& body@ == self.block()
                    },
                    Err(error) => final(renderer).steps(*old(renderer), out, Err(error)),
                }
            }),
    {
        let ghost version = self.declared_version();
        match self {
            Record::Warcinfo { header, body } => {
                let ghost lines = header.other.written();
                match renderer.push_text(Field::Filename, header.filename) {
                    Ok(_) => {},
                    Err(error) => {
                        proof {
                            lemma_fault_stays(error@, version, false, lines);
                        }
                        return Err(error);
                    },
                }
                match renderer.push_segment_origin(header.segment_origin) {
                    Ok(_) => {},
                    Err(error) => {
                        proof {
                            lemma_fault_stays(error@, version, false, lines);
                        }
                        return Err(error);
                    },
                }
                match renderer.push_extension(&header.other) {
                    Ok(_) => Ok((header.core, body.into_bytes())),
                    Err(error) => Err(error),
                }
            },
            Record::Response { header, body } => {
                match store_capture(
                    renderer,
                    header.payload,
                    header.target_uri,
                    header.warcinfo_id,
                    header.ip_address,
                    header.concurrent_to,
                    header.segment_origin,
                    &header.other,
                ) {
                    Ok(_) => Ok((header.core, body)),
                    Err(error) => Err(error),
                }
            },
            Record::Resource { header, body } => {
                match store_capture(
                    renderer,
                    header.payload,
                    header.target_uri,
                    header.warcinfo_id,
                    header.ip_address,
                    header.concurrent_to,
                    header.segment_origin,
                    &header.other,
                ) {
                    Ok(_) => Ok((header.core, body)),
                    Err(error) => Err(error),
                }
            },
            Record::Request { header, body } => {
                match store_capture(
                    renderer,
                    header.payload,
                    header.target_uri,
                    header.warcinfo_id,
                    header.ip_address,
                    header.concurrent_to,
                    header.segment_origin,
                    &header.other,
                ) {
                    Ok(_) => Ok((header.core, body)),
                    Err(error) => Err(error),
                }
            },
            Record::Metadata { header, body } => {
                let ghost lines = header.other.written();
                let ghost uris = uri_texts(header.concurrent_to@);
                match renderer.push_uri(Field::TargetURI, header.target_uri) {
                    Ok(_) => {},
                    Err(error) => {
                        proof {
                            lemma_uris_fault_stays(error@, version, uris);
                            lemma_fault_stays(error@, version, false, lines);
                        }
                        return Err(error);
                    },
                }
                match renderer.push_uri(Field::WarcinfoID, header.warcinfo_id) {
                    Ok(_) => {},
                    Err(error) => {
                        proof {
                            lemma_uris_fault_stays(error@, version, uris);
                            lemma_fault_stays(error@, version, false, lines);
                        }
                        return Err(error);
                    },
                }
                match renderer.push_ip_address(header.ip_address) {
                    Ok(_) => {},
                    Err(error) => {
                        proof {
                            lemma_uris_fault_stays(error@, version, uris);
                            lemma_fault_stays(error@, version, false, lines);
                        }
                        return Err(error);
                    },
                }
                match renderer.push_concurrent_to(header.concurrent_to) {
                    Ok(_) => {},
                    Err(error) => {
                        proof {
                            lemma_fault_stays(error@, version, false, lines);
                        }
                        return Err(error);
                    },
                }
                match renderer.push_uri(Field::RefersTo, header.refers_to) {
                    Ok(_) => {},
                    Err(error) => {
                        proof {
                            lemma_fault_stays(error@, version, false, lines);
                        }
                        return Err(error);
                    },
                }
                match renderer.push_segment_origin(header.segment_origin) {
                    Ok(_) => {},
                    Err(error) => {
                        proof {
                            lemma_fault_stays(error@, version, false, lines);
                        }
                        return Err(error);
                    },
                }
                match renderer.push_extension(&header.other) {
                    Ok(_) => Ok((header.core, body.into_bytes())),
                    Err(error) => Err(error),
                }
            },
            Record::Revisit { header, body } => {
                // A block is held in memory, so its length is a `usize` that fits a `u64` on every
                // platform this crate builds for.
                match check_revisit(&header, body.len() as u64) {
                    Ok(_) => {},
                    Err(error) => {
                        return Err(error);
                    },
                }
                match store_revisit(renderer, header) {
                    Ok(shared) => Ok((shared, body)),
                    Err(error) => Err(error),
                }
            },
            Record::Conversion { header, body } => {
                let ghost lines = header.other.written();
                match renderer.push_payload(header.payload) {
                    Ok(_) => {},
                    Err(error) => {
                        proof {
                            lemma_fault_stays(error@, version, false, lines);
                        }
                        return Err(error);
                    },
                }
                match renderer.push_uri(Field::TargetURI, Some(header.target_uri)) {
                    Ok(_) => {},
                    Err(error) => {
                        proof {
                            lemma_fault_stays(error@, version, false, lines);
                        }
                        return Err(error);
                    },
                }
                match renderer.push_uri(Field::WarcinfoID, header.warcinfo_id) {
                    Ok(_) => {},
                    Err(error) => {
                        proof {
                            lemma_fault_stays(error@, version, false, lines);
                        }
                        return Err(error);
                    },
                }
                match renderer.push_uri(Field::RefersTo, header.refers_to) {
                    Ok(_) => {},
                    Err(error) => {
                        proof {
                            lemma_fault_stays(error@, version, false, lines);
                        }
                        return Err(error);
                    },
                }
                match renderer.push_segment_origin(header.segment_origin) {
                    Ok(_) => {},
                    Err(error) => {
                        proof {
                            lemma_fault_stays(error@, version, false, lines);
                        }
                        return Err(error);
                    },
                }
                match renderer.push_extension(&header.other) {
                    Ok(_) => Ok((header.core, body)),
                    Err(error) => Err(error),
                }
            },
            Record::Continuation { header, body } => {
                let ghost lines = header.other.written();
                match renderer.push_payload(header.payload) {
                    Ok(_) => {},
                    Err(error) => {
                        proof {
                            lemma_fault_stays(error@, version, false, lines);
                        }
                        return Err(error);
                    },
                }
                match renderer.push_uri(Field::TargetURI, Some(header.target_uri)) {
                    Ok(_) => {},
                    Err(error) => {
                        proof {
                            lemma_fault_stays(error@, version, false, lines);
                        }
                        return Err(error);
                    },
                }
                match renderer.push_uri(Field::WarcinfoID, header.warcinfo_id) {
                    Ok(_) => {},
                    Err(error) => {
                        proof {
                            lemma_fault_stays(error@, version, false, lines);
                        }
                        return Err(error);
                    },
                }
                match renderer.push_digits(
                    Field::SegmentNumber,
                    Some(header.segment_number.get()),
                ) {
                    Ok(_) => {},
                    Err(error) => {
                        proof {
                            lemma_fault_stays(error@, version, false, lines);
                        }
                        return Err(error);
                    },
                }
                match renderer.push_uri(Field::SegmentOriginID, Some(header.segment_origin_id)) {
                    Ok(_) => {},
                    Err(error) => {
                        proof {
                            lemma_fault_stays(error@, version, false, lines);
                        }
                        return Err(error);
                    },
                }
                match renderer.push_digits(
                    Field::SegmentTotalLength,
                    header.segment_total_length,
                ) {
                    Ok(_) => {},
                    Err(error) => {
                        proof {
                            lemma_fault_stays(error@, version, false, lines);
                        }
                        return Err(error);
                    },
                }
                match renderer.push_extension(&header.other) {
                    Ok(_) => Ok((header.core, body)),
                    Err(error) => Err(error),
                }
            },
            Record::Other { header, body } => {
                match renderer.push_segment_origin(header.segment_origin) {
                    Ok(_) => Ok((header.core, body)),
                    Err(error) => Err(error),
                }
            },
        }
    }
}

/// Push the fields that every record carries into the renderer.
fn store_shared<E: Extension>(
    renderer: &mut Renderer,
    shared: CoreHeaders<E>,
    record_type: &RecordType,
    content_length: u64,
    digest: Option<LabelledDigest>,
    record: Ghost<Record<E>>,
) -> (r: Result<(), RenderError>)
    requires
        old(renderer).declared() == record@.declared_version(),
        old(renderer).is_unconstrained() == (record@ is Other),
        shared == (CoreHeaders { block_digest: None, ..record@.core_headers() }),
        record_type@ == record@.kind(),
        content_length == record@.block().len(),
    ensures
        final(renderer).steps(
            *old(renderer),
            record@.with_shared(old(renderer).so_far(), shown(digest)),
            r,
        ),
{
    let ghost version = renderer.declared();
    let ghost free = renderer.is_unconstrained();
    let ghost lines = lines_of(shared.unrecognized@);
    match renderer.push_token(Field::WarcType, Some(record_type.as_str())) {
        Ok(_) => {},
        Err(error) => {
            proof {
                lemma_fault_stays(error@, version, free, lines);
            }
            return Err(error);
        },
    }
    match renderer.push_uri(Field::RecordID, Some(shared.record_id)) {
        Ok(_) => {},
        Err(error) => {
            proof {
                lemma_fault_stays(error@, version, free, lines);
            }
            return Err(error);
        },
    }
    match renderer.push_date(Field::Date, Some(shared.date)) {
        Ok(_) => {},
        Err(error) => {
            proof {
                lemma_fault_stays(error@, version, free, lines);
            }
            return Err(error);
        },
    }
    match renderer.push_digits(Field::ContentLength, Some(content_length)) {
        Ok(_) => {},
        Err(error) => {
            proof {
                lemma_fault_stays(error@, version, free, lines);
            }
            return Err(error);
        },
    }
    match renderer.push_digest(Field::BlockDigest, digest) {
        Ok(_) => {},
        Err(error) => {
            proof {
                lemma_fault_stays(error@, version, free, lines);
            }
            return Err(error);
        },
    }
    match renderer.push_media_type(Field::ContentType, shared.content_type) {
        Ok(_) => {},
        Err(error) => {
            proof {
                lemma_fault_stays(error@, version, free, lines);
            }
            return Err(error);
        },
    }
    let reason = match &shared.truncated {
        Some(reason) => Some(reason.as_str()),
        None => None,
    };
    match renderer.push_token(Field::Truncated, reason) {
        Ok(_) => {},
        Err(error) => {
            proof {
                lemma_fault_stays(error@, version, free, lines);
            }
            return Err(error);
        },
    }
    renderer.push_lines(&shared.unrecognized)
}

impl<E: Extension> Record<E> {
    /// Consume this record and render it as a raw record.
    ///
    /// Fields use their conventional order and standard spelling. Unrecognized fields preserve
    /// their names. URI brackets follow the declared WARC version.
    ///
    /// `Content-Length` comes from the rendered body. If the header also declares a length, the two
    /// must match. Clear or update the declaration after editing a body.
    ///
    /// `WARC-Block-Digest` is checked against the rendered body. A digest naming an algorithm this
    /// crate does not compute is written as read and is not checked.
    ///
    /// `WARC-Payload-Digest` is checked when the complete payload and algorithm are supported; see
    /// [`incorrect_payload_digest`](Self::incorrect_payload_digest). Missing digests are not added.
    /// Use [`into_raw_with_digests`](Self::into_raw_with_digests) to add them.
    ///
    /// Clone the record first if it must be retained.
    pub fn into_raw(self) -> (r: Result<raw::Record, RenderError>)
        ensures
            self.is_rendered(r, None, None),
    {
        self.into_raw_added(None, None)
    }

    /// Render as [`into_raw`](Self::into_raw), adding the digests the record does not declare.
    ///
    /// A record declaring no `WARC-Block-Digest` is given one, and a `WARC-Payload-Digest` is added
    /// to a record whose payload [`payload_bytes`](Self::payload_bytes) determines, unless it is a
    /// segment or truncated. The algorithm is one that is computed here. Declared digests are
    /// checked exactly as [`into_raw`](Self::into_raw) checks them.
    pub fn into_raw_with_digests(self, algorithm: Supported) -> (r: Result<
        raw::Record,
        RenderError,
    >)
        ensures
            ({
                let format = (algorithm.named(), encoding_for(algorithm.named()));
                self.is_rendered(r, Some(format), Some(format))
            }),
    {
        let block = DigestFormat::recommended(algorithm.algorithm());
        let payload = DigestFormat::recommended(algorithm.algorithm());
        self.into_raw_added(Some(block), Some(payload))
    }

    /// Render, adding block and payload digests in the given formats where none is declared.
    ///
    /// The formats are chosen at run time, so an algorithm that is not computed here is an error.
    /// Declared digests are checked exactly as [`into_raw`](Self::into_raw) checks them.
    pub fn into_raw_with_digests_in(self, block: DigestFormat, payload: DigestFormat) -> (r: Result<
        raw::Record,
        RenderError,
    >)
        ensures
            if block.algorithm@ is Other {
                r matches Err(error) && error@ == RenderFault::UnsupportedDigestAlgorithm(
                    block.algorithm@,
                )
            } else if payload.algorithm@ is Other {
                r matches Err(error) && error@ == RenderFault::UnsupportedDigestAlgorithm(
                    payload.algorithm@,
                )
            } else {
                self.is_rendered(r, format_of(Some(block)), format_of(Some(payload)))
            },
    {
        if !block.algorithm.is_supported() {
            return Err(RenderError::UnsupportedDigestAlgorithm(block.algorithm));
        }
        if !payload.algorithm.is_supported() {
            return Err(RenderError::UnsupportedDigestAlgorithm(payload.algorithm));
        }
        self.into_raw_added(Some(block), Some(payload))
    }

    /// Render, optionally adding block and payload digests.
    fn into_raw_added(self, block: Option<DigestFormat>, payload: Option<DigestFormat>) -> (r:
        Result<raw::Record, RenderError>)
        requires
            is_computed(format_of(block)),
            is_computed(format_of(payload)),
        ensures
            self.is_rendered(r, format_of(block), format_of(payload)),
    {
        // Resolve the payload digest before rendering the header fields.
        let added = match check_payload_digest(&self, payload.as_ref()) {
            Ok(added) => added,
            Err(error) => {
                return Err(RenderError::Block(error));
            },
        };
        let ghost digest = if shown(added) is Some {
            shown(added)
        } else {
            match self.payload_headers() {
                Some(headers) => shown(headers.payload_digest),
                None => None,
            }
        };
        let mut record = self;
        if let Some(found) = added {
            match record.payload_mut() {
                Some(headers) => {
                    headers.payload_digest = Some(found);
                },
                None => {},
            }
        }
        proof {
            lemma_payload_only(self, record, digest);
        }
        // Read before the record is consumed, since the version and the record type come from the
        // header block and the variant rather than from the core headers.
        let version = record.version();
        let record_type = record.record_type();
        let unconstrained = match record_type {
            RecordType::Unknown(_) => true,
            _ => false,
        };
        let mut renderer = Renderer::new(version, unconstrained);
        let (shared, body) = match record.into_stored(&mut renderer) {
            Ok(stored) => stored,
            Err(error) => {
                return Err(error);
            },
        };
        // A block is held in memory, so its length is a `usize` that fits a `u64` on every platform
        // this crate builds for.
        let content_length = body.len() as u64;
        // A record can also be assembled directly by naming its variant, so the declared length is
        // checked here as well as where a header block and a body are paired.
        match check_declared_length(shared.content_length, content_length) {
            Ok(_) => {},
            Err(error) => {
                return Err(RenderError::Block(error));
            },
        }
        let mut shared = shared;
        let mut declared: Option<LabelledDigest> = None;
        std::mem::swap(&mut declared, &mut shared.block_digest);
        let digest_to_write = match check_block_digest(declared, body.as_slice(), block.as_ref()) {
            Ok(found) => found,
            Err(error) => {
                return Err(RenderError::Block(error));
            },
        };
        match store_shared(
            &mut renderer,
            shared,
            &record_type,
            content_length,
            digest_to_write,
            Ghost(self),
        ) {
            Ok(_) => {},
            Err(error) => {
                return Err(error);
            },
        }
        match renderer.check_repetition() {
            Ok(_) => {},
            Err(error) => {
                return Err(error);
            },
        }
        renderer.canonical_order();
        // Every value here was rendered from its typed form, so this conversion cannot fail.
        let header = untyped::RecordHeader { version, headers: renderer.into_headers() };
        Ok(header.with_body(body).into_raw())
    }
}

/// A record that differs in its payload digest alone writes the same lines under that digest.
proof fn lemma_payload_only<E: Extension>(
    record: Record<E>,
    changed: Record<E>,
    digest: Option<Labelled>,
)
    requires
        changed == record || (record.payload_headers() is Some && changed == record.with_payload(
            PayloadHeaders {
                payload_digest: changed.payload_headers()->0.payload_digest,
                ..record.payload_headers()->0
            },
        )),
    ensures
        changed.declared_version() == record.declared_version(),
        changed.kind() == record.kind(),
        changed.core_headers() == record.core_headers(),
        changed.block() == record.block(),
        changed is Other == record is Other,
        changed.with_own(Ok(Seq::empty()), digest) == record.with_own(Ok(Seq::empty()), digest),
{
}

/// A `revisit` record of an identical payload is written only with the digest of the payload, its
/// own or one that is added, and with a block only where it is declared truncated to a length.
#[verifier::spinoff_prover]
pub proof fn lemma_revisit_is_held_to_its_profile<E: Extension>(
    record: Record<E>,
    block: Option<Format>,
    payload: Option<Format>,
)
    requires
        record is Revisit,
        record->Revisit_header.profile@ is IdenticalPayloadDigest,
        record.rendering(block, payload) is Ok,
    ensures
        record->Revisit_header.payload.payload_digest is Some || payload_digest(record, payload)
            matches Ok(Some(_)),
        record.block().len() > 0 ==> record.core_headers().truncated == Some(
            TruncatedType::<E::TruncatedReasons>::Length,
        ),
{
}

/// A record is not written under a length that is not that of its block.
#[verifier::spinoff_prover]
pub proof fn lemma_wrong_length_is_refused<E: Extension>(
    record: Record<E>,
    block: Option<Format>,
    payload: Option<Format>,
)
    requires
        record.core_headers().content_length is Some,
        record.core_headers().content_length->0 != record.block().len(),
    ensures
        record.rendering(block, payload) is Err,
{
}

} // verus!
