//! What a record that was written and read back is written as.

use crate::parse::untyped::name::Field;
use crate::parse::untyped::{entry_line, read_entries, Entry};
use crate::record::digest::{declared_payload_digest, payload_digest};
use crate::record::error::Error;
use crate::record::extension::{lines_of, Extension, NoExtension};
use crate::record::faithful::lemma_read_record_is_faithful;
use crate::record::fields::parser::Written as Line;
use crate::record::lift::{digest_in, first_position, form_in, is_well_formed, shown, token_in};
use crate::record::read::{is_reason, length_fault};
use crate::record::round_trip::{
    claims_own, is_faithful_record, lemma_block_is_kept, lemma_record_reads_back, measured,
    other_lines, reads_back, reason_token,
};
use crate::record::{CoreHeaders, Record, RecordHeader};
use crate::version::WarcVersion;
use vstd::prelude::*;

verus! {

/// Whether two headers of one type say the same in the fields of their type.
pub open spec fn same_own<E: Extension>(a: RecordHeader<E>, b: RecordHeader<E>) -> bool {
    match (a, b) {
        (RecordHeader::Warcinfo(x), RecordHeader::Warcinfo(y)) => {
            shown(x.filename) == shown(y.filename)
        },
        (RecordHeader::Revisit(x), RecordHeader::Revisit(y)) => {
            &&& x.profile@ == y.profile@
            &&& shown(x.refers_to_target_uri) == shown(y.refers_to_target_uri)
            &&& shown(x.refers_to_date) == shown(y.refers_to_date)
        },
        (RecordHeader::Continuation(x), RecordHeader::Continuation(y)) => {
            &&& x.segment_origin_id@ == y.segment_origin_id@
            &&& x.segment_total_length == y.segment_total_length
        },
        _ => true,
    }
}

/// Whether two records say the same, apart from the length that they declare.
pub open spec fn say_the_same<E: Extension>(a: Record<E>, b: Record<E>) -> bool {
    let (x, y) = (a.core_headers(), b.core_headers());
    let (h, k) = (a.header(), b.header());
    &&& a.kind() == b.kind()
    &&& a.declared_version() == b.declared_version()
    &&& a.block() == b.block()
    &&& x.record_id@ == y.record_id@
    &&& x.date@ == y.date@
    &&& shown(x.block_digest) == shown(y.block_digest)
    &&& shown(x.content_type) == shown(y.content_type)
    &&& reason_token(x) == reason_token(y)
    &&& (x.truncated is Some && x.truncated->0 is Length) == (y.truncated is Some
        && y.truncated->0 is Length)
    &&& lines_of(x.unrecognized@) == lines_of(y.unrecognized@)
    &&& other_lines(a) == other_lines(b)
    &&& h.target() == k.target()
    &&& h.describing() == k.describing()
    &&& h.address() == k.address()
    &&& h.concurrent() == k.concurrent()
    &&& h.referred() == k.referred()
    &&& h.segment() == k.segment()
    &&& match (h.payload_headers(), k.payload_headers()) {
        (Some(x), Some(y)) => {
            &&& shown(x.payload_digest) == shown(y.payload_digest)
            &&& shown(x.identified_payload_type) == shown(y.identified_payload_type)
        },
        (None, None) => true,
        _ => false,
    }
    &&& same_own(h, k)
}

/// Records that say the same have the same lines of their own type.
#[verifier::spinoff_prover]
#[verifier::rlimit(60)]
proof fn lemma_same_own_lines<E: Extension>(a: Record<E>, b: Record<E>)
    requires
        say_the_same(a, b),
    ensures
        ({
            let digest = declared_payload_digest(a);
            a.with_own(Ok(Seq::empty()), digest) == b.with_own(Ok(Seq::empty()), digest)
        }),
{
    match (a, b) {
        (Record::Warcinfo { .. }, Record::Warcinfo { .. }) => {},
        (Record::Response { .. }, Record::Response { .. }) => {},
        (Record::Resource { .. }, Record::Resource { .. }) => {},
        (Record::Request { .. }, Record::Request { .. }) => {},
        (Record::Metadata { .. }, Record::Metadata { .. }) => {},
        (Record::Revisit { .. }, Record::Revisit { .. }) => {},
        (Record::Conversion { .. }, Record::Conversion { .. }) => {},
        (Record::Continuation { .. }, Record::Continuation { .. }) => {},
        (Record::Other { .. }, Record::Other { .. }) => {},
        _ => {
            assert(false);
        },
    }
}

/// Records that say the same are written the same.
#[verifier::spinoff_prover]
#[verifier::rlimit(60)]
proof fn lemma_written_the_same<E: Extension>(a: Record<E>, b: Record<E>)
    requires
        say_the_same(a, b),
        length_fault(a.core_headers().content_length, a.block().len()) is None,
        length_fault(b.core_headers().content_length, b.block().len()) is None,
    ensures
        a.rendering(None, None) == b.rendering(None, None),
{
    lemma_same_own_lines(a, b);
    assert(declared_payload_digest(a) == declared_payload_digest(b));
    assert(a.payload_content() == b.payload_content());
    assert(payload_digest(a, None) == payload_digest(b, None));
    assert(a is Other == b is Other);
    assert(a.collected(None, None) == b.collected(None, None));
}

/// A reason that a token names is written as the token that the reason read before was.
proof fn lemma_reason_is_kept<E: Extension>(
    a: CoreHeaders<E>,
    b: CoreHeaders<E>,
    token: Option<Seq<char>>,
)
    requires
        is_reason::<E>(a.truncated, token),
        is_reason::<E>(b.truncated, token),
    ensures
        reason_token(a) == reason_token(b),
        (a.truncated is Some && a.truncated->0 is Length) == (b.truncated is Some
            && b.truncated->0 is Length),
{
}

/// Reading a record back and writing it again gives the lines that it was written as: where a
/// record is written as lines, any record that those lines and its content block are read as is
/// written as the same lines.
///
/// The record is one that is read back as it is, and its extension keeps the same lines for
/// itself when it reads them again.
#[verifier::spinoff_prover]
#[verifier::rlimit(60)]
pub proof fn lemma_read_record_is_written_as_it_was<E: Extension>(
    record: Record<E>,
    header: RecordHeader<E>,
    read: Record<E>,
)
    requires
        record.rendering(None, None) is Ok,
        record.block().len() <= u64::MAX,
        is_faithful_record(record),
        claims_own(record),
        RecordHeader::is_lifted(
            Ok(header),
            record.declared_version(),
            record.rendering(None, None)->Ok_0,
        ),
        read.is_made_of(header, record.block()),
        !(record is Other) ==> other_lines(read) == other_lines(record) && lines_of(
            read.core_headers().unrecognized@,
        ) == lines_of(record.core_headers().unrecognized@),
    ensures
        say_the_same(record, read),
        read.rendering(None, None) == record.rendering(None, None),
{
    let lines = record.rendering(None, None)->Ok_0;
    lemma_record_reads_back(record);
    lemma_block_is_kept(read, header, record.block());
    lemma_reason_is_kept(
        measured(record).core_headers(),
        header.core_headers(),
        token_in(lines, Field::Truncated),
    );
    assert(say_the_same(record, read));
    lemma_written_the_same(record, read);
}

/// Reading a record of the standard back and writing it again gives the lines that it was written
/// as: a vocabulary without fields of its own keeps every line that no standard field claims.
pub proof fn lemma_standard_record_is_written_as_it_was(
    record: Record<NoExtension>,
    header: RecordHeader<NoExtension>,
    read: Record<NoExtension>,
)
    requires
        !(record is Other),
        record.rendering(None, None) is Ok,
        record.block().len() <= u64::MAX,
        is_faithful_record(record),
        RecordHeader::is_lifted(
            Ok(header),
            record.declared_version(),
            record.rendering(None, None)->Ok_0,
        ),
        read.is_made_of(header, record.block()),
    ensures
        say_the_same(record, read),
        read.rendering(None, None) == record.rendering(None, None),
{
    let left = lines_of(record.core_headers().unrecognized@);
    assert(other_lines(record) + left =~= left);
    lemma_record_reads_back(record);
    lemma_read_record_is_written_as_it_was(record, header, read);
}

/// A record of the standard that was read, and that can be written, reads back as the record it
/// was: its lines are read as themselves, no error comes of them, and whatever record they and its
/// content block are read as says the same, declares the same length, and is written as the same
/// lines. They hold a block digest only where the record declares one.
#[verifier::spinoff_prover]
#[verifier::rlimit(40)]
pub proof fn lemma_read_record_reads_back(
    written: Seq<Line>,
    version: WarcVersion,
    header: RecordHeader<NoExtension>,
    bytes: Seq<u8>,
    record: Record<NoExtension>,
)
    requires
        read_entries(written, 0) is Ok,
        RecordHeader::is_lifted(Ok(header), version, read_entries(written, 0)->Ok_0),
        header.body_fault(bytes) is None,
        record.is_made_of(header, bytes),
        bytes.len() <= u64::MAX,
        record.rendering(None, None) is Ok,
    ensures
        ({
            let lines = record.rendering(None, None)->Ok_0;
            &&& read_entries(lines.map_values(|entry: Entry| entry_line(entry)), 0) == Ok::<
                Seq<Entry>,
                (Field, crate::value::Fault),
            >(lines)
            &&& is_well_formed(lines)
            &&& forall|error: Error|
                !#[trigger] RecordHeader::<NoExtension>::is_lifted(Err(error), version, lines)
            &&& forall|again: RecordHeader<NoExtension>|
                #[trigger] RecordHeader::is_lifted(Ok(again), version, lines) ==> again.body_fault(
                    bytes,
                ) is None
            &&& forall|again: RecordHeader<NoExtension>, read: Record<NoExtension>|
                RecordHeader::is_lifted(Ok(again), version, lines)
                    && #[trigger] read.is_made_of(again, bytes) ==> {
                    &&& say_the_same(record, read)
                    &&& read.core_headers().content_length == record.core_headers().content_length
                    &&& read.rendering(None, None) == record.rendering(None, None)
                }
            &&& form_in(lines, Field::BlockDigest) is Some
                <==> record.core_headers().block_digest is Some
        }),
{
    let lines = record.rendering(None, None)->Ok_0;
    lemma_read_record_is_faithful(written, version, header, bytes, record);
    lemma_block_is_kept(record, header, bytes);
    lemma_record_reads_back(record);
    lemma_digest_line(lines);
    assert forall|again: RecordHeader<NoExtension>| #[trigger]
        RecordHeader::is_lifted(Ok(again), version, lines) implies again.body_fault(
        bytes,
    ) is None by {
        lemma_same_block_fault(record, again, lines, bytes);
        lemma_body_fault_is_kept(record, header, bytes);
    }
    assert forall|again: RecordHeader<NoExtension>, read: Record<NoExtension>|
        RecordHeader::is_lifted(Ok(again), version, lines) && #[trigger] read.is_made_of(
            again,
            bytes,
        ) implies {
        &&& say_the_same(record, read)
        &&& read.core_headers().content_length == record.core_headers().content_length
        &&& read.rendering(None, None) == record.rendering(None, None)
    } by {
        lemma_standard_record_is_written_as_it_was(record, again, read);
    }
}

/// A line of a block digest holds one.
proof fn lemma_digest_line(lines: Seq<Entry>)
    requires
        is_well_formed(lines),
    ensures
        form_in(lines, Field::BlockDigest) is Some <==> digest_in(
            lines,
            Field::BlockDigest,
        ) is Some,
{
    lemma_first_line(lines, Field::BlockDigest, 0);
}

proof fn lemma_first_line(lines: Seq<Entry>, field: Field, i: int)
    requires
        0 <= i <= lines.len(),
    ensures
        ({
            let at = first_position(lines, field, i);
            i <= at <= lines.len() && (at < lines.len() ==> lines[at].0.field == Some(field))
        }),
    decreases lines.len() - i,
{
    if i < lines.len() && lines[i].0.field != Some(field) {
        lemma_first_line(lines, field, i + 1);
    }
}

/// A record that goes with its block does so with the length that it was given.
proof fn lemma_body_fault_is_kept<E: Extension>(
    record: Record<E>,
    header: RecordHeader<E>,
    bytes: Seq<u8>,
)
    requires
        header.body_fault(bytes) is None,
        record.is_made_of(header, bytes),
        bytes.len() <= u64::MAX,
    ensures
        record.header().body_fault(bytes) is None,
{
}

/// Headers that read the same lines go with the same blocks.
proof fn lemma_same_block_fault<E: Extension>(
    record: Record<E>,
    again: RecordHeader<E>,
    lines: Seq<Entry>,
    bytes: Seq<u8>,
)
    requires
        RecordHeader::is_lifted(Ok(again), record.declared_version(), lines),
        reads_back(record, lines),
        measured(record) == record.header(),
    ensures
        again.body_fault(bytes) == record.header().body_fault(bytes),
{
}

} // verus!
