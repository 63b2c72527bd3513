//! How header lines are spelled in a version of the standard, and the order they are written in.

use crate::octets::octets;
use crate::parse::untyped::name::{lemma_field_is_named, Field, FIELD_COUNT};
use crate::parse::untyped::Entry;
use crate::record::error::RenderFault;
use crate::record::lift::{date_text, fits_version};
use crate::record::render::{entry_rank, ordered, ordered_to, ranked, with_date, with_uri};
use crate::record::round_trip::lemma_ranked_ordered;
use crate::value::date::{
    date_octets, date_of, in_leap_second, is_date, lemma_date_reads_back, Date, WarcDatePrecision,
};
use crate::version::WarcVersion;
use vstd::prelude::*;

verus! {

/// WARC 1.0 writes every URI in angle brackets. WARC 1.1 writes in them the identifiers of records
/// alone: a record's own, its `warcinfo` record's, and those of the records that it is concurrent
/// to, refers to, or continues.
pub proof fn lemma_uri_is_spelled(
    lines: Seq<Entry>,
    version: WarcVersion,
    field: Field,
    uri: Seq<char>,
)
    requires
        field.is_defined_in(version),
    ensures
        ({
            let identifies = field == Field::RecordID || field == Field::WarcinfoID || field
                == Field::ConcurrentTo || field == Field::RefersTo || field
                == Field::SegmentOriginID;
            with_uri(Ok(lines), version, field, Some(uri)) matches Ok(more) && more.len()
                == lines.len() + 1 && more.take(lines.len() as int) == lines
                && more.last().0.field == Some(field) && more.last().0.name == field.spelled()
                && more.last().1.octets == if version == WarcVersion::V1_0 || identifies {
                seq![0x20u8, 0x3c] + octets(uri) + seq![0x3eu8]
            } else {
                seq![0x20u8] + octets(uri)
            }
        }),
{
    let more = with_uri(Ok(lines), version, field, Some(uri))->Ok_0;
    assert(more.take(lines.len() as int) =~= lines);
    assert(seq![0x20u8] + (seq![0x3cu8] + octets(uri) + seq![0x3eu8]) =~= seq![0x20u8, 0x3c]
        + octets(uri) + seq![0x3eu8]);
}

/// A field that a version does not define is not written in it: WARC 1.0 has neither the URI nor
/// the date of what a record refers to.
pub proof fn lemma_undefined_field_is_refused(
    lines: Seq<Entry>,
    version: WarcVersion,
    field: Field,
    uri: Seq<char>,
)
    ensures
        with_uri(Ok(lines), version, field, Some(uri)) is Err <==> version == WarcVersion::V1_0 && (
        field == Field::RefersToTargetURI || field == Field::RefersToDate),
{
}

/// A date is written in a version exactly where the version spells all of it: what is written is
/// read back as the same date, and any other is refused.
pub proof fn lemma_whole_date_is_written(
    lines: Seq<Entry>,
    version: WarcVersion,
    field: Field,
    date: Date,
)
    requires
        is_date(date),
        0 <= date.instant.year <= 9999,
        !in_leap_second(date.instant),
        field.is_defined_in(version),
    ensures
        with_date(Ok(lines), version, field, Some(date)) is Ok <==> date_of(
            date_octets(date, version),
            version,
        ) == Some(date),
        with_date(Ok(lines), version, field, Some(date)) matches Err(fault) ==> fault
            == RenderFault::ValueNotInVersion(field, version, date_text(date)),
{
    if fits_version(date, version) {
        lemma_date_reads_back(date, version);
    } else {
        if date_of(date_octets(date, version), version) is Some {
            assert(date_of(date_octets(date, version), version)->0.precision
                == WarcDatePrecision::Second);
        }
    }
}

proof fn lemma_ranked_lines(lines: Seq<Entry>, rank: int)
    ensures
        forall|i: int| 0 <= i < ranked(lines, rank).len() ==> entry_rank(
            #[trigger] ranked(lines, rank)[i],
        ) == rank,
    decreases lines.len(),
{
    if lines.len() > 0 {
        lemma_ranked_lines(lines.drop_last(), rank);
        let before = ranked(lines.drop_last(), rank);
        let all = ranked(lines, rank);
        assert forall|i: int| 0 <= i < all.len() implies entry_rank(#[trigger] all[i]) == rank by {
            if i < before.len() {
                assert(all[i] == before[i]);
            }
        }
    }
}

proof fn lemma_ordered_to_is_sorted(lines: Seq<Entry>, n: nat)
    ensures
        forall|i: int| 0 <= i < ordered_to(lines, n).len() ==> entry_rank(
            #[trigger] ordered_to(lines, n)[i],
        ) < n,
        forall|i: int, j: int|
            0 <= i < j < ordered_to(lines, n).len() ==> entry_rank(
                #[trigger] ordered_to(lines, n)[i],
            ) <= entry_rank(#[trigger] ordered_to(lines, n)[j]),
    decreases n,
{
    if n > 0 {
        let before = ordered_to(lines, (n - 1) as nat);
        let last = ranked(lines, n - 1);
        let all = ordered_to(lines, n);
        lemma_ordered_to_is_sorted(lines, (n - 1) as nat);
        lemma_ranked_lines(lines, n - 1);
        assert(all == before + last);
        assert forall|i: int| 0 <= i < all.len() implies entry_rank(#[trigger] all[i]) < n && (i
            >= before.len() ==> entry_rank(all[i]) == n - 1) && (i < before.len() ==> all[i]
            == before[i]) by {
            if i >= before.len() {
                assert(all[i] == last[i - before.len()]);
            }
        }
        assert forall|i: int, j: int| 0 <= i < j < all.len() implies entry_rank(#[trigger] all[i])
            <= entry_rank(#[trigger] all[j]) by {
            if j < before.len() {
                assert(all[i] == before[i] && all[j] == before[j]);
            }
        }
    }
}

/// The lines of a field, in their order.
spec fn of_field(lines: Seq<Entry>, field: Option<Field>) -> Seq<Entry> {
    lines.filter(|line: Entry| line.0.field == field)
}

proof fn lemma_ranked_is_filter(lines: Seq<Entry>, field: Option<Field>)
    ensures
        ranked(
            lines,
            match field {
                Some(field) => field.rank(),
                None => FIELD_COUNT as int,
            },
        ) == of_field(lines, field),
    decreases lines.len(),
{
    reveal(Seq::filter);
    if lines.len() > 0 {
        lemma_ranked_is_filter(lines.drop_last(), field);
        let last = lines.last().0.field;
        if entry_rank(lines.last()) == (match field {
            Some(field) => field.rank(),
            None => FIELD_COUNT as int,
        }) {
            if let (Some(a), Some(b)) = (last, field) {
                lemma_rank_is_own(a, b);
            }
        }
    }
}

proof fn lemma_rank_is_own(a: Field, b: Field)
    requires
        a.rank() == b.rank(),
    ensures
        a == b,
{
    lemma_field_is_named(a);
    lemma_field_is_named(b);
}

/// No line of a record is lost or added where lines are brought into order, and the lines of one
/// field, or of no field of the standard, keep theirs.
pub proof fn lemma_lines_are_kept(lines: Seq<Entry>, field: Option<Field>)
    ensures
        ordered(lines).filter(|line: Entry| line.0.field == field) == lines.filter(
            |line: Entry| line.0.field == field,
        ),
{
    let rank = match field {
        Some(field) => field.rank(),
        None => FIELD_COUNT as int,
    };
    if let Some(field) = field {
        lemma_field_is_named(field);
    }
    lemma_ranked_ordered(lines, rank);
    lemma_ranked_is_filter(ordered(lines), field);
    lemma_ranked_is_filter(lines, field);
}

/// The lines of a record are written in the order of their fields, and those of no field of the
/// standard behind the others.
pub proof fn lemma_lines_are_ordered(lines: Seq<Entry>, i: int, j: int)
    requires
        0 <= i < j < ordered(lines).len(),
        ordered(lines)[j].0.field is Some,
    ensures
        ordered(lines)[i].0.field is Some,
        ordered(lines)[i].0.field->0.rank() <= ordered(lines)[j].0.field->0.rank(),
{
    lemma_ordered_to_is_sorted(lines, (FIELD_COUNT + 1) as nat);
    assert(entry_rank(ordered(lines)[i]) <= entry_rank(ordered(lines)[j]));
    lemma_field_is_named(ordered(lines)[j].0.field->0);
}

} // verus!
