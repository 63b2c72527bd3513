//! What a written record is read back as.

use crate::octets::{is_trim, octets};
use crate::parse::untyped::name::{field_named, lemma_field_is_named, Field, Named, FIELD_COUNT};
use crate::parse::untyped::value::{
    form_octets, is_faithful, lemma_faithful, rule_for, rule_of, said, Form, Said,
};
use crate::parse::untyped::{entry_line, read_entries, Entry};
use crate::record::digest::declared_payload_digest;
use crate::record::error::RenderFault;
use crate::record::extension::{lines_of, Extension, ExtensionFields, ExtensionRecordType, Lines};
use crate::record::fields::parser::{lemma_unfolded_same, unfolded};
use crate::record::header::truncated_type::lemma_standard_reason;
use crate::record::header::{
    profile_named, profile_uri, ContinuationHeader, ConversionHeader, CoreHeaders, MetadataHeader,
    OtherHeader, RevisitHeader, WarcinfoHeader,
};
use crate::record::lift::{
    address_in, date_in, first_position, fits_version, forbidden_from, form_in, is_before,
    is_permitted, is_repeatable, is_well_formed, plain, remaining, repeated_from, shown, texts_from,
    undefined_from, uri_in, uri_texts, uris_in,
};
use crate::record::read::{
    is_origin, kept_lines, kind_in, lift_fault, offered, own_fault, rest_fault, shared_fault,
    shared_fields, with_length,
};
use crate::record::record_type::{kind_name, kind_named, lemma_kind_is_named, Kind};
use crate::record::render::{
    entry_rank, is_bracketed_in, line_for, ordered, ordered_to, ranked, spelled_value, with_address,
    with_date, with_digest, with_digits, with_form, with_line, with_lines, with_media_type,
    with_origin, with_payload, with_profile, with_text, with_token, with_uri, with_uris,
};
use crate::record::write::{number_of, revisit_fault, with_capture, with_revisit};
use crate::record::{Record, RecordHeader};
use crate::value::date::Date;
use crate::value::digest::Labelled;
use crate::value::media_type::Media;
use crate::value::text::Content;
use crate::value::IpAddress;
use crate::version::WarcVersion;
use vstd::prelude::*;
use vstd::utf8::{decode_utf8, encode_utf8_decode_utf8, encode_utf8_valid_utf8, valid_utf8};

verus! {

/// Whether a line is read as what it says: its name spells its field, its value is read by the rule
/// of the field, and the version defines the field.
pub open spec fn is_sound(line: Entry, version: WarcVersion) -> bool {
    &&& line.0.field == field_named(line.0.name)
    &&& said(line.0.field, line.1.octets) == Ok::<Said, crate::value::Fault>(line.1)
    &&& line.0.field matches Some(field) ==> field.is_defined_in(version)
}

/// Whether every line is read as what it says.
pub open spec fn all_sound(lines: Seq<Entry>, version: WarcVersion) -> bool {
    forall|i: int| 0 <= i < lines.len() ==> is_sound(#[trigger] lines[i], version)
}

/// Whether a line is one that a renderer writes.
pub open spec fn is_shaped(line: Entry, version: WarcVersion) -> bool {
    ||| is_sound(line, version)
    ||| {
        &&& line.0.field is Some
        &&& line.0.name == line.0.field->0.spelled()
        &&& line.0.field->0.is_defined_in(version)
        &&& line.1.form is Some
        &&& line.1.octets == seq![0x20u8] + form_octets(line.1.form->0)
        &&& rule_for(line.1.form->0) == rule_of(line.0.field->0)
    }
}

/// Whether every line is one that a renderer writes.
pub open spec fn all_shaped(lines: Seq<Entry>, version: WarcVersion) -> bool {
    forall|i: int| 0 <= i < lines.len() ==> is_shaped(#[trigger] lines[i], version)
}

/// Whether what a line says reads back as itself.
pub open spec fn is_faithful_line(line: Entry, version: WarcVersion) -> bool {
    ||| is_sound(line, version)
    ||| line.1.form matches Some(form) ==> is_faithful(form)
}

/// A line that a renderer writes is read as what it says, where that reads back as itself.
proof fn lemma_sound(line: Entry, version: WarcVersion)
    requires
        is_shaped(line, version),
        is_faithful_line(line, version),
    ensures
        is_sound(line, version),
{
    if !is_sound(line, version) {
        let field = line.0.field->0;
        let form = line.1.form->0;
        lemma_field_is_named(field);
        lemma_faithful(field, form);
        assert(line.1 == (Said { octets: line.1.octets, form: Some(form) }));
    }
}

/// Lines that are read as what they say are read back from what they are written as.
proof fn lemma_entries_read_back(lines: Seq<Entry>, version: WarcVersion, i: int)
    requires
        0 <= i <= lines.len(),
        all_sound(lines, version),
    ensures
        read_entries(lines.map_values(|entry: Entry| entry_line(entry)), i) == Ok::<
            Seq<Entry>,
            (Field, crate::value::Fault),
        >(lines.skip(i)),
    decreases lines.len() - i,
{
    let written = lines.map_values(|entry: Entry| entry_line(entry));
    if i < lines.len() {
        lemma_entries_read_back(lines, version, i + 1);
        assert(is_sound(lines[i], version));
        assert(written[i] == entry_line(lines[i]));
        assert(
            lines[i].0 == (Named { field: field_named(lines[i].0.name), name: lines[i].0.name })
        );
        assert(lines.skip(i) =~= seq![lines[i]] + lines.skip(i + 1));
    } else {
        assert(lines.skip(i) =~= Seq::empty());
    }
}

proof fn lemma_ranked_concat(a: Seq<Entry>, b: Seq<Entry>, rank: int)
    ensures
        ranked(a + b, rank) == ranked(a, rank) + ranked(b, rank),
    decreases b.len(),
{
    if b.len() == 0 {
        assert(a + b =~= a);
        assert(ranked(a, rank) + ranked(b, rank) =~= ranked(a, rank));
    } else {
        lemma_ranked_concat(a, b.drop_last(), rank);
        assert((a + b).drop_last() =~= a + b.drop_last());
        assert(ranked(a + b, rank) =~= ranked(a, rank) + ranked(b, rank));
    }
}

proof fn lemma_ranked_ranked(lines: Seq<Entry>, at: int, rank: int)
    ensures
        ranked(ranked(lines, at), rank) == if at == rank {
            ranked(lines, rank)
        } else {
            Seq::<Entry>::empty()
        },
    decreases lines.len(),
{
    if lines.len() > 0 {
        lemma_ranked_ranked(lines.drop_last(), at, rank);
        let before = ranked(lines.drop_last(), at);
        let all = ranked(lines, at);
        if all.len() > before.len() {
            assert(all.drop_last() =~= before);
        }
    }
}

proof fn lemma_ranked_ordered_to(lines: Seq<Entry>, n: nat, rank: int)
    requires
        0 <= rank,
    ensures
        ranked(ordered_to(lines, n), rank) == if rank < n {
            ranked(lines, rank)
        } else {
            Seq::<Entry>::empty()
        },
    decreases n,
{
    if n > 0 {
        let before = ordered_to(lines, (n - 1) as nat);
        lemma_ranked_ordered_to(lines, (n - 1) as nat, rank);
        lemma_ranked_concat(before, ranked(lines, n - 1), rank);
        lemma_ranked_ranked(lines, n - 1, rank);
        assert(ranked(ordered_to(lines, n), rank) =~= if rank < n {
            ranked(lines, rank)
        } else {
            Seq::<Entry>::empty()
        });
    }
}

/// The lines at one position are the same in order as before.
pub(crate) proof fn lemma_ranked_ordered(lines: Seq<Entry>, rank: int)
    requires
        0 <= rank <= FIELD_COUNT,
    ensures
        ranked(ordered(lines), rank) == ranked(lines, rank),
{
    lemma_ranked_ordered_to(lines, (FIELD_COUNT + 1) as nat, rank);
}

pub(crate) proof fn lemma_ranked_is_field(line: Entry, field: Field)
    ensures
        entry_rank(line) == field.rank() <==> line.0.field == Some(field),
{
    lemma_field_is_named(field);
    match line.0.field {
        Some(own) => {
            lemma_field_is_named(own);
        },
        None => {},
    }
}

/// What the first line of a field says depends on the lines of that field alone.
proof fn lemma_form_ranked(lines: Seq<Entry>, field: Field)
    ensures
        ({
            let own = ranked(lines, field.rank());
            form_in(lines, field) == if own.len() > 0 {
                own[0].1.form
            } else {
                None
            }
        }),
        first_position(lines, field, 0) < lines.len() <==> ranked(lines, field.rank()).len() > 0,
    decreases lines.len(),
{
    if lines.len() > 0 {
        let shorter = lines.drop_last();
        lemma_form_ranked(shorter, field);
        lemma_ranked_is_field(lines.last(), field);
        lemma_position_push(shorter, lines.last(), field, 0);
        assert(shorter.push(lines.last()) =~= lines);
        lemma_position_bounds(shorter, field, 0);
        let before = ranked(shorter, field.rank());
        if before.len() == 0 && entry_rank(lines.last()) == field.rank() {
            assert(before =~= Seq::empty());
            assert(before.push(lines.last())[0] == lines.last());
        }
    }
}

proof fn lemma_position_bounds(lines: Seq<Entry>, field: Field, i: int)
    requires
        0 <= i <= lines.len(),
    ensures
        i <= first_position(lines, field, i) <= lines.len(),
    decreases lines.len() - i,
{
    if i < lines.len() && lines[i].0.field != Some(field) {
        lemma_position_bounds(lines, field, i + 1);
    }
}

proof fn lemma_position_push(lines: Seq<Entry>, line: Entry, field: Field, i: int)
    requires
        0 <= i <= lines.len(),
    ensures
        first_position(lines.push(line), field, i) == (if first_position(lines, field, i)
            < lines.len() {
            first_position(lines, field, i)
        } else if line.0.field == Some(field) {
            lines.len() as int
        } else {
            (lines.len() + 1) as int
        }),
    decreases lines.len() - i,
{
    let longer = lines.push(line);
    lemma_position_bounds(lines, field, i);
    if i < lines.len() {
        assert(longer[i] == lines[i]);
        if lines[i].0.field != Some(field) {
            lemma_position_push(lines, line, field, i + 1);
        }
    } else {
        assert(longer[i] == line);
        assert(first_position(longer, field, i + 1) == i + 1);
    }
}

proof fn lemma_uris_ranked(lines: Seq<Entry>, field: Field)
    ensures
        uris_in(lines, field) == uris_in(ranked(lines, field.rank()), field),
    decreases lines.len(),
{
    if lines.len() > 0 {
        let shorter = lines.drop_last();
        lemma_uris_ranked(shorter, field);
        lemma_ranked_is_field(lines.last(), field);
        let before = ranked(shorter, field.rank());
        let all = ranked(lines, field.rank());
        if all.len() > before.len() {
            assert(all.drop_last() =~= before);
        }
    }
}

proof fn lemma_plain_ranked(lines: Seq<Entry>)
    ensures
        plain(lines) == ranked(lines, FIELD_COUNT as int),
    decreases lines.len(),
{
    if lines.len() > 0 {
        lemma_plain_ranked(lines.drop_last());
        match lines.last().0.field {
            Some(field) => {
                lemma_field_is_named(field);
            },
            None => {},
        }
    }
}

proof fn lemma_ranked_entries(lines: Seq<Entry>, rank: int, p: int)
    requires
        0 <= p < ranked(lines, rank).len(),
    ensures
        exists|k: int| 0 <= k < lines.len() && lines[k] == ranked(lines, rank)[p],
    decreases lines.len(),
{
    let shorter = lines.drop_last();
    let before = ranked(shorter, rank);
    if p < before.len() {
        lemma_ranked_entries(shorter, rank, p);
        let k = choose|k: int| 0 <= k < shorter.len() && shorter[k] == before[p];
        assert(lines[k] == ranked(lines, rank)[p]);
    } else {
        assert(lines[lines.len() - 1] == ranked(lines, rank)[p]);
    }
}

/// Putting lines in order makes up no line.
proof fn lemma_ordered_entries(lines: Seq<Entry>, n: nat, p: int)
    requires
        0 <= p < ordered_to(lines, n).len(),
    ensures
        exists|k: int| 0 <= k < lines.len() && lines[k] == ordered_to(lines, n)[p],
    decreases n,
{
    let before = ordered_to(lines, (n - 1) as nat);
    if p < before.len() {
        lemma_ordered_entries(lines, (n - 1) as nat, p);
        let k = choose|k: int| 0 <= k < lines.len() && lines[k] == before[p];
        assert(lines[k] == ordered_to(lines, n)[p]);
    } else {
        lemma_ranked_entries(lines, n - 1, p - before.len());
        let k = choose|k: int|
            0 <= k < lines.len() && lines[k] == ranked(lines, n - 1)[p - before.len()];
        assert(lines[k] == ordered_to(lines, n)[p]);
    }
}

/// Two lines of one position are two of its lines.
proof fn lemma_two_ranked(lines: Seq<Entry>, rank: int, j: int, k: int)
    requires
        0 <= j < k < lines.len(),
        entry_rank(lines[j]) == rank,
        entry_rank(lines[k]) == rank,
    ensures
        ranked(lines, rank).len() >= 2,
    decreases lines.len(),
{
    let shorter = lines.drop_last();
    if k < shorter.len() {
        lemma_two_ranked(shorter, rank, j, k);
    } else {
        lemma_one_ranked(shorter, rank, j);
    }
}

proof fn lemma_one_ranked(lines: Seq<Entry>, rank: int, j: int)
    requires
        0 <= j < lines.len(),
        entry_rank(lines[j]) == rank,
    ensures
        ranked(lines, rank).len() >= 1,
    decreases lines.len(),
{
    let shorter = lines.drop_last();
    if j < shorter.len() {
        lemma_one_ranked(shorter, rank, j);
    }
}

/// Where no field is repeated, no position of one holds two lines.
proof fn lemma_unrepeated_ranked(lines: Seq<Entry>, field: Field)
    requires
        repeated_from(lines, 0) is None,
        !is_repeatable(field),
    ensures
        ranked(lines, field.rank()).len() <= 1,
    decreases lines.len(),
{
    if lines.len() > 0 {
        let shorter = lines.drop_last();
        lemma_repeated_prefix(lines, 0);
        lemma_unrepeated_ranked(shorter, field);
        lemma_ranked_is_field(lines.last(), field);
        let before = ranked(shorter, field.rank());
        if before.len() == 1 && entry_rank(lines.last()) == field.rank() {
            lemma_ranked_entries(shorter, field.rank(), 0);
            let k = choose|k: int| 0 <= k < shorter.len() && shorter[k] == before[0];
            lemma_ranked_rank(shorter, field.rank(), 0);
            lemma_ranked_is_field(before[0], field);
            assert(lines[k].0.field == Some(field));
            assert(is_before(lines, field, lines.len() - 1));
            lemma_repeated_at(lines, 0, lines.len() - 1);
        }
    }
}

proof fn lemma_ranked_rank(lines: Seq<Entry>, rank: int, p: int)
    requires
        0 <= p < ranked(lines, rank).len(),
    ensures
        entry_rank(ranked(lines, rank)[p]) == rank,
    decreases lines.len(),
{
    let shorter = lines.drop_last();
    if p < ranked(shorter, rank).len() {
        lemma_ranked_rank(shorter, rank, p);
    }
}

proof fn lemma_repeated_at(lines: Seq<Entry>, i: int, k: int)
    requires
        0 <= i <= k < lines.len(),
        repeated_from(lines, i) is None,
    ensures
        lines[k].0.field matches Some(field) ==> is_repeatable(field) || !is_before(
            lines,
            field,
            k,
        ),
    decreases k - i,
{
    if i < k {
        lemma_repeated_at(lines, i + 1, k);
    }
}

proof fn lemma_repeated_prefix(lines: Seq<Entry>, i: int)
    requires
        0 <= i <= lines.len() - 1,
        repeated_from(lines, i) is None,
    ensures
        repeated_from(lines.drop_last(), i) is None,
    decreases lines.len() - i,
{
    let shorter = lines.drop_last();
    if i < shorter.len() {
        lemma_repeated_prefix(lines, i + 1);
        assert(shorter[i] == lines[i]);
        match lines[i].0.field {
            Some(field) => {
                if is_before(shorter, field, i) {
                    let j = choose|j: int| 0 <= j < i && (#[trigger] shorter[j]).0.field == Some(
                        field,
                    );
                    assert(lines[j].0.field == Some(field));
                    assert(is_before(lines, field, i));
                }
            },
            None => {},
        }
    }
}

/// Where no position of a field that is not repeatable holds two lines, none is repeated.
proof fn lemma_unrepeated(lines: Seq<Entry>, i: int)
    requires
        0 <= i <= lines.len(),
        forall|field: Field|
            #![trigger field.rank()]
            !is_repeatable(field) ==> ranked(lines, field.rank()).len() <= 1,
    ensures
        repeated_from(lines, i) is None,
    decreases lines.len() - i,
{
    if i < lines.len() {
        lemma_unrepeated(lines, i + 1);
        match lines[i].0.field {
            Some(field) => {
                if !is_repeatable(field) && is_before(lines, field, i) {
                    let j = choose|j: int| 0 <= j < i && (#[trigger] lines[j]).0.field == Some(
                        field,
                    );
                    lemma_two_ranked(lines, field.rank(), j, i);
                }
            },
            None => {},
        }
    }
}

proof fn lemma_defined(lines: Seq<Entry>, version: WarcVersion, i: int)
    requires
        0 <= i <= lines.len(),
        all_sound(lines, version),
    ensures
        undefined_from(lines, version, i) is None,
    decreases lines.len() - i,
{
    if i < lines.len() {
        assert(is_sound(lines[i], version));
        lemma_defined(lines, version, i + 1);
    }
}

/// What lines say: what each field holds, the concurrent records, and the lines that the standard
/// does not name, as text.
pub ghost struct Found {
    /// What the first line of each field says.
    pub forms: Map<Field, Form>,
    /// The URIs of the lines that name concurrent records.
    pub concurrent: Seq<Seq<char>>,
    /// The lines that the standard does not name.
    pub texts: Result<Lines, Seq<char>>,
}

/// What the first line of each field says.
pub open spec fn table(lines: Seq<Entry>) -> Map<Field, Form>
    decreases lines.len(),
{
    if lines.len() == 0 {
        Map::empty()
    } else {
        let before = table(lines.drop_last());
        match (lines.last().0.field, lines.last().1.form) {
            (Some(field), Some(form)) => if before.dom().contains(field) {
                before
            } else {
                before.insert(field, form)
            },
            _ => before,
        }
    }
}

/// What lines say.
pub open spec fn found(lines: Seq<Entry>) -> Found {
    Found {
        forms: table(lines),
        concurrent: uris_in(lines, Field::ConcurrentTo),
        texts: texts_from(plain(lines), 0),
    }
}

/// What lines say with a further one for a field, where there is one.
pub open spec fn plus(before: Found, field: Field, form: Option<Form>) -> Found {
    match form {
        None => before,
        Some(form) => Found {
            forms: if before.forms.dom().contains(field) {
                before.forms
            } else {
                before.forms.insert(field, form)
            },
            concurrent: match form {
                Form::Uri(uri, _) => if field is ConcurrentTo {
                    before.concurrent.push(uri)
                } else {
                    before.concurrent
                },
                _ => before.concurrent,
            },
            texts: before.texts,
        },
    }
}

/// What a field holds is what the table says.
proof fn lemma_table(lines: Seq<Entry>, field: Field)
    requires
        is_well_formed(lines),
    ensures
        form_in(lines, field) == if table(lines).dom().contains(field) {
            Some(table(lines)[field])
        } else {
            None
        },
    decreases lines.len(),
{
    if lines.len() > 0 {
        let shorter = lines.drop_last();
        assert(is_well_formed(shorter)) by {
            assert forall|i: int| 0 <= i < shorter.len() && (#[trigger] shorter[i]).0.field is Some
                implies shorter[i].1.form is Some && rule_for(shorter[i].1.form->0) == rule_of(
                shorter[i].0.field->0,
            ) by {
                assert(shorter[i] == lines[i]);
            }
        }
        lemma_table(shorter, field);
        lemma_position_push(shorter, lines.last(), field, 0);
        lemma_position_bounds(shorter, field, 0);
        assert(shorter.push(lines.last()) =~= lines);
        assert(lines[lines.len() - 1] == lines.last());
        lemma_form_absent(shorter, field);
    }
}

proof fn lemma_form_absent(lines: Seq<Entry>, field: Field)
    requires
        is_well_formed(lines),
    ensures
        form_in(lines, field) is None <==> first_position(lines, field, 0) == lines.len(),
{
    lemma_position_bounds(lines, field, 0);
    let at = first_position(lines, field, 0);
    if at < lines.len() {
        lemma_position_holds(lines, field, 0);
        assert(lines[at].0.field == Some(field));
    }
}

proof fn lemma_position_holds(lines: Seq<Entry>, field: Field, i: int)
    requires
        0 <= i <= lines.len(),
        first_position(lines, field, i) < lines.len(),
    ensures
        lines[first_position(lines, field, i)].0.field == Some(field),
    decreases lines.len() - i,
{
    if i < lines.len() && lines[i].0.field != Some(field) {
        lemma_position_holds(lines, field, i + 1);
    }
}

proof fn lemma_shaped_well_formed(lines: Seq<Entry>, version: WarcVersion)
    requires
        all_shaped(lines, version),
    ensures
        is_well_formed(lines),
{
    assert forall|i: int| 0 <= i < lines.len() && (#[trigger] lines[i]).0.field is Some implies
        lines[i].1.form is Some && rule_for(lines[i].1.form->0) == rule_of(
        lines[i].0.field->0,
    ) by {
        assert(is_shaped(lines[i], version));
    }
}

type Out = Result<Seq<Entry>, RenderFault>;

/// A step that writes a form, where there is one, adds it to what the lines say.
proof fn lemma_with(
    out: Out,
    version: WarcVersion,
    field: Field,
    form: Option<Form>,
    next: Out,
)
    requires
        next == (match form {
            Some(form) => with_form(out, version, field, form),
            None => out,
        }),
        next is Ok,
        form matches Some(form) ==> rule_for(form) == rule_of(field),
    ensures
        out is Ok,
        found(next->Ok_0) == plus(found(out->Ok_0), field, form),
        all_shaped(out->Ok_0, version) ==> all_shaped(next->Ok_0, version),
{
    match form {
        Some(form) => {
            let lines = out->Ok_0;
            let line = line_for(field, form);
            let longer = lines.push(line);
            assert(longer.drop_last() =~= lines);
            assert(longer.last() == line);
        },
        None => {},
    }
}

/// What lines say with further ones for the URIs of concurrent records.
pub open spec fn plus_uris(before: Found, bracketed: bool, uris: Seq<Seq<char>>) -> Found
    decreases uris.len(),
{
    if uris.len() == 0 {
        before
    } else {
        plus(
            plus_uris(before, bracketed, uris.drop_last()),
            Field::ConcurrentTo,
            Some(Form::Uri(uris.last(), bracketed)),
        )
    }
}

/// What further lines for concurrent records add to what the lines say.
proof fn lemma_plus_uris(before: Found, bracketed: bool, uris: Seq<Seq<char>>)
    ensures
        plus_uris(before, bracketed, uris) == (Found {
            forms: if uris.len() == 0 || before.forms.dom().contains(Field::ConcurrentTo) {
                before.forms
            } else {
                before.forms.insert(Field::ConcurrentTo, Form::Uri(uris[0], bracketed))
            },
            concurrent: before.concurrent + uris,
            texts: before.texts,
        }),
    decreases uris.len(),
{
    if uris.len() > 0 {
        let shorter = uris.drop_last();
        lemma_plus_uris(before, bracketed, shorter);
        assert(before.concurrent + uris =~= (before.concurrent + shorter).push(uris.last()));
    } else {
        assert(before.concurrent + uris =~= before.concurrent);
    }
}

/// A step that writes URIs of concurrent records adds them to what the lines say.
proof fn lemma_with_uris(out: Out, version: WarcVersion, uris: Seq<Seq<char>>)
    requires
        with_uris(out, version, Field::ConcurrentTo, uris) is Ok,
    ensures
        out is Ok,
        found(with_uris(out, version, Field::ConcurrentTo, uris)->Ok_0) == plus_uris(
            found(out->Ok_0),
            true,
            uris,
        ),
        all_shaped(out->Ok_0, version) ==> all_shaped(
            with_uris(out, version, Field::ConcurrentTo, uris)->Ok_0,
            version,
        ),
    decreases uris.len(),
{
    if uris.len() > 0 {
        let shorter = uris.drop_last();
        let middle = with_uris(out, version, Field::ConcurrentTo, shorter);
        lemma_with(
            middle,
            version,
            Field::ConcurrentTo,
            Some(Form::Uri(uris.last(), true)),
            with_uri(middle, version, Field::ConcurrentTo, Some(uris.last())),
        );
        lemma_with_uris(out, version, shorter);
    }
}

proof fn lemma_texts_push(lines: Seq<Entry>, line: Entry, i: int)
    requires
        0 <= i <= lines.len(),
        texts_from(lines, i) is Ok,
        valid_utf8(unfolded(line.1.octets)),
    ensures
        texts_from(lines.push(line), i) == Ok::<Lines, Seq<char>>(
            texts_from(lines, i)->Ok_0.push((line.0.name, decode_utf8(unfolded(line.1.octets)))),
        ),
    decreases lines.len() - i,
{
    let longer = lines.push(line);
    if i < lines.len() {
        lemma_texts_push(lines, line, i + 1);
        assert(longer[i] == lines[i]);
        let first = (lines[i].0.name, decode_utf8(unfolded(lines[i].1.octets)));
        let rest = texts_from(lines, i + 1)->Ok_0;
        let last = (line.0.name, decode_utf8(unfolded(line.1.octets)));
        assert(seq![first] + rest.push(last) =~= (seq![first] + rest).push(last));
    } else {
        assert(longer[i] == line);
        assert(texts_from(longer, i + 1) == Ok::<Lines, Seq<char>>(Seq::empty()));
        let last = (line.0.name, decode_utf8(unfolded(line.1.octets)));
        assert(seq![last] + Seq::<(Seq<char>, Seq<char>)>::empty() =~= Seq::<
            (Seq<char>, Seq<char>),
        >::empty().push(last));
    }
}

/// Whether white space neither opens nor closes the values of lines.
pub open spec fn all_trim(lines: Lines) -> bool {
    forall|i: int| 0 <= i < lines.len() ==> is_trim(octets((#[trigger] lines[i]).1))
}

/// A step that writes lines that the standard does not name adds them to what the lines say.
proof fn lemma_with_lines(out: Out, version: WarcVersion, lines: Lines)
    requires
        with_lines(out, version, false, lines) is Ok,
        all_trim(lines),
    ensures
        out is Ok,
        ({
            let next = with_lines(out, version, false, lines)->Ok_0;
            let before = found(out->Ok_0);
            &&& found(next).forms == before.forms
            &&& found(next).concurrent == before.concurrent
            &&& before.texts is Ok ==> found(next).texts == Ok::<Lines, Seq<char>>(
                before.texts->Ok_0 + lines,
            )
            &&& all_shaped(out->Ok_0, version) ==> all_shaped(next, version)
        }),
    decreases lines.len(),
{
    if lines.len() > 0 {
        let shorter = lines.drop_last();
        assert forall|i: int| 0 <= i < shorter.len() implies is_trim(
            octets((#[trigger] shorter[i]).1),
        ) by {
            assert(shorter[i] == lines[i]);
        }
        let middle = with_lines(out, version, false, shorter);
        let (name, value) = lines.last();
        assert(lines[lines.len() - 1] == lines.last());
        lemma_with_lines(out, version, shorter);
        let before = middle->Ok_0;
        let next = with_line(middle, version, false, (name, value))->Ok_0;
        let line = next.last();
        assert(next.drop_last() =~= before);
        assert(line.0 == (Named { field: None, name }));
        assert(line.1.octets == spelled_value(octets(value)));
        assert(is_sound(line, version));
        let s = octets(value);
        assert forall|j: int| 0 <= j < s.len() implies #[trigger] s[j] != 0x0a by {}
        if s.len() > 0 {
            assert(!crate::octets::is_white(s[0]));
        }
        lemma_unfolded_same(seq![0x20u8], s);
        encode_utf8_valid_utf8(value);
        encode_utf8_decode_utf8(value);
        if found(out->Ok_0).texts is Ok {
            lemma_texts_push(plain(before), line, 0);
            assert(found(out->Ok_0).texts->Ok_0 + lines =~= (found(out->Ok_0).texts->Ok_0
                + shorter).push(lines.last()));
        }
    } else {
        if found(out->Ok_0).texts is Ok {
            assert(found(out->Ok_0).texts->Ok_0 + lines =~= found(out->Ok_0).texts->Ok_0);
        }
    }
}

/// What ordered lines say is what they said before.
proof fn lemma_ordered_says(lines: Seq<Entry>, version: WarcVersion)
    requires
        all_shaped(lines, version),
        repeated_from(lines, 0) is None,
        forall|i: int| 0 <= i < lines.len() ==> is_faithful_line(#[trigger] lines[i], version),
    ensures
        all_sound(ordered(lines), version),
        is_well_formed(ordered(lines)),
        repeated_from(ordered(lines), 0) is None,
        undefined_from(ordered(lines), version, 0) is None,
        forall|field: Field|
            #[trigger] form_in(ordered(lines), field) == if table(lines).dom().contains(field) {
                Some(table(lines)[field])
            } else {
                None
            },
        uris_in(ordered(lines), Field::ConcurrentTo) == uris_in(lines, Field::ConcurrentTo),
        plain(ordered(lines)) == plain(lines),
{
    let sorted = ordered(lines);
    assert forall|i: int| 0 <= i < sorted.len() implies is_sound(#[trigger] sorted[i], version) by {
        lemma_ordered_entries(lines, (FIELD_COUNT + 1) as nat, i);
        let k = choose|k: int| 0 <= k < lines.len() && lines[k] == sorted[i];
        assert(is_shaped(lines[k], version));
        assert(is_faithful_line(lines[k], version));
        lemma_sound(lines[k], version);
    }
    assert forall|i: int| 0 <= i < sorted.len() implies is_shaped(#[trigger] sorted[i], version) by {
        assert(is_sound(sorted[i], version));
    }
    lemma_shaped_well_formed(sorted, version);
    lemma_shaped_well_formed(lines, version);
    lemma_defined(sorted, version, 0);
    assert forall|field: Field|
        #![trigger field.rank()]
        !is_repeatable(field) implies ranked(sorted, field.rank()).len() <= 1 by {
        lemma_field_is_named(field);
        lemma_ranked_ordered(lines, field.rank());
        lemma_unrepeated_ranked(lines, field);
    }
    lemma_unrepeated(sorted, 0);
    assert forall|field: Field|
        #[trigger] form_in(sorted, field) == if table(lines).dom().contains(field) {
            Some(table(lines)[field])
        } else {
            None
        } by {
        lemma_field_is_named(field);
        lemma_ranked_ordered(lines, field.rank());
        lemma_form_ranked(sorted, field);
        lemma_form_ranked(lines, field);
        lemma_table(lines, field);
    }
    let field = Field::ConcurrentTo;
    lemma_field_is_named(field);
    lemma_ranked_ordered(lines, field.rank());
    lemma_uris_ranked(sorted, field);
    lemma_uris_ranked(lines, field);
    lemma_ranked_ordered(lines, FIELD_COUNT as int);
    lemma_plain_ranked(sorted);
    lemma_plain_ranked(lines);
}

/// What a digest is written as, where there is one.
spec fn digest_form(digest: Option<Labelled>) -> Option<Form> {
    match digest {
        Some(digest) => Some(Form::Digest(digest)),
        None => None,
    }
}

/// What a media type is written as, where there is one.
spec fn media_form(media: Option<Media>) -> Option<Form> {
    match media {
        Some(media) => Some(Form::MediaType(media)),
        None => None,
    }
}

/// What a URI is written as, where there is one.
spec fn uri_form(version: WarcVersion, field: Field, uri: Option<Seq<char>>) -> Option<Form> {
    match uri {
        Some(uri) => Some(Form::Uri(uri, is_bracketed_in(version, field))),
        None => None,
    }
}

/// What a number is written as, where there is one.
spec fn digits_form(number: Option<nat>) -> Option<Form> {
    match number {
        Some(number) => Some(Form::Digits(number)),
        None => None,
    }
}

/// What an address is written as, where there is one.
spec fn address_form(address: Option<IpAddress>) -> Option<Form> {
    match address {
        Some(address) => Some(Form::IpAddress(address)),
        None => None,
    }
}

/// What a date is written as, where there is one.
spec fn date_form(date: Option<Date>) -> Option<Form> {
    match date {
        Some(date) => Some(Form::Date(date)),
        None => None,
    }
}

/// What a token is written as, where there is one.
spec fn token_form(token: Option<Seq<char>>) -> Option<Form> {
    match token {
        Some(token) => Some(Form::Token(token)),
        None => None,
    }
}

/// What a text is written as, where there is one.
spec fn text_form(content: Option<Content>) -> Option<Form> {
    match content {
        Some(content) => Some(Form::Text(content)),
        None => None,
    }
}

/// Whether what lines say of a field is a form, where there is one.
spec fn holds(found: Found, field: Field, form: Option<Form>) -> bool {
    match form {
        Some(form) => found.forms.dom().contains(field) && found.forms[field] == form,
        None => !found.forms.dom().contains(field),
    }
}

/// The token of a truncation reason, where there is one.
pub open spec fn reason_token<E: Extension>(core: CoreHeaders<E>) -> Option<Seq<char>> {
    match core.truncated {
        Some(reason) => Some(reason.token()),
        None => None,
    }
}

/// What the lines of the fields that every record carries say.
spec fn plus_shared<E: Extension>(
    record: Record<E>,
    before: Found,
    digest: Option<Labelled>,
) -> Found {
    let version = record.declared_version();
    let core = record.core_headers();
    let kind = plus(before, Field::WarcType, Some(Form::Token(kind_name(record.kind()))));
    let id = plus(
        kind,
        Field::RecordID,
        Some(Form::Uri(core.record_id@, is_bracketed_in(version, Field::RecordID))),
    );
    let date = plus(id, Field::Date, Some(Form::Date(core.date@)));
    let length = plus(date, Field::ContentLength, Some(Form::Digits(record.block().len())));
    let digest = plus(length, Field::BlockDigest, digest_form(digest));
    let media = plus(digest, Field::ContentType, media_form(shown(core.content_type)));
    plus(media, Field::Truncated, token_form(reason_token(core)))
}

/// Writing the fields that every record carries adds them to what the lines say.
#[verifier::spinoff_prover]
proof fn lemma_shared<E: Extension>(record: Record<E>, out: Out, digest: Option<Labelled>)
    requires
        record.with_shared(out, digest) is Ok,
        !(record is Other),
        all_trim(lines_of(record.core_headers().unrecognized@)),
    ensures
        out is Ok,
        fits_version(record.core_headers().date@, record.declared_version()),
        ({
            let before = found(out->Ok_0);
            let after = found(record.with_shared(out, digest)->Ok_0);
            let all = plus_shared(record, before, digest);
            &&& after.forms == all.forms
            &&& after.concurrent == all.concurrent
            &&& before.texts is Ok ==> after.texts == Ok::<Lines, Seq<char>>(
                before.texts->Ok_0 + lines_of(record.core_headers().unrecognized@),
            )
            &&& all_shaped(out->Ok_0, record.declared_version()) ==> all_shaped(
                record.with_shared(out, digest)->Ok_0,
                record.declared_version(),
            )
        }),
{
    let version = record.declared_version();
    let core = record.core_headers();
    let name = kind_name(record.kind());
    let kind = with_token(out, version, Field::WarcType, Some(name));
    let id = with_uri(kind, version, Field::RecordID, Some(core.record_id@));
    let date = with_date(id, version, Field::Date, Some(core.date@));
    let length = with_digits(date, version, Field::ContentLength, Some(record.block().len()));
    let block = with_digest(length, version, Field::BlockDigest, digest);
    let media = with_media_type(block, version, Field::ContentType, shown(core.content_type));
    let truncated = with_token(media, version, Field::Truncated, reason_token(core));
    lemma_with_lines(truncated, version, lines_of(core.unrecognized@));
    lemma_with(media, version, Field::Truncated, token_form(reason_token(core)), truncated);
    lemma_with(block, version, Field::ContentType, media_form(shown(core.content_type)), media);
    lemma_with(length, version, Field::BlockDigest, digest_form(digest), block);
    lemma_with(
        date,
        version,
        Field::ContentLength,
        digits_form(Some(record.block().len())),
        length,
    );
    lemma_with(id, version, Field::Date, date_form(Some(core.date@)), date);
    lemma_with(
        kind,
        version,
        Field::RecordID,
        uri_form(version, Field::RecordID, Some(core.record_id@)),
        id,
    );
    lemma_with(out, version, Field::WarcType, token_form(Some(name)), kind);
}

/// Whether nothing is said of the fields that every record carries.
spec fn is_bare(before: Found) -> bool {
    &&& !before.forms.dom().contains(Field::WarcType)
    &&& !before.forms.dom().contains(Field::RecordID)
    &&& !before.forms.dom().contains(Field::Date)
    &&& !before.forms.dom().contains(Field::ContentLength)
    &&& !before.forms.dom().contains(Field::BlockDigest)
    &&& !before.forms.dom().contains(Field::ContentType)
    &&& !before.forms.dom().contains(Field::Truncated)
}

/// Whether the reason that a record gives for its truncation is the one that its token names.
pub open spec fn is_named_reason<E: Extension>(core: CoreHeaders<E>) -> bool {
    core.truncated matches Some(reason) ==> (reason is Extension || reason is Unknown
        ==> reason.is_named(reason.token()))
}

/// The fields that every record carries are read back.
#[verifier::spinoff_prover]
#[verifier::rlimit(40)]
proof fn lemma_core_reads<E: Extension>(record: Record<E>, lines: Seq<Entry>, before: Found)
    requires
        !(record is Other),
        all_shaped(lines, record.declared_version()),
        repeated_from(lines, 0) is None,
        forall|i: int|
            0 <= i < lines.len() ==> is_faithful_line(
                #[trigger] lines[i],
                record.declared_version(),
            ),
        is_bare(before),
        table(lines) == plus_shared(
            record,
            before,
            shown(record.core_headers().block_digest),
        ).forms,
        fits_version(record.core_headers().date@, record.declared_version()),
        record.block().len() <= u64::MAX,
        is_named_reason(record.core_headers()),
    ensures
        all_sound(ordered(lines), record.declared_version()),
        is_well_formed(ordered(lines)),
        shared_fault(record.declared_version(), ordered(lines)) is None,
        kind_in(ordered(lines)) == record.kind(),
        with_length(record.core_headers(), record.block().len() as u64).reads(ordered(lines)),
        forall|field: Field|
            !shared_fields().contains(field) ==> #[trigger] form_in(ordered(lines), field)
                == if before.forms.dom().contains(
                field,
            ) {
                Some(before.forms[field])
            } else {
                None
            },
        uris_in(ordered(lines), Field::ConcurrentTo) == uris_in(lines, Field::ConcurrentTo),
        plain(ordered(lines)) == plain(lines),
{
    let version = record.declared_version();
    let core = record.core_headers();
    let sorted = ordered(lines);
    lemma_ordered_says(lines, version);
    lemma_kind_is_named(record.kind());
    match core.truncated {
        Some(reason) => {
            if !(reason is Extension || reason is Unknown) {
                lemma_standard_reason(reason);
            }
        },
        None => {},
    }
    assert(form_in(sorted, Field::WarcType) == Some(Form::Token(kind_name(record.kind()))));
    assert(form_in(sorted, Field::RecordID) == Some(
        Form::Uri(core.record_id@, is_bracketed_in(version, Field::RecordID)),
    ));
    assert(form_in(sorted, Field::Date) == Some(Form::Date(core.date@)));
    assert(form_in(sorted, Field::ContentLength) == Some(Form::Digits(record.block().len())));
    assert(form_in(sorted, Field::BlockDigest) == digest_form(shown(core.block_digest)));
    assert(form_in(sorted, Field::ContentType) == media_form(shown(core.content_type)));
    assert(form_in(sorted, Field::Truncated) == token_form(reason_token(core)));
    assert forall|field: Field| !shared_fields().contains(field) implies #[trigger] form_in(
        sorted,
        field,
    ) == if before.forms.dom().contains(field) {
        Some(before.forms[field])
    } else {
        None
    } by {}
}

/// No lines say nothing.
proof fn lemma_found_nothing()
    ensures
        found(Seq::empty()).forms == Map::<Field, Form>::empty(),
        found(Seq::empty()).concurrent == Seq::<Seq<char>>::empty(),
        found(Seq::empty()).texts == Ok::<Lines, Seq<char>>(Seq::empty()),
{
}

/// The number of the first segment, for the origin of a series.
spec fn origin_number(origin: bool) -> Option<nat> {
    if origin {
        Some(1nat)
    } else {
        None
    }
}

/// What the lines of a capture's own fields say.
#[verifier::spinoff_prover]
#[verifier::rlimit(60)]
proof fn lemma_capture_says(
    version: WarcVersion,
    digest: Option<Labelled>,
    media: Option<Media>,
    target: Seq<char>,
    warcinfo: Option<Seq<char>>,
    address: Option<IpAddress>,
    concurrent: Seq<Seq<char>>,
    origin: bool,
    other: Lines,
    kind: Kind,
)
    requires
        kind is Response || kind is Resource || kind is Request,
        with_capture(
            Ok(Seq::empty()),
            version,
            digest,
            media,
            target,
            warcinfo,
            address,
            concurrent,
            origin,
            other,
        ) is Ok,
        all_trim(other),
    ensures
        ({
            let after = found(with_capture(
            Ok(Seq::empty()),
            version,
            digest,
            media,
            target,
            warcinfo,
            address,
            concurrent,
            origin,
            other,
        )->Ok_0);
            &&& all_shaped(with_capture(
            Ok(Seq::empty()),
            version,
            digest,
            media,
            target,
            warcinfo,
            address,
            concurrent,
            origin,
            other,
        )->Ok_0, version)
            &&& holds(after, Field::PayloadDigest, digest_form(digest))
            &&& holds(after, Field::IdentifiedPayloadType, media_form(media))
            &&& holds(after, Field::TargetURI, uri_form(version, Field::TargetURI, Some(target)))
            &&& holds(after, Field::WarcinfoID, uri_form(version, Field::WarcinfoID, warcinfo))
            &&& holds(after, Field::IPAddress, address_form(address))
            &&& holds(after, Field::SegmentNumber, digits_form(origin_number(origin)))
            &&& after.concurrent == concurrent
            &&& after.texts == Ok::<Lines, Seq<char>>(other)
            &&& is_bare(after)
            &&& forall|field: Field| #[trigger]
                after.forms.dom().contains(field) ==> is_permitted(kind, field)
        }),
{
    let start: Out = Ok(Seq::empty());
    let s0 = start;
    let s1 = with_digest(s0, version, Field::PayloadDigest, digest);
    let s2 = with_media_type(s1, version, Field::IdentifiedPayloadType, media);
    let s3 = with_uri(s2, version, Field::TargetURI, Some(target));
    let s4 = with_uri(s3, version, Field::WarcinfoID, warcinfo);
    let s5 = with_address(s4, version, address);
    let s6 = with_uris(s5, version, Field::ConcurrentTo, concurrent);
    let s7 = with_digits(s6, version, Field::SegmentNumber, origin_number(origin));
    lemma_with_lines(s7, version, other);
    lemma_with(s6, version, Field::SegmentNumber, digits_form(origin_number(origin)), s7);
    lemma_with_uris(s5, version, concurrent);
    lemma_plus_uris(found(s5->Ok_0), true, concurrent);
    lemma_with(s4, version, Field::IPAddress, address_form(address), s5);
    lemma_with(s3, version, Field::WarcinfoID, uri_form(version, Field::WarcinfoID, warcinfo), s4);
    lemma_with(
        s2,
        version,
        Field::TargetURI,
        uri_form(version, Field::TargetURI, Some(target)),
        s3,
    );
    lemma_with(s1, version, Field::IdentifiedPayloadType, media_form(media), s2);
    lemma_with(s0, version, Field::PayloadDigest, digest_form(digest), s1);
    lemma_found_nothing();
    assert(Seq::<(Seq<char>, Seq<char>)>::empty() + other =~= other);
    assert(Seq::<Seq<char>>::empty() + concurrent =~= concurrent);
}

/// What the lines of a `warcinfo` record's own fields say.
#[verifier::spinoff_prover]
#[verifier::rlimit(60)]
proof fn lemma_warcinfo_says<E: Extension>(
    record: Record<E>,
    header: WarcinfoHeader<E>,
    version: WarcVersion,
    other: Lines,
)
    requires
        record.header() == RecordHeader::Warcinfo(header),
        version == header.version,
        other == header.other.written(),
        record.with_own(Ok(Seq::empty()), declared_payload_digest(record)) is Ok,
        all_trim(other),
    ensures
        ({
            let after = found(
                record.with_own(Ok(Seq::empty()), declared_payload_digest(record))->Ok_0,
            );
            &&& all_shaped(
                record.with_own(Ok(Seq::empty()), declared_payload_digest(record))->Ok_0,
                version,
            )
            &&& holds(after, Field::Filename, text_form(shown(header.filename)))
            &&& holds(
                after,
                Field::SegmentNumber,
                digits_form(origin_number(header.segment_origin)),
            )
            &&& after.concurrent == Seq::<Seq<char>>::empty()
            &&& after.texts == Ok::<Lines, Seq<char>>(other)
            &&& is_bare(after)
            &&& forall|field: Field| #[trigger]
                after.forms.dom().contains(field) ==> is_permitted(Kind::Warcinfo, field)
        }),
{
    let start: Out = Ok(Seq::empty());
    let s0 = start;
    let s1 = with_text(s0, version, Field::Filename, shown(header.filename));
    let s2 = with_digits(s1, version, Field::SegmentNumber, origin_number(header.segment_origin));
    lemma_with_lines(s2, version, other);
    lemma_with(
        s1,
        version,
        Field::SegmentNumber,
        digits_form(origin_number(header.segment_origin)),
        s2,
    );
    lemma_with(s0, version, Field::Filename, text_form(shown(header.filename)), s1);
    lemma_found_nothing();
    assert(Seq::<(Seq<char>, Seq<char>)>::empty() + other =~= other);
}

/// What the lines of a `metadata` record's own fields say.
#[verifier::spinoff_prover]
#[verifier::rlimit(60)]
proof fn lemma_metadata_says<E: Extension>(
    record: Record<E>,
    header: MetadataHeader<E>,
    version: WarcVersion,
    other: Lines,
)
    requires
        record.header() == RecordHeader::Metadata(header),
        version == header.version,
        other == header.other.written(),
        record.with_own(Ok(Seq::empty()), declared_payload_digest(record)) is Ok,
        all_trim(other),
    ensures
        ({
            let after = found(
                record.with_own(Ok(Seq::empty()), declared_payload_digest(record))->Ok_0,
            );
            &&& all_shaped(
                record.with_own(Ok(Seq::empty()), declared_payload_digest(record))->Ok_0,
                version,
            )
            &&& holds(
                after,
                Field::TargetURI,
                uri_form(version, Field::TargetURI, shown(header.target_uri)),
            )
            &&& holds(
                after,
                Field::WarcinfoID,
                uri_form(version, Field::WarcinfoID, shown(header.warcinfo_id)),
            )
            &&& holds(after, Field::IPAddress, address_form(header.ip_address))
            &&& holds(
                after,
                Field::RefersTo,
                uri_form(version, Field::RefersTo, shown(header.refers_to)),
            )
            &&& holds(
                after,
                Field::SegmentNumber,
                digits_form(origin_number(header.segment_origin)),
            )
            &&& after.concurrent == uri_texts(header.concurrent_to@)
            &&& after.texts == Ok::<Lines, Seq<char>>(other)
            &&& is_bare(after)
            &&& forall|field: Field| #[trigger]
                after.forms.dom().contains(field) ==> is_permitted(Kind::Metadata, field)
        }),
{
    let start: Out = Ok(Seq::empty());
    let s0 = start;
    let s1 = with_uri(s0, version, Field::TargetURI, shown(header.target_uri));
    let s2 = with_uri(s1, version, Field::WarcinfoID, shown(header.warcinfo_id));
    let s3 = with_address(s2, version, header.ip_address);
    let s4 = with_uris(s3, version, Field::ConcurrentTo, uri_texts(header.concurrent_to@));
    let s5 = with_uri(s4, version, Field::RefersTo, shown(header.refers_to));
    let s6 = with_digits(s5, version, Field::SegmentNumber, origin_number(header.segment_origin));
    lemma_with_lines(s6, version, other);
    lemma_with(
        s5,
        version,
        Field::SegmentNumber,
        digits_form(origin_number(header.segment_origin)),
        s6,
    );
    lemma_with(
        s4,
        version,
        Field::RefersTo,
        uri_form(version, Field::RefersTo, shown(header.refers_to)),
        s5,
    );
    lemma_with_uris(s3, version, uri_texts(header.concurrent_to@));
    lemma_plus_uris(found(s3->Ok_0), true, uri_texts(header.concurrent_to@));
    lemma_with(s2, version, Field::IPAddress, address_form(header.ip_address), s3);
    lemma_with(
        s1,
        version,
        Field::WarcinfoID,
        uri_form(version, Field::WarcinfoID, shown(header.warcinfo_id)),
        s2,
    );
    lemma_with(
        s0,
        version,
        Field::TargetURI,
        uri_form(version, Field::TargetURI, shown(header.target_uri)),
        s1,
    );
    lemma_found_nothing();
    assert(Seq::<(Seq<char>, Seq<char>)>::empty() + other =~= other);
    assert(
        Seq::<Seq<char>>::empty() + uri_texts(
            header.concurrent_to@,
        ) =~= uri_texts(header.concurrent_to@)
    );
}

/// What the lines of a `conversion` record's own fields say.
#[verifier::spinoff_prover]
#[verifier::rlimit(60)]
proof fn lemma_conversion_says<E: Extension>(
    record: Record<E>,
    header: ConversionHeader<E>,
    version: WarcVersion,
    other: Lines,
)
    requires
        record.header() == RecordHeader::Conversion(header),
        version == header.version,
        other == header.other.written(),
        record.with_own(Ok(Seq::empty()), declared_payload_digest(record)) is Ok,
        all_trim(other),
    ensures
        ({
            let after = found(
                record.with_own(Ok(Seq::empty()), declared_payload_digest(record))->Ok_0,
            );
            &&& all_shaped(
                record.with_own(Ok(Seq::empty()), declared_payload_digest(record))->Ok_0,
                version,
            )
            &&& holds(
                after,
                Field::PayloadDigest,
                digest_form(shown(header.payload.payload_digest)),
            )
            &&& holds(
                after,
                Field::IdentifiedPayloadType,
                media_form(shown(header.payload.identified_payload_type)),
            )
            &&& holds(
                after,
                Field::TargetURI,
                uri_form(version, Field::TargetURI, Some(header.target_uri@)),
            )
            &&& holds(
                after,
                Field::WarcinfoID,
                uri_form(version, Field::WarcinfoID, shown(header.warcinfo_id)),
            )
            &&& holds(
                after,
                Field::RefersTo,
                uri_form(version, Field::RefersTo, shown(header.refers_to)),
            )
            &&& holds(
                after,
                Field::SegmentNumber,
                digits_form(origin_number(header.segment_origin)),
            )
            &&& after.concurrent == Seq::<Seq<char>>::empty()
            &&& after.texts == Ok::<Lines, Seq<char>>(other)
            &&& is_bare(after)
            &&& forall|field: Field| #[trigger]
                after.forms.dom().contains(field) ==> is_permitted(Kind::Conversion, field)
        }),
{
    let start: Out = Ok(Seq::empty());
    let s0 = start;
    let s1 = with_digest(s0, version, Field::PayloadDigest, shown(header.payload.payload_digest));
    let s2 = with_media_type(
        s1,
        version,
        Field::IdentifiedPayloadType,
        shown(header.payload.identified_payload_type),
    );
    let s3 = with_uri(s2, version, Field::TargetURI, Some(header.target_uri@));
    let s4 = with_uri(s3, version, Field::WarcinfoID, shown(header.warcinfo_id));
    let s5 = with_uri(s4, version, Field::RefersTo, shown(header.refers_to));
    let s6 = with_digits(s5, version, Field::SegmentNumber, origin_number(header.segment_origin));
    lemma_with_lines(s6, version, other);
    lemma_with(
        s5,
        version,
        Field::SegmentNumber,
        digits_form(origin_number(header.segment_origin)),
        s6,
    );
    lemma_with(
        s4,
        version,
        Field::RefersTo,
        uri_form(version, Field::RefersTo, shown(header.refers_to)),
        s5,
    );
    lemma_with(
        s3,
        version,
        Field::WarcinfoID,
        uri_form(version, Field::WarcinfoID, shown(header.warcinfo_id)),
        s4,
    );
    lemma_with(
        s2,
        version,
        Field::TargetURI,
        uri_form(version, Field::TargetURI, Some(header.target_uri@)),
        s3,
    );
    lemma_with(
        s1,
        version,
        Field::IdentifiedPayloadType,
        media_form(shown(header.payload.identified_payload_type)),
        s2,
    );
    lemma_with(
        s0,
        version,
        Field::PayloadDigest,
        digest_form(shown(header.payload.payload_digest)),
        s1,
    );
    lemma_found_nothing();
    assert(Seq::<(Seq<char>, Seq<char>)>::empty() + other =~= other);
}

/// What the lines of a `continuation` record's own fields say.
#[verifier::spinoff_prover]
#[verifier::rlimit(60)]
proof fn lemma_continuation_says<E: Extension>(
    record: Record<E>,
    header: ContinuationHeader<E>,
    version: WarcVersion,
    other: Lines,
)
    requires
        record.header() == RecordHeader::Continuation(header),
        version == header.version,
        other == header.other.written(),
        record.with_own(Ok(Seq::empty()), declared_payload_digest(record)) is Ok,
        all_trim(other),
    ensures
        ({
            let after = found(
                record.with_own(Ok(Seq::empty()), declared_payload_digest(record))->Ok_0,
            );
            &&& all_shaped(
                record.with_own(Ok(Seq::empty()), declared_payload_digest(record))->Ok_0,
                version,
            )
            &&& holds(
                after,
                Field::PayloadDigest,
                digest_form(shown(header.payload.payload_digest)),
            )
            &&& holds(
                after,
                Field::IdentifiedPayloadType,
                media_form(shown(header.payload.identified_payload_type)),
            )
            &&& holds(
                after,
                Field::TargetURI,
                uri_form(version, Field::TargetURI, Some(header.target_uri@)),
            )
            &&& holds(
                after,
                Field::WarcinfoID,
                uri_form(version, Field::WarcinfoID, shown(header.warcinfo_id)),
            )
            &&& holds(after, Field::SegmentNumber, digits_form(Some(header.segment_number@)))
            &&& holds(
                after,
                Field::SegmentOriginID,
                uri_form(version, Field::SegmentOriginID, Some(header.segment_origin_id@)),
            )
            &&& holds(
                after,
                Field::SegmentTotalLength,
                digits_form(number_of(header.segment_total_length)),
            )
            &&& after.concurrent == Seq::<Seq<char>>::empty()
            &&& after.texts == Ok::<Lines, Seq<char>>(other)
            &&& is_bare(after)
            &&& forall|field: Field| #[trigger]
                after.forms.dom().contains(field) ==> is_permitted(Kind::Continuation, field)
        }),
{
    let start: Out = Ok(Seq::empty());
    let s0 = start;
    let s1 = with_digest(s0, version, Field::PayloadDigest, shown(header.payload.payload_digest));
    let s2 = with_media_type(
        s1,
        version,
        Field::IdentifiedPayloadType,
        shown(header.payload.identified_payload_type),
    );
    let s3 = with_uri(s2, version, Field::TargetURI, Some(header.target_uri@));
    let s4 = with_uri(s3, version, Field::WarcinfoID, shown(header.warcinfo_id));
    let s5 = with_digits(s4, version, Field::SegmentNumber, Some(header.segment_number@));
    let s6 = with_uri(s5, version, Field::SegmentOriginID, Some(header.segment_origin_id@));
    let s7 = with_digits(
        s6,
        version,
        Field::SegmentTotalLength,
        number_of(header.segment_total_length),
    );
    lemma_with_lines(s7, version, other);
    lemma_with(
        s6,
        version,
        Field::SegmentTotalLength,
        digits_form(number_of(header.segment_total_length)),
        s7,
    );
    lemma_with(
        s5,
        version,
        Field::SegmentOriginID,
        uri_form(version, Field::SegmentOriginID, Some(header.segment_origin_id@)),
        s6,
    );
    lemma_with(s4, version, Field::SegmentNumber, digits_form(Some(header.segment_number@)), s5);
    lemma_with(
        s3,
        version,
        Field::WarcinfoID,
        uri_form(version, Field::WarcinfoID, shown(header.warcinfo_id)),
        s4,
    );
    lemma_with(
        s2,
        version,
        Field::TargetURI,
        uri_form(version, Field::TargetURI, Some(header.target_uri@)),
        s3,
    );
    lemma_with(
        s1,
        version,
        Field::IdentifiedPayloadType,
        media_form(shown(header.payload.identified_payload_type)),
        s2,
    );
    lemma_with(
        s0,
        version,
        Field::PayloadDigest,
        digest_form(shown(header.payload.payload_digest)),
        s1,
    );
    lemma_found_nothing();
    assert(Seq::<(Seq<char>, Seq<char>)>::empty() + other =~= other);
}

/// The lines of a `revisit` record's own fields, up to its `warcinfo` record.
#[verifier::opaque]
spec fn revisit_opening<E: Extension>(header: RevisitHeader<E>, digest: Option<Labelled>) -> Out {
    let version = header.version;
    let payload = with_payload(
        Ok(Seq::empty()),
        version,
        digest,
        shown(header.payload.identified_payload_type),
    );
    let target = with_uri(payload, version, Field::TargetURI, Some(header.target_uri@));
    with_uri(target, version, Field::WarcinfoID, shown(header.warcinfo_id))
}

/// Lines with those of a `revisit` record's profile, address, and concurrent records.
#[verifier::opaque]
spec fn revisit_middle<E: Extension>(out: Out, header: RevisitHeader<E>) -> Out {
    let version = header.version;
    let profile = with_profile(out, version, header.profile@);
    let address = with_address(profile, version, header.ip_address);
    with_uris(address, version, Field::ConcurrentTo, uri_texts(header.concurrent_to@))
}

/// Lines with those of what a `revisit` record refers to, and of its segment.
#[verifier::opaque]
spec fn revisit_closing<E: Extension>(out: Out, header: RevisitHeader<E>) -> Out {
    let version = header.version;
    let refers = with_uri(out, version, Field::RefersTo, shown(header.refers_to));
    let uri = with_uri(
        refers,
        version,
        Field::RefersToTargetURI,
        shown(header.refers_to_target_uri),
    );
    let date = with_date(uri, version, Field::RefersToDate, shown(header.refers_to_date));
    with_origin(date, version, header.segment_origin)
}

/// What the opening lines of a `revisit` record say.
spec fn revisit_opens<E: Extension>(
    after: Found,
    header: RevisitHeader<E>,
    version: WarcVersion,
    digest: Option<Labelled>,
) -> bool {
    &&& holds(after, Field::PayloadDigest, digest_form(digest))
    &&& holds(
        after,
        Field::IdentifiedPayloadType,
        media_form(shown(header.payload.identified_payload_type)),
    )
    &&& holds(
        after,
        Field::TargetURI,
        uri_form(version, Field::TargetURI, Some(header.target_uri@)),
    )
    &&& holds(
        after,
        Field::WarcinfoID,
        uri_form(version, Field::WarcinfoID, shown(header.warcinfo_id)),
    )
    &&& after.concurrent == Seq::<Seq<char>>::empty()
    &&& after.texts == Ok::<Lines, Seq<char>>(Seq::empty())
    &&& forall|field: Field| #[trigger]
        after.forms.dom().contains(field) ==> field is PayloadDigest
            || field is IdentifiedPayloadType || field is TargetURI || field is WarcinfoID
}

/// What a `revisit` record's lines for its profile, address, and concurrent records add.
spec fn revisit_follows<E: Extension>(
    before: Found,
    after: Found,
    header: RevisitHeader<E>,
    version: WarcVersion,
    uri: Seq<char>,
) -> bool {
    &&& !before.forms.dom().contains(Field::Profile) ==> holds(
        after,
        Field::Profile,
        uri_form(version, Field::Profile, Some(uri)),
    )
    &&& !before.forms.dom().contains(Field::IPAddress) ==> holds(
        after,
        Field::IPAddress,
        address_form(header.ip_address),
    )
    &&& after.concurrent == before.concurrent + uri_texts(header.concurrent_to@)
    &&& after.texts == before.texts
    &&& forall|field: Field|
        #![trigger after.forms.dom().contains(field)]
        !(field is Profile || field is IPAddress || field is ConcurrentTo) ==> (
        after.forms.dom().contains(field) <==> before.forms.dom().contains(field))
            && after.forms[field] == before.forms[field]
}

/// What a `revisit` record's lines for what it refers to, and for its segment, add.
spec fn revisit_closes<E: Extension>(
    before: Found,
    after: Found,
    header: RevisitHeader<E>,
    version: WarcVersion,
) -> bool {
    &&& shown(header.refers_to_date) matches Some(date) ==> fits_version(date, version)
    &&& !before.forms.dom().contains(Field::RefersTo) ==> holds(
        after,
        Field::RefersTo,
        uri_form(version, Field::RefersTo, shown(header.refers_to)),
    )
    &&& !before.forms.dom().contains(Field::RefersToTargetURI) ==> holds(
        after,
        Field::RefersToTargetURI,
        uri_form(version, Field::RefersToTargetURI, shown(header.refers_to_target_uri)),
    )
    &&& !before.forms.dom().contains(Field::RefersToDate) ==> holds(
        after,
        Field::RefersToDate,
        date_form(shown(header.refers_to_date)),
    )
    &&& !before.forms.dom().contains(Field::SegmentNumber) ==> holds(
        after,
        Field::SegmentNumber,
        digits_form(origin_number(header.segment_origin)),
    )
    &&& after.concurrent == before.concurrent
    &&& after.texts == before.texts
    &&& forall|field: Field|
        #![trigger after.forms.dom().contains(field)]
        !(field is RefersTo || field is RefersToTargetURI || field is RefersToDate
            || field is SegmentNumber) ==> (after.forms.dom().contains(field)
            <==> before.forms.dom().contains(field)) && after.forms[field]
            == before.forms[field]
}

/// What the lines of a `revisit` record's own fields say of the fields that the standard names.
spec fn revisit_says<E: Extension>(
    after: Found,
    header: RevisitHeader<E>,
    version: WarcVersion,
    digest: Option<Labelled>,
    uri: Seq<char>,
) -> bool {
    &&& shown(header.refers_to_date) matches Some(date) ==> fits_version(date, version)
    &&& holds(after, Field::PayloadDigest, digest_form(digest))
    &&& holds(
        after,
        Field::IdentifiedPayloadType,
        media_form(shown(header.payload.identified_payload_type)),
    )
    &&& holds(
        after,
        Field::TargetURI,
        uri_form(version, Field::TargetURI, Some(header.target_uri@)),
    )
    &&& holds(
        after,
        Field::WarcinfoID,
        uri_form(version, Field::WarcinfoID, shown(header.warcinfo_id)),
    )
    &&& holds(after, Field::Profile, uri_form(version, Field::Profile, Some(uri)))
    &&& holds(after, Field::IPAddress, address_form(header.ip_address))
    &&& holds(
        after,
        Field::RefersTo,
        uri_form(version, Field::RefersTo, shown(header.refers_to)),
    )
    &&& holds(
        after,
        Field::RefersToTargetURI,
        uri_form(version, Field::RefersToTargetURI, shown(header.refers_to_target_uri)),
    )
    &&& holds(after, Field::RefersToDate, date_form(shown(header.refers_to_date)))
    &&& holds(
        after,
        Field::SegmentNumber,
        digits_form(origin_number(header.segment_origin)),
    )
    &&& after.concurrent == uri_texts(header.concurrent_to@)
    &&& is_bare(after)
    &&& forall|field: Field| #[trigger]
        after.forms.dom().contains(field) ==> is_permitted(Kind::Revisit, field)
}

/// What the opening lines of a `revisit` record say.
#[verifier::spinoff_prover]
#[verifier::rlimit(60)]
proof fn lemma_revisit_opening<E: Extension>(
    header: RevisitHeader<E>,
    version: WarcVersion,
    digest: Option<Labelled>,
)
    requires
        version == header.version,
        revisit_opening(header, digest) is Ok,
    ensures
        ({
            let lines = revisit_opening(header, digest)->Ok_0;
            &&& all_shaped(lines, version)
            &&& revisit_opens(found(lines), header, version, digest)
        }),
{
    reveal(revisit_opening);
    let s0: Out = Ok(Seq::empty());
    let s1 = with_digest(s0, version, Field::PayloadDigest, digest);
    let media = shown(header.payload.identified_payload_type);
    let s2 = with_media_type(s1, version, Field::IdentifiedPayloadType, media);
    let s3 = with_uri(s2, version, Field::TargetURI, Some(header.target_uri@));
    let s4 = with_uri(s3, version, Field::WarcinfoID, shown(header.warcinfo_id));
    lemma_with(
        s3,
        version,
        Field::WarcinfoID,
        uri_form(version, Field::WarcinfoID, shown(header.warcinfo_id)),
        s4,
    );
    lemma_with(
        s2,
        version,
        Field::TargetURI,
        uri_form(version, Field::TargetURI, Some(header.target_uri@)),
        s3,
    );
    lemma_with(s1, version, Field::IdentifiedPayloadType, media_form(media), s2);
    lemma_with(s0, version, Field::PayloadDigest, digest_form(digest), s1);
    lemma_found_nothing();
}

/// What a `revisit` record's lines for its profile, address, and concurrent records add.
#[verifier::spinoff_prover]
#[verifier::rlimit(60)]
proof fn lemma_revisit_middle<E: Extension>(
    out: Out,
    header: RevisitHeader<E>,
    version: WarcVersion,
    uri: Seq<char>,
)
    requires
        version == header.version,
        uri == profile_uri(header.profile@),
        revisit_middle(out, header) is Ok,
    ensures
        out is Ok,
        all_shaped(out->Ok_0, version) ==> all_shaped(
            revisit_middle(out, header)->Ok_0,
            version,
        ),
        revisit_follows(
            found(out->Ok_0),
            found(revisit_middle(out, header)->Ok_0),
            header,
            version,
            uri,
        ),
{
    reveal(revisit_middle);
    let s1 = with_profile(out, version, header.profile@);
    let s2 = with_address(s1, version, header.ip_address);
    lemma_with_uris(s2, version, uri_texts(header.concurrent_to@));
    lemma_plus_uris(found(s2->Ok_0), true, uri_texts(header.concurrent_to@));
    lemma_with(s1, version, Field::IPAddress, address_form(header.ip_address), s2);
    lemma_with(out, version, Field::Profile, uri_form(version, Field::Profile, Some(uri)), s1);
}

/// What a `revisit` record's lines for what it refers to, and for its segment, add.
#[verifier::spinoff_prover]
#[verifier::rlimit(60)]
proof fn lemma_revisit_closing<E: Extension>(
    out: Out,
    header: RevisitHeader<E>,
    version: WarcVersion,
)
    requires
        version == header.version,
        revisit_closing(out, header) is Ok,
    ensures
        out is Ok,
        all_shaped(out->Ok_0, version) ==> all_shaped(
            revisit_closing(out, header)->Ok_0,
            version,
        ),
        revisit_closes(
            found(out->Ok_0),
            found(revisit_closing(out, header)->Ok_0),
            header,
            version,
        ),
{
    reveal(revisit_closing);
    let s8 = with_uri(out, version, Field::RefersTo, shown(header.refers_to));
    let uri = shown(header.refers_to_target_uri);
    let s9 = with_uri(s8, version, Field::RefersToTargetURI, uri);
    let s10 = with_date(s9, version, Field::RefersToDate, shown(header.refers_to_date));
    let number = origin_number(header.segment_origin);
    let s11 = with_digits(s10, version, Field::SegmentNumber, number);
    lemma_with(s10, version, Field::SegmentNumber, digits_form(number), s11);
    lemma_with(s9, version, Field::RefersToDate, date_form(shown(header.refers_to_date)), s10);
    lemma_with(
        s8,
        version,
        Field::RefersToTargetURI,
        uri_form(version, Field::RefersToTargetURI, uri),
        s9,
    );
    lemma_with(
        out,
        version,
        Field::RefersTo,
        uri_form(version, Field::RefersTo, shown(header.refers_to)),
        s8,
    );
}

/// What lines say of a field that further ones leave as it is.
proof fn lemma_kept(before: Found, after: Found, field: Field, form: Option<Form>)
    requires
        holds(before, field, form),
        after.forms.dom().contains(field) <==> before.forms.dom().contains(field),
        after.forms[field] == before.forms[field],
    ensures
        holds(after, field, form),
{
}

/// What the opening lines say and the others add is what they all say.
#[verifier::spinoff_prover]
#[verifier::rlimit(60)]
proof fn lemma_revisit_found<E: Extension>(
    opening: Found,
    middle: Found,
    closing: Found,
    header: RevisitHeader<E>,
    version: WarcVersion,
    digest: Option<Labelled>,
    uri: Seq<char>,
)
    requires
        revisit_opens(opening, header, version, digest),
        revisit_follows(opening, middle, header, version, uri),
        revisit_closes(middle, closing, header, version),
    ensures
        revisit_says(closing, header, version, digest, uri),
        closing.texts == Ok::<Lines, Seq<char>>(Seq::empty()),
{
    let uris = uri_texts(header.concurrent_to@);
    assert(Seq::<Seq<char>>::empty() + uris =~= uris);
    lemma_kept(opening, middle, Field::PayloadDigest, digest_form(digest));
    lemma_kept(middle, closing, Field::PayloadDigest, digest_form(digest));
    let media = media_form(shown(header.payload.identified_payload_type));
    lemma_kept(opening, middle, Field::IdentifiedPayloadType, media);
    lemma_kept(middle, closing, Field::IdentifiedPayloadType, media);
    let target = uri_form(version, Field::TargetURI, Some(header.target_uri@));
    lemma_kept(opening, middle, Field::TargetURI, target);
    lemma_kept(middle, closing, Field::TargetURI, target);
    let warcinfo = uri_form(version, Field::WarcinfoID, shown(header.warcinfo_id));
    lemma_kept(opening, middle, Field::WarcinfoID, warcinfo);
    lemma_kept(middle, closing, Field::WarcinfoID, warcinfo);
    let profile = uri_form(version, Field::Profile, Some(uri));
    lemma_kept(middle, closing, Field::Profile, profile);
    lemma_kept(middle, closing, Field::IPAddress, address_form(header.ip_address));
    assert forall|field: Field| #[trigger] closing.forms.dom().contains(field) implies is_permitted(
        Kind::Revisit,
        field,
    ) by {
        assert(middle.forms.dom().contains(field) || !middle.forms.dom().contains(field));
        assert(opening.forms.dom().contains(field) || !opening.forms.dom().contains(field));
    }
}

/// The lines of a `revisit` record's own fields are its opening ones, those in the middle, its
/// closing ones, and those that the standard does not name.
#[verifier::spinoff_prover]
proof fn lemma_revisit_lines<E: Extension>(header: RevisitHeader<E>, digest: Option<Labelled>)
    ensures
        with_revisit(Ok(Seq::empty()), header, digest) == with_lines(
            revisit_closing(revisit_middle(revisit_opening(header, digest), header), header),
            header.version,
            false,
            header.other.written(),
        ),
{
    reveal(revisit_opening);
    reveal(revisit_middle);
    reveal(revisit_closing);
}

/// What the lines of a `revisit` record's own fields say.
#[verifier::spinoff_prover]
#[verifier::rlimit(60)]
proof fn lemma_revisit_says<E: Extension>(
    header: RevisitHeader<E>,
    version: WarcVersion,
    digest: Option<Labelled>,
    uri: Seq<char>,
    own: Out,
)
    requires
        own == with_lines(
            revisit_closing(revisit_middle(revisit_opening(header, digest), header), header),
            header.version,
            false,
            header.other.written(),
        ),
        own is Ok,
        version == header.version,
        uri == profile_uri(header.profile@),
        all_trim(header.other.written()),
    ensures
        all_shaped(own->Ok_0, version),
        found(own->Ok_0).texts == Ok::<Lines, Seq<char>>(header.other.written()),
        revisit_says(found(own->Ok_0), header, version, digest, uri),
{
    let opening = revisit_opening(header, digest);
    let middle = revisit_middle(opening, header);
    let closing = revisit_closing(middle, header);
    let other = header.other.written();
    lemma_with_lines(closing, version, other);
    lemma_revisit_closing(middle, header, version);
    lemma_revisit_middle(opening, header, version, uri);
    lemma_revisit_opening(header, version, digest);
    assert(Seq::<(Seq<char>, Seq<char>)>::empty() + other =~= other);
    lemma_revisit_found(
        found(opening->Ok_0),
        found(middle->Ok_0),
        found(closing->Ok_0),
        header,
        version,
        digest,
        uri,
    );
}

/// The first line of a field is no later than a line of it.
proof fn lemma_position_first(lines: Seq<Entry>, field: Field, i: int, k: int)
    requires
        0 <= i <= k < lines.len(),
        lines[k].0.field == Some(field),
    ensures
        first_position(lines, field, i) <= k,
    decreases k - i,
{
    if lines[i].0.field != Some(field) {
        lemma_position_first(lines, field, i + 1, k);
    }
}

/// Lines that hold no field but those that a record type permits hold none that it forbids.
proof fn lemma_permitted(lines: Seq<Entry>, kind: Kind, i: int)
    requires
        0 <= i <= lines.len(),
        is_well_formed(lines),
        forall|field: Field| #[trigger]
            form_in(lines, field) is Some ==> is_permitted(kind, field),
    ensures
        forbidden_from(lines, kind, i) is None,
    decreases lines.len() - i,
{
    if i < lines.len() {
        lemma_permitted(lines, kind, i + 1);
        match lines[i].0.field {
            Some(field) => {
                lemma_position_first(lines, field, 0, i);
                lemma_form_absent(lines, field);
                assert(form_in(lines, field) is Some);
            },
            None => {},
        }
    }
}

/// Whether lines say of the fields of a record's own type what was found.
spec fn finds(lines: Seq<Entry>, before: Found) -> bool {
    &&& forall|field: Field|
        !shared_fields().contains(field) ==> #[trigger] form_in(lines, field)
            == if before.forms.dom().contains(field) {
            Some(before.forms[field])
        } else {
            None
        }
    &&& uris_in(lines, Field::ConcurrentTo) == before.concurrent
}

/// Whether a record can be read back as it is written: each of its values is spelled in a way that
/// is read as that value, and what it holds as text opens and closes with no white space.
pub open spec fn is_faithful_record<E: Extension>(record: Record<E>) -> bool {
    let lines = record.collected(None, None)->Ok_0;
    &&& forall|i: int|
        0 <= i < lines.len() ==> is_faithful_line(#[trigger] lines[i], record.declared_version())
    &&& all_trim(lines_of(record.core_headers().unrecognized@))
    &&& all_trim(other_lines(record))
    &&& is_named_reason(record.core_headers())
    &&& record matches Record::Revisit { header, .. } ==> header.profile@ == profile_named(
        profile_uri(header.profile@),
    )
    &&& record matches Record::Continuation { header, .. } ==> header.segment_number@ > 1
}

/// The lines that the fields of the extension are written as.
pub open spec fn other_lines<E: Extension>(record: Record<E>) -> Lines {
    match record {
        Record::Warcinfo { header, .. } => header.other.written(),
        Record::Response { header, .. } => header.other.written(),
        Record::Resource { header, .. } => header.other.written(),
        Record::Request { header, .. } => header.other.written(),
        Record::Metadata { header, .. } => header.other.written(),
        Record::Revisit { header, .. } => header.other.written(),
        Record::Conversion { header, .. } => header.other.written(),
        Record::Continuation { header, .. } => header.other.written(),
        Record::Other { .. } => Seq::empty(),
    }
}

/// The position of a line in the conventional order, by its name.
pub open spec fn name_rank(name: Seq<char>) -> int {
    match field_named(name) {
        Some(field) => field.rank(),
        None => FIELD_COUNT as int,
    }
}

/// Whether a header of an extension's type reads back as itself: its name names its type, and the
/// lines that it keeps as read name no field that every record carries and stand in the
/// conventional order.
pub open spec fn keeps_own<E: Extension>(header: OtherHeader<E>) -> bool {
    let lines = lines_of(header.core.unrecognized@);
    &&& kind_named(header.extension.spelled()) matches Kind::Unknown(name) && E::Types::of_name(
        name,
    ) == Some(header.extension)
    &&& forall|i: int|
        0 <= i < lines.len() ==> (field_named((#[trigger] lines[i]).0) matches Some(field)
            ==> !own_fields().contains(field))
    &&& forall|i: int, j: int|
        0 <= i < j < lines.len() ==> name_rank((#[trigger] lines[i]).0) <= name_rank(
            (#[trigger] lines[j]).0,
        )
}

/// Whether the extension claims, of the lines that its fields are written as and of those that
/// nothing claims, its own and no others.
pub open spec fn claims_own<E: Extension>(record: Record<E>) -> bool {
    let left = lines_of(record.core_headers().unrecognized@);
    let all = other_lines(record) + left;
    match record {
        Record::Warcinfo { header, .. } => header.other.claims(all, left),
        Record::Response { header, .. } => header.other.claims(all, left),
        Record::Resource { header, .. } => header.other.claims(all, left),
        Record::Request { header, .. } => header.other.claims(all, left),
        Record::Metadata { header, .. } => header.other.claims(all, left),
        Record::Revisit { header, .. } => header.other.claims(all, left),
        Record::Conversion { header, .. } => header.other.claims(all, left),
        Record::Continuation { header, .. } => header.other.claims(all, left),
        Record::Other { header, .. } => keeps_own(header),
    }
}

/// The header of a record, with the length of its block.
pub open spec fn measured<E: Extension>(record: Record<E>) -> RecordHeader<E> {
    record.header().with_core(with_length(record.core_headers(), record.block().len() as u64))
}

/// What is found in the lines of a record's own type is found in all its lines.
#[verifier::spinoff_prover]
#[verifier::rlimit(60)]
proof fn lemma_record_lines<E: Extension>(record: Record<E>, own: Seq<Entry>)
    requires
        !(record is Other),
        record.rendering(None, None) is Ok,
        record.with_own(Ok(Seq::empty()), declared_payload_digest(record)) == Ok::<
            Seq<Entry>,
            RenderFault,
        >(own),
        record.block().len() <= u64::MAX,
        is_faithful_record(record),
        all_shaped(own, record.declared_version()),
        is_bare(found(own)),
        found(own).texts == Ok::<Lines, Seq<char>>(other_lines(record)),
        forall|field: Field| #[trigger]
            found(own).forms.dom().contains(field) ==> is_permitted(record.kind(), field),
    ensures
        ({
            let lines = record.rendering(None, None)->Ok_0;
            let core = record.core_headers();
            &&& all_sound(lines, record.declared_version())
            &&& is_well_formed(lines)
            &&& shared_fault(record.declared_version(), lines) is None
            &&& kind_in(lines) == record.kind()
            &&& rest_fault(record.kind(), lines) is None
            &&& with_length(core, record.block().len() as u64).reads(lines)
            &&& finds(lines, found(own))
            &&& offered(lines) == other_lines(record) + lines_of(core.unrecognized@)
        }),
{
    let version = record.declared_version();
    let core = record.core_headers();
    let lines = record.collected(None, None)->Ok_0;
    let digest = shown(core.block_digest);
    let before = found(own);
    assert(record.collected(None, None) == record.with_shared(Ok(own), digest));
    lemma_shared(record, Ok(own), digest);
    lemma_core_reads(record, lines, before);
    let sorted = ordered(lines);
    assert forall|field: Field| #[trigger] form_in(sorted, field) is Some implies is_permitted(
        record.kind(),
        field,
    ) by {
        if !shared_fields().contains(field) {
            assert(before.forms.dom().contains(field));
        }
    }
    lemma_permitted(sorted, record.kind(), 0);
}

/// Whether lines are read as the header that a record holds, with the length of its block.
pub open spec fn reads_back<E: Extension>(record: Record<E>, lines: Seq<Entry>) -> bool {
    &&& is_well_formed(lines)
    &&& lift_fault::<E>(record.declared_version(), lines) is None
    &&& record.header().is_of(kind_in(lines))
    &&& measured(record).reads(lines)
}

/// A `response` record is read back.
#[verifier::spinoff_prover]
#[verifier::rlimit(60)]
proof fn lemma_response_reads<E: Extension>(record: Record<E>)
    requires
        record is Response,
        record.rendering(None, None) is Ok,
        record.block().len() <= u64::MAX,
        is_faithful_record(record),
        claims_own(record),
    ensures
        all_sound(record.rendering(None, None)->Ok_0, record.declared_version()),
        reads_back(record, record.rendering(None, None)->Ok_0),
{
    let header = record->Response_header;
    let version = record.declared_version();
    let digest = declared_payload_digest(record);
    let own = record.with_own(Ok(Seq::empty()), digest)->Ok_0;
    lemma_capture_says(
        version,
        digest,
        shown(header.payload.identified_payload_type),
        header.target_uri@,
        shown(header.warcinfo_id),
        header.ip_address,
        uri_texts(header.concurrent_to@),
        header.segment_origin,
        header.other.written(),
        Kind::Response,
    );
    lemma_record_lines(record, own);
    let lines = record.rendering(None, None)->Ok_0;
    assert(
        form_in(lines, Field::PayloadDigest) == digest_form(shown(header.payload.payload_digest))
    );
    assert(
        form_in(lines, Field::IdentifiedPayloadType) == media_form(
            shown(header.payload.identified_payload_type),
        )
    );
    assert(
        form_in(lines, Field::TargetURI) == uri_form(
            version,
            Field::TargetURI,
            Some(header.target_uri@),
        )
    );
    assert(
        form_in(lines, Field::WarcinfoID) == uri_form(
            version,
            Field::WarcinfoID,
            shown(header.warcinfo_id),
        )
    );
    assert(form_in(lines, Field::IPAddress) == address_form(header.ip_address));
    assert(
        form_in(lines, Field::SegmentNumber) == digits_form(origin_number(header.segment_origin))
    );
}

/// A `resource` record is read back.
#[verifier::spinoff_prover]
#[verifier::rlimit(60)]
proof fn lemma_resource_reads<E: Extension>(record: Record<E>)
    requires
        record is Resource,
        record.rendering(None, None) is Ok,
        record.block().len() <= u64::MAX,
        is_faithful_record(record),
        claims_own(record),
    ensures
        all_sound(record.rendering(None, None)->Ok_0, record.declared_version()),
        reads_back(record, record.rendering(None, None)->Ok_0),
{
    let header = record->Resource_header;
    let version = record.declared_version();
    let digest = declared_payload_digest(record);
    let own = record.with_own(Ok(Seq::empty()), digest)->Ok_0;
    lemma_capture_says(
        version,
        digest,
        shown(header.payload.identified_payload_type),
        header.target_uri@,
        shown(header.warcinfo_id),
        header.ip_address,
        uri_texts(header.concurrent_to@),
        header.segment_origin,
        header.other.written(),
        Kind::Resource,
    );
    lemma_record_lines(record, own);
    let lines = record.rendering(None, None)->Ok_0;
    assert(
        form_in(lines, Field::PayloadDigest) == digest_form(shown(header.payload.payload_digest))
    );
    assert(
        form_in(lines, Field::IdentifiedPayloadType) == media_form(
            shown(header.payload.identified_payload_type),
        )
    );
    assert(
        form_in(lines, Field::TargetURI) == uri_form(
            version,
            Field::TargetURI,
            Some(header.target_uri@),
        )
    );
    assert(
        form_in(lines, Field::WarcinfoID) == uri_form(
            version,
            Field::WarcinfoID,
            shown(header.warcinfo_id),
        )
    );
    assert(form_in(lines, Field::IPAddress) == address_form(header.ip_address));
    assert(
        form_in(lines, Field::SegmentNumber) == digits_form(origin_number(header.segment_origin))
    );
}

/// A `request` record is read back.
#[verifier::spinoff_prover]
#[verifier::rlimit(60)]
proof fn lemma_request_reads<E: Extension>(record: Record<E>)
    requires
        record is Request,
        record.rendering(None, None) is Ok,
        record.block().len() <= u64::MAX,
        is_faithful_record(record),
        claims_own(record),
    ensures
        all_sound(record.rendering(None, None)->Ok_0, record.declared_version()),
        reads_back(record, record.rendering(None, None)->Ok_0),
{
    let header = record->Request_header;
    let version = record.declared_version();
    let digest = declared_payload_digest(record);
    let own = record.with_own(Ok(Seq::empty()), digest)->Ok_0;
    lemma_capture_says(
        version,
        digest,
        shown(header.payload.identified_payload_type),
        header.target_uri@,
        shown(header.warcinfo_id),
        header.ip_address,
        uri_texts(header.concurrent_to@),
        header.segment_origin,
        header.other.written(),
        Kind::Request,
    );
    lemma_record_lines(record, own);
    let lines = record.rendering(None, None)->Ok_0;
    assert(
        form_in(lines, Field::PayloadDigest) == digest_form(shown(header.payload.payload_digest))
    );
    assert(
        form_in(lines, Field::IdentifiedPayloadType) == media_form(
            shown(header.payload.identified_payload_type),
        )
    );
    assert(
        form_in(lines, Field::TargetURI) == uri_form(
            version,
            Field::TargetURI,
            Some(header.target_uri@),
        )
    );
    assert(
        form_in(lines, Field::WarcinfoID) == uri_form(
            version,
            Field::WarcinfoID,
            shown(header.warcinfo_id),
        )
    );
    assert(form_in(lines, Field::IPAddress) == address_form(header.ip_address));
    assert(
        form_in(lines, Field::SegmentNumber) == digits_form(origin_number(header.segment_origin))
    );
}

/// A `warcinfo` record is read back.
#[verifier::spinoff_prover]
#[verifier::rlimit(60)]
proof fn lemma_warcinfo_reads<E: Extension>(record: Record<E>)
    requires
        record is Warcinfo,
        record.rendering(None, None) is Ok,
        record.block().len() <= u64::MAX,
        is_faithful_record(record),
        claims_own(record),
    ensures
        all_sound(record.rendering(None, None)->Ok_0, record.declared_version()),
        reads_back(record, record.rendering(None, None)->Ok_0),
{
    let header = record->Warcinfo_header;
    let version = record.declared_version();
    let digest = declared_payload_digest(record);
    let own = record.with_own(Ok(Seq::empty()), digest)->Ok_0;
    lemma_warcinfo_says(record, header, version, header.other.written());
    lemma_record_lines(record, own);
    let lines = record.rendering(None, None)->Ok_0;
    assert(form_in(lines, Field::Filename) == text_form(shown(header.filename)));
    assert(
        form_in(lines, Field::SegmentNumber) == digits_form(origin_number(header.segment_origin))
    );
}

/// A `metadata` record is read back.
#[verifier::spinoff_prover]
#[verifier::rlimit(60)]
proof fn lemma_metadata_reads<E: Extension>(record: Record<E>)
    requires
        record is Metadata,
        record.rendering(None, None) is Ok,
        record.block().len() <= u64::MAX,
        is_faithful_record(record),
        claims_own(record),
    ensures
        all_sound(record.rendering(None, None)->Ok_0, record.declared_version()),
        reads_back(record, record.rendering(None, None)->Ok_0),
{
    let header = record->Metadata_header;
    let version = record.declared_version();
    let digest = declared_payload_digest(record);
    let own = record.with_own(Ok(Seq::empty()), digest)->Ok_0;
    lemma_metadata_says(record, header, version, header.other.written());
    lemma_record_lines(record, own);
    let lines = record.rendering(None, None)->Ok_0;
    assert(
        form_in(lines, Field::TargetURI) == uri_form(
            version,
            Field::TargetURI,
            shown(header.target_uri),
        )
    );
    assert(
        form_in(lines, Field::WarcinfoID) == uri_form(
            version,
            Field::WarcinfoID,
            shown(header.warcinfo_id),
        )
    );
    assert(form_in(lines, Field::IPAddress) == address_form(header.ip_address));
    assert(
        form_in(lines, Field::RefersTo) == uri_form(
            version,
            Field::RefersTo,
            shown(header.refers_to),
        )
    );
    assert(
        form_in(lines, Field::SegmentNumber) == digits_form(origin_number(header.segment_origin))
    );
}

/// A `conversion` record is read back.
#[verifier::spinoff_prover]
#[verifier::rlimit(60)]
proof fn lemma_conversion_reads<E: Extension>(record: Record<E>)
    requires
        record is Conversion,
        record.rendering(None, None) is Ok,
        record.block().len() <= u64::MAX,
        is_faithful_record(record),
        claims_own(record),
    ensures
        all_sound(record.rendering(None, None)->Ok_0, record.declared_version()),
        reads_back(record, record.rendering(None, None)->Ok_0),
{
    let header = record->Conversion_header;
    let version = record.declared_version();
    let digest = declared_payload_digest(record);
    let own = record.with_own(Ok(Seq::empty()), digest)->Ok_0;
    lemma_conversion_says(record, header, version, header.other.written());
    lemma_record_lines(record, own);
    let lines = record.rendering(None, None)->Ok_0;
    assert(
        form_in(lines, Field::PayloadDigest) == digest_form(shown(header.payload.payload_digest))
    );
    assert(
        form_in(lines, Field::IdentifiedPayloadType) == media_form(
            shown(header.payload.identified_payload_type),
        )
    );
    assert(
        form_in(lines, Field::TargetURI) == uri_form(
            version,
            Field::TargetURI,
            Some(header.target_uri@),
        )
    );
    assert(
        form_in(lines, Field::WarcinfoID) == uri_form(
            version,
            Field::WarcinfoID,
            shown(header.warcinfo_id),
        )
    );
    assert(
        form_in(lines, Field::RefersTo) == uri_form(
            version,
            Field::RefersTo,
            shown(header.refers_to),
        )
    );
    assert(
        form_in(lines, Field::SegmentNumber) == digits_form(origin_number(header.segment_origin))
    );
}

/// A `continuation` record is read back.
#[verifier::spinoff_prover]
#[verifier::rlimit(60)]
proof fn lemma_continuation_reads<E: Extension>(record: Record<E>)
    requires
        record is Continuation,
        record.rendering(None, None) is Ok,
        record.block().len() <= u64::MAX,
        is_faithful_record(record),
        claims_own(record),
    ensures
        all_sound(record.rendering(None, None)->Ok_0, record.declared_version()),
        reads_back(record, record.rendering(None, None)->Ok_0),
{
    let header = record->Continuation_header;
    let version = record.declared_version();
    let digest = declared_payload_digest(record);
    let own = record.with_own(Ok(Seq::empty()), digest)->Ok_0;
    lemma_continuation_says(record, header, version, header.other.written());
    lemma_record_lines(record, own);
    let lines = record.rendering(None, None)->Ok_0;
    assert(
        form_in(lines, Field::PayloadDigest) == digest_form(shown(header.payload.payload_digest))
    );
    assert(
        form_in(lines, Field::IdentifiedPayloadType) == media_form(
            shown(header.payload.identified_payload_type),
        )
    );
    assert(
        form_in(lines, Field::TargetURI) == uri_form(
            version,
            Field::TargetURI,
            Some(header.target_uri@),
        )
    );
    assert(
        form_in(lines, Field::WarcinfoID) == uri_form(
            version,
            Field::WarcinfoID,
            shown(header.warcinfo_id),
        )
    );
    assert(form_in(lines, Field::SegmentNumber) == digits_form(Some(header.segment_number@)));
    assert(
        form_in(lines, Field::SegmentOriginID) == uri_form(
            version,
            Field::SegmentOriginID,
            Some(header.segment_origin_id@),
        )
    );
    assert(
        form_in(lines, Field::SegmentTotalLength) == digits_form(
            number_of(header.segment_total_length),
        )
    );
}

/// The lines of a `revisit` record's own fields say what the header holds.
#[verifier::spinoff_prover]
#[verifier::rlimit(60)]
proof fn lemma_revisit_own<E: Extension>(
    record: Record<E>,
    header: RevisitHeader<E>,
    digest: Option<Labelled>,
    uri: Seq<char>,
)
    requires
        record matches Record::Revisit { header: held, .. } && held == header,
        digest == shown(header.payload.payload_digest),
        uri == profile_uri(header.profile@),
        record.with_own(Ok(Seq::empty()), digest) is Ok,
        all_trim(header.other.written()),
    ensures
        ({
            let own = record.with_own(Ok(Seq::empty()), digest)->Ok_0;
            &&& all_shaped(own, header.version)
            &&& found(own).texts == Ok::<Lines, Seq<char>>(header.other.written())
            &&& revisit_says(found(own), header, header.version, digest, uri)
            &&& revisit_fault(header, digest, record.block().len()) is None
        }),
{
    let own = with_revisit(Ok(Seq::empty()), header, digest);
    assert(record.with_own(Ok(Seq::empty()), digest) == own);
    lemma_revisit_lines(header, digest);
    lemma_revisit_says(header, header.version, digest, uri, own);
}

/// A header whose fields are found in lines reads them.
#[verifier::spinoff_prover]
#[verifier::rlimit(60)]
proof fn lemma_revisit_holds<E: Extension>(
    header: RevisitHeader<E>,
    version: WarcVersion,
    uri: Seq<char>,
    before: Found,
    lines: Seq<Entry>,
)
    requires
        revisit_says(before, header, version, shown(header.payload.payload_digest), uri),
        finds(lines, before),
        header.profile@ == profile_named(uri),
        header.profile@ is IdenticalPayloadDigest ==> header.payload.payload_digest is Some,
    ensures
        own_fault(Kind::Revisit, version, lines) is None,
        header.payload.reads(lines),
        uri_in(lines, Field::TargetURI) == Some(header.target_uri@),
        shown(header.warcinfo_id) == uri_in(lines, Field::WarcinfoID),
        uri_in(lines, Field::Profile) == Some(uri),
        header.ip_address == address_in(lines, Field::IPAddress),
        uri_texts(header.concurrent_to@) == uris_in(lines, Field::ConcurrentTo),
        shown(header.refers_to) == uri_in(lines, Field::RefersTo),
        shown(header.refers_to_target_uri) == uri_in(lines, Field::RefersToTargetURI),
        shown(header.refers_to_date) == date_in(lines, Field::RefersToDate),
        is_origin(header.segment_origin, lines),
{
    assert(form_in(lines, Field::PayloadDigest) == digest_form(
        shown(header.payload.payload_digest),
    ));
    assert(form_in(lines, Field::IdentifiedPayloadType) == media_form(
        shown(header.payload.identified_payload_type),
    ));
    assert(form_in(lines, Field::TargetURI) == uri_form(
        version,
        Field::TargetURI,
        Some(header.target_uri@),
    ));
    assert(form_in(lines, Field::WarcinfoID) == uri_form(
        version,
        Field::WarcinfoID,
        shown(header.warcinfo_id),
    ));
    assert(form_in(lines, Field::Profile) == uri_form(version, Field::Profile, Some(uri)));
    assert(form_in(lines, Field::IPAddress) == address_form(header.ip_address));
    assert(form_in(lines, Field::RefersTo) == uri_form(
        version,
        Field::RefersTo,
        shown(header.refers_to),
    ));
    assert(form_in(lines, Field::RefersToTargetURI) == uri_form(
        version,
        Field::RefersToTargetURI,
        shown(header.refers_to_target_uri),
    ));
    assert(form_in(lines, Field::RefersToDate) == date_form(shown(header.refers_to_date)));
    assert(form_in(lines, Field::SegmentNumber) == digits_form(
        origin_number(header.segment_origin),
    ));
}

/// A `revisit` record is read back.
#[verifier::spinoff_prover]
#[verifier::rlimit(60)]
proof fn lemma_revisit_reads<E: Extension>(record: Record<E>)
    requires
        record is Revisit,
        record.rendering(None, None) is Ok,
        record.block().len() <= u64::MAX,
        is_faithful_record(record),
        claims_own(record),
    ensures
        all_sound(record.rendering(None, None)->Ok_0, record.declared_version()),
        reads_back(record, record.rendering(None, None)->Ok_0),
{
    let header = record->Revisit_header;
    let version = record.declared_version();
    let digest = declared_payload_digest(record);
    let own = record.with_own(Ok(Seq::empty()), digest)->Ok_0;
    let uri = profile_uri(header.profile@);
    lemma_revisit_own(record, header, digest, uri);
    lemma_record_lines(record, own);
    let lines = record.rendering(None, None)->Ok_0;
    lemma_revisit_holds(header, version, uri, found(own), lines);
}

/// The fields that a header of an extension's type holds itself.
pub open spec fn own_fields() -> Set<Field> {
    shared_fields().insert(Field::SegmentNumber)
}

/// Whether every line is one of a field in a set.
spec fn all_in(lines: Seq<Entry>, taken: Set<Field>) -> bool {
    forall|i: int|
        0 <= i < lines.len() ==> ((#[trigger] lines[i]).0.field matches Some(field)
            && taken.contains(field))
}

/// Whether no line is one of a field in a set.
spec fn none_in(lines: Seq<Entry>, taken: Set<Field>) -> bool {
    forall|i: int|
        0 <= i < lines.len() ==> ((#[trigger] lines[i]).0.field matches Some(field)
            ==> !taken.contains(field))
}

/// A step that writes a form of a field in a set adds a line of the set.
proof fn lemma_with_in(
    out: Out,
    version: WarcVersion,
    field: Field,
    form: Option<Form>,
    next: Out,
    taken: Set<Field>,
)
    requires
        next == (match form {
            Some(form) => with_form(out, version, field, form),
            None => out,
        }),
        next is Ok,
        out is Ok ==> all_in(out->Ok_0, taken),
        taken.contains(field),
    ensures
        out is Ok,
        all_in(next->Ok_0, taken),
{
    match form {
        Some(form) => {
            assert(next->Ok_0 == out->Ok_0.push(line_for(field, form)));
        },
        None => {},
    }
}

/// The line that a line kept as read is written as.
spec fn kept_entry(line: (Seq<char>, Seq<char>)) -> Entry {
    (
        Named { field: field_named(line.0), name: line.0 },
        said(field_named(line.0), spelled_value(octets(line.1)))->Ok_0,
    )
}

/// The lines that lines kept as read are written as.
spec fn kept_entries(lines: Lines) -> Seq<Entry> {
    lines.map_values(|line: (Seq<char>, Seq<char>)| kept_entry(line))
}

/// Writing a line kept as read adds it as what it says, which is the text that it holds.
#[verifier::spinoff_prover]
proof fn lemma_with_kept_line(out: Out, version: WarcVersion, line: (Seq<char>, Seq<char>))
    requires
        with_line(out, version, true, line) is Ok,
        is_trim(octets(line.1)),
    ensures
        out is Ok,
        with_line(out, version, true, line)->Ok_0 == out->Ok_0.push(kept_entry(line)),
        is_sound(kept_entry(line), version),
        valid_utf8(unfolded(kept_entry(line).1.octets)),
        decode_utf8(unfolded(kept_entry(line).1.octets)) == line.1,
{
    let s = octets(line.1);
    assert forall|j: int| 0 <= j < s.len() implies #[trigger] s[j] != 0x0a by {}
    if s.len() > 0 {
        assert(!crate::octets::is_white(s[0]));
    }
    lemma_unfolded_same(seq![0x20u8], s);
    encode_utf8_valid_utf8(line.1);
    encode_utf8_decode_utf8(line.1);
}

/// Writing lines kept as read adds them, each as what it says.
#[verifier::spinoff_prover]
proof fn lemma_with_kept(out: Out, version: WarcVersion, lines: Lines)
    requires
        with_lines(out, version, true, lines) is Ok,
        all_trim(lines),
    ensures
        out is Ok,
        with_lines(out, version, true, lines)->Ok_0 == out->Ok_0 + kept_entries(lines),
        all_sound(kept_entries(lines), version),
        texts_from(kept_entries(lines), 0) == Ok::<Lines, Seq<char>>(lines),
    decreases lines.len(),
{
    let all = kept_entries(lines);
    if lines.len() > 0 {
        let shorter = lines.drop_last();
        assert(lines[lines.len() - 1] == lines.last());
        assert forall|i: int| 0 <= i < shorter.len() implies is_trim(
            octets((#[trigger] shorter[i]).1),
        ) by {
            assert(shorter[i] == lines[i]);
        }
        lemma_with_kept_line(with_lines(out, version, true, shorter), version, lines.last());
        lemma_with_kept(out, version, shorter);
        let before = kept_entries(shorter);
        let line = kept_entry(lines.last());
        assert(all =~= before.push(line));
        assert(out->Ok_0 + all =~= (out->Ok_0 + before).push(line));
        assert forall|i: int| 0 <= i < all.len() implies is_sound(#[trigger] all[i], version) by {
            if i < before.len() {
                assert(all[i] == before[i]);
            }
        }
        lemma_texts_push(before, line, 0);
        assert(shorter.push(lines.last()) =~= lines);
    } else {
        assert(all =~= Seq::empty());
        assert(out->Ok_0 + all =~= out->Ok_0);
        assert(lines =~= Seq::empty());
    }
}

proof fn lemma_remaining_concat(a: Seq<Entry>, b: Seq<Entry>, taken: Set<Field>)
    ensures
        remaining(a + b, taken) == remaining(a, taken) + remaining(b, taken),
    decreases b.len(),
{
    if b.len() == 0 {
        assert(a + b =~= a);
        assert(remaining(a, taken) + remaining(b, taken) =~= remaining(a, taken));
    } else {
        lemma_remaining_concat(a, b.drop_last(), taken);
        assert((a + b).drop_last() =~= a + b.drop_last());
        assert(remaining(a + b, taken) =~= remaining(a, taken) + remaining(b, taken));
    }
}

proof fn lemma_remaining_all(lines: Seq<Entry>, taken: Set<Field>)
    ensures
        all_in(lines, taken) ==> remaining(lines, taken) == Seq::<Entry>::empty(),
        none_in(lines, taken) ==> remaining(lines, taken) == lines,
    decreases lines.len(),
{
    if lines.len() > 0 {
        let shorter = lines.drop_last();
        lemma_remaining_all(shorter, taken);
        assert(lines[lines.len() - 1] == lines.last());
        if all_in(lines, taken) {
            assert forall|i: int| 0 <= i < shorter.len() implies ((#[trigger] shorter[i]).0.field
                matches Some(field) && taken.contains(field)) by {
                assert(shorter[i] == lines[i]);
            }
        }
        if none_in(lines, taken) {
            assert forall|i: int| 0 <= i < shorter.len() implies ((#[trigger] shorter[i]).0.field
                matches Some(field) ==> !taken.contains(field)) by {
                assert(shorter[i] == lines[i]);
            }
            assert(shorter.push(lines.last()) =~= lines);
        }
    }
}

/// The lines that are left of ordered lines without those of a set are the others in order.
proof fn lemma_remaining_ordered(a: Seq<Entry>, b: Seq<Entry>, taken: Set<Field>, n: nat)
    requires
        all_in(a, taken),
        none_in(b, taken),
    ensures
        remaining(ordered_to(a + b, n), taken) == ordered_to(b, n),
    decreases n,
{
    if n > 0 {
        let rank = n - 1;
        lemma_remaining_ordered(a, b, taken, rank as nat);
        lemma_remaining_concat(ordered_to(a + b, rank as nat), ranked(a + b, rank), taken);
        lemma_ranked_concat(a, b, rank);
        let (x, y) = (ranked(a, rank), ranked(b, rank));
        lemma_remaining_concat(x, y, taken);
        assert forall|i: int| 0 <= i < x.len() implies ((#[trigger] x[i]).0.field matches Some(
            field,
        ) && taken.contains(field)) by {
            lemma_ranked_entries(a, rank, i);
            let k = choose|k: int| 0 <= k < a.len() && a[k] == x[i];
            assert(a[k].0.field is Some);
        }
        assert forall|i: int| 0 <= i < y.len() implies ((#[trigger] y[i]).0.field matches Some(
            field,
        ) ==> !taken.contains(field)) by {
            lemma_ranked_entries(b, rank, i);
            let k = choose|k: int| 0 <= k < b.len() && b[k] == y[i];
            assert(b[k] == y[i]);
        }
        lemma_remaining_all(x, taken);
        lemma_remaining_all(y, taken);
        assert(Seq::<Entry>::empty() + y =~= y);
    }
}

/// Whether lines stand in the conventional order.
spec fn is_in_order(lines: Seq<Entry>) -> bool {
    forall|i: int, j: int|
        0 <= i < j < lines.len() ==> entry_rank(#[trigger] lines[i]) <= entry_rank(
            #[trigger] lines[j],
        )
}

proof fn lemma_none_ranked(lines: Seq<Entry>, rank: int)
    requires
        forall|i: int| 0 <= i < lines.len() ==> entry_rank(#[trigger] lines[i]) < rank,
    ensures
        ranked(lines, rank) == Seq::<Entry>::empty(),
    decreases lines.len(),
{
    if lines.len() > 0 {
        let shorter = lines.drop_last();
        assert forall|i: int| 0 <= i < shorter.len() implies entry_rank(#[trigger] shorter[i])
            < rank by {
            assert(shorter[i] == lines[i]);
        }
        lemma_none_ranked(shorter, rank);
        assert(lines[lines.len() - 1] == lines.last());
    } else {
        assert(lines =~= Seq::empty());
    }
}

/// A line behind all others in the conventional order stays behind them.
proof fn lemma_ordered_push(lines: Seq<Entry>, n: nat)
    requires
        lines.len() > 0,
        is_in_order(lines),
    ensures
        ordered_to(lines, n) == if entry_rank(lines.last()) < n {
            ordered_to(lines.drop_last(), n).push(lines.last())
        } else {
            ordered_to(lines.drop_last(), n)
        },
    decreases n,
{
    let shorter = lines.drop_last();
    let last = lines.last();
    assert(lines[lines.len() - 1] == last);
    if n > 0 {
        let rank = n - 1;
        lemma_ordered_push(lines, rank as nat);
        let before = ordered_to(shorter, rank as nat);
        if entry_rank(last) < rank {
            assert forall|i: int| 0 <= i < shorter.len() implies entry_rank(#[trigger] shorter[i])
                < rank by {
                assert(shorter[i] == lines[i]);
                assert(entry_rank(lines[i]) <= entry_rank(lines[lines.len() - 1]));
            }
            lemma_none_ranked(shorter, rank);
            assert(before.push(last) + Seq::<Entry>::empty() =~= (before + Seq::<
                Entry,
            >::empty()).push(last));
        } else if entry_rank(last) == rank {
            assert(before + ranked(shorter, rank).push(last) =~= (before + ranked(
                shorter,
                rank,
            )).push(last));
        }
    }
}

/// Lines that stand in the conventional order are put in it as they are.
proof fn lemma_in_order(lines: Seq<Entry>)
    requires
        is_in_order(lines),
    ensures
        ordered(lines) == lines,
    decreases lines.len(),
{
    let n = (FIELD_COUNT + 1) as nat;
    if lines.len() > 0 {
        let shorter = lines.drop_last();
        assert forall|i: int, j: int| 0 <= i < j < shorter.len() implies entry_rank(
            #[trigger] shorter[i],
        ) <= entry_rank(#[trigger] shorter[j]) by {
            assert(shorter[i] == lines[i]);
            assert(shorter[j] == lines[j]);
        }
        lemma_in_order(shorter);
        lemma_ordered_push(lines, n);
        match lines.last().0.field {
            Some(field) => lemma_field_is_named(field),
            None => {},
        }
        assert(shorter.push(lines.last()) =~= lines);
    } else {
        assert(lines =~= Seq::empty());
        lemma_ordered_empty(n);
    }
}

proof fn lemma_ordered_empty(n: nat)
    ensures
        ordered_to(Seq::empty(), n) == Seq::<Entry>::empty(),
    decreases n,
{
    if n > 0 {
        lemma_ordered_empty((n - 1) as nat);
        assert(Seq::<Entry>::empty() + Seq::<Entry>::empty() =~= Seq::<Entry>::empty());
    }
}

/// Lines of no field in a set leave what is said of a field of the set as it is.
proof fn lemma_table_kept(a: Seq<Entry>, b: Seq<Entry>, taken: Set<Field>, field: Field)
    requires
        none_in(b, taken),
        taken.contains(field),
    ensures
        table(a + b).dom().contains(field) == table(a).dom().contains(field),
        table(a).dom().contains(field) ==> table(a + b)[field] == table(a)[field],
    decreases b.len(),
{
    let all = a + b;
    if b.len() == 0 {
        assert(all =~= a);
    } else {
        let shorter = b.drop_last();
        assert forall|i: int| 0 <= i < shorter.len() implies ((#[trigger] shorter[i]).0.field
            matches Some(field) ==> !taken.contains(field)) by {
            assert(shorter[i] == b[i]);
        }
        lemma_table_kept(a, shorter, taken, field);
        let last = b[b.len() - 1];
        assert(all.drop_last() =~= a + shorter);
        assert(all.last() == last);
        let before = table(all.drop_last());
        match (last.0.field, last.1.form) {
            (Some(other), Some(form)) => {
                assert(other != field);
                assert(table(all) == if before.dom().contains(other) {
                    before
                } else {
                    before.insert(other, form)
                });
            },
            _ => {
                assert(table(all) == before);
            },
        }
    }
}

/// What the lines of a record of an extension's type say of the fields that it holds itself.
#[verifier::spinoff_prover]
#[verifier::rlimit(60)]
proof fn lemma_other_says<E: Extension>(record: Record<E>, header: OtherHeader<E>, own: Seq<Entry>)
    requires
        record.header() == RecordHeader::Other(header),
        record is Other,
        record.collected(None, None) is Ok,
        all_trim(lines_of(header.core.unrecognized@)),
        own == record.collected(None, None)->Ok_0.take(
            record.collected(None, None)->Ok_0.len() - header.core.unrecognized@.len(),
        ),
    ensures
        record.collected(None, None)->Ok_0 == own + kept_entries(
            lines_of(header.core.unrecognized@),
        ),
        all_sound(kept_entries(lines_of(header.core.unrecognized@)), header.version),
        texts_from(kept_entries(lines_of(header.core.unrecognized@)), 0) == Ok::<Lines, Seq<char>>(
            lines_of(header.core.unrecognized@),
        ),
        all_in(own, own_fields()),
        all_shaped(own, header.version),
        fits_version(header.core.date@, header.version),
        table(own) == plus_shared(
            record,
            plus(
                found(Seq::empty()),
                Field::SegmentNumber,
                digits_form(origin_number(header.segment_origin)),
            ),
            shown(header.core.block_digest),
        ).forms,
{
    let version = header.version;
    let core = header.core;
    let name = kind_name(record.kind());
    let digest = shown(core.block_digest);
    let taken = own_fields();
    let start: Out = Ok(Seq::empty());
    let out = with_digits(
        start,
        version,
        Field::SegmentNumber,
        origin_number(header.segment_origin),
    );
    let kind = with_token(out, version, Field::WarcType, Some(name));
    let id = with_uri(kind, version, Field::RecordID, Some(core.record_id@));
    let date = with_date(id, version, Field::Date, Some(core.date@));
    let length = with_digits(date, version, Field::ContentLength, Some(record.block().len()));
    let block = with_digest(length, version, Field::BlockDigest, digest);
    let media = with_media_type(block, version, Field::ContentType, shown(core.content_type));
    let truncated = with_token(media, version, Field::Truncated, reason_token(core));
    let lines = lines_of(core.unrecognized@);
    assert(record.collected(None, None) == with_lines(truncated, version, true, lines));
    lemma_with_kept(truncated, version, lines);
    let origin = digits_form(origin_number(header.segment_origin));
    lemma_with(media, version, Field::Truncated, token_form(reason_token(core)), truncated);
    lemma_with(block, version, Field::ContentType, media_form(shown(core.content_type)), media);
    lemma_with(length, version, Field::BlockDigest, digest_form(digest), block);
    let count = digits_form(Some(record.block().len()));
    lemma_with(date, version, Field::ContentLength, count, length);
    lemma_with(id, version, Field::Date, date_form(Some(core.date@)), date);
    let identifier = uri_form(version, Field::RecordID, Some(core.record_id@));
    lemma_with(kind, version, Field::RecordID, identifier, id);
    lemma_with(out, version, Field::WarcType, token_form(Some(name)), kind);
    lemma_with(start, version, Field::SegmentNumber, origin, out);
    lemma_with_in(start, version, Field::SegmentNumber, origin, out, taken);
    lemma_with_in(out, version, Field::WarcType, token_form(Some(name)), kind, taken);
    lemma_with_in(kind, version, Field::RecordID, identifier, id, taken);
    lemma_with_in(id, version, Field::Date, date_form(Some(core.date@)), date, taken);
    lemma_with_in(date, version, Field::ContentLength, count, length, taken);
    lemma_with_in(length, version, Field::BlockDigest, digest_form(digest), block, taken);
    lemma_with_in(
        block,
        version,
        Field::ContentType,
        media_form(shown(core.content_type)),
        media,
        taken,
    );
    lemma_with_in(
        media,
        version,
        Field::Truncated,
        token_form(reason_token(core)),
        truncated,
        taken,
    );
    assert(own =~= truncated->Ok_0);
}

/// What ordered lines say of the fields in a set is what the lines of the set said before, and the
/// others are left in their order.
#[verifier::spinoff_prover]
proof fn lemma_own_and_kept(own: Seq<Entry>, kept: Seq<Entry>, version: WarcVersion)
    requires
        all_shaped(own, version),
        all_sound(kept, version),
        repeated_from(own + kept, 0) is None,
        forall|i: int|
            0 <= i < (own + kept).len() ==> is_faithful_line(#[trigger] (own + kept)[i], version),
        all_in(own, own_fields()),
        none_in(kept, own_fields()),
        is_in_order(kept),
    ensures
        all_sound(ordered(own + kept), version),
        is_well_formed(ordered(own + kept)),
        repeated_from(ordered(own + kept), 0) is None,
        undefined_from(ordered(own + kept), version, 0) is None,
        kept_lines(ordered(own + kept)) == kept,
        forall|field: Field|
            own_fields().contains(field) ==> #[trigger] form_in(ordered(own + kept), field)
                == if table(own).dom().contains(field) {
                Some(table(own)[field])
            } else {
                None
            },
{
    let all = own + kept;
    let taken = own_fields();
    assert forall|i: int| 0 <= i < all.len() implies is_shaped(#[trigger] all[i], version) by {
        if i < own.len() {
            assert(all[i] == own[i]);
        } else {
            assert(all[i] == kept[i - own.len()]);
        }
    }
    lemma_ordered_says(all, version);
    lemma_in_order(kept);
    lemma_remaining_ordered(own, kept, taken, (FIELD_COUNT + 1) as nat);
    assert forall|field: Field| taken.contains(field) implies #[trigger] form_in(
        ordered(all),
        field,
    ) == if table(own).dom().contains(field) {
        Some(table(own)[field])
    } else {
        None
    } by {
        lemma_table_kept(own, kept, taken, field);
    }
}

/// What lines that every record's fields are written as say of each of them.
#[verifier::spinoff_prover]
proof fn lemma_own_forms<E: Extension>(record: Record<E>, origin: Option<nat>, own: Found)
    requires
        own.forms == plus_shared(
            record,
            plus(found(Seq::empty()), Field::SegmentNumber, digits_form(origin)),
            shown(record.core_headers().block_digest),
        ).forms,
    ensures
        ({
            let version = record.declared_version();
            let core = record.core_headers();
            &&& holds(own, Field::WarcType, Some(Form::Token(kind_name(record.kind()))))
            &&& holds(
                own,
                Field::RecordID,
                Some(Form::Uri(core.record_id@, is_bracketed_in(version, Field::RecordID))),
            )
            &&& holds(own, Field::Date, Some(Form::Date(core.date@)))
            &&& holds(own, Field::ContentLength, Some(Form::Digits(record.block().len())))
            &&& holds(own, Field::BlockDigest, digest_form(shown(core.block_digest)))
            &&& holds(own, Field::ContentType, media_form(shown(core.content_type)))
            &&& holds(own, Field::Truncated, token_form(reason_token(core)))
            &&& holds(own, Field::SegmentNumber, digits_form(origin))
        }),
{
    lemma_found_nothing();
}

/// Lines that hold what a record of an extension's type says are read as its header.
#[verifier::spinoff_prover]
proof fn lemma_other_is_read<E: Extension>(
    record: Record<E>,
    header: OtherHeader<E>,
    lines: Seq<Entry>,
    own: Found,
)
    requires
        record.header() == RecordHeader::Other(header),
        record.block().len() <= u64::MAX,
        is_named_reason(header.core),
        keeps_own(header),
        fits_version(header.core.date@, header.version),
        is_well_formed(lines),
        repeated_from(lines, 0) is None,
        undefined_from(lines, header.version, 0) is None,
        texts_from(kept_lines(lines), 0) == Ok::<Lines, Seq<char>>(
            lines_of(header.core.unrecognized@),
        ),
        forall|field: Field|
            own_fields().contains(field) ==> #[trigger] form_in(lines, field)
                == if own.forms.dom().contains(field) {
                Some(own.forms[field])
            } else {
                None
            },
        own.forms == plus_shared(
            record,
            plus(
                found(Seq::empty()),
                Field::SegmentNumber,
                digits_form(origin_number(header.segment_origin)),
            ),
            shown(header.core.block_digest),
        ).forms,
    ensures
        reads_back(record, lines),
{
    let version = header.version;
    let core = header.core;
    lemma_own_forms(record, origin_number(header.segment_origin), own);
    match core.truncated {
        Some(reason) => {
            if !(reason is Extension || reason is Unknown) {
                lemma_standard_reason(reason);
            }
        },
        None => {},
    }
    assert(form_in(lines, Field::WarcType) == Some(Form::Token(header.extension.spelled())));
    assert(form_in(lines, Field::RecordID) == Some(
        Form::Uri(core.record_id@, is_bracketed_in(version, Field::RecordID)),
    ));
    assert(form_in(lines, Field::Date) == Some(Form::Date(core.date@)));
    assert(form_in(lines, Field::ContentLength) == Some(Form::Digits(record.block().len())));
    assert(form_in(lines, Field::BlockDigest) == digest_form(shown(core.block_digest)));
    assert(form_in(lines, Field::ContentType) == media_form(shown(core.content_type)));
    assert(form_in(lines, Field::Truncated) == token_form(reason_token(core)));
    assert(form_in(lines, Field::SegmentNumber) == digits_form(
        origin_number(header.segment_origin),
    ));
}

/// A record of an extension's type is read back.
#[verifier::spinoff_prover]
proof fn lemma_other_reads<E: Extension>(record: Record<E>)
    requires
        record is Other,
        record.rendering(None, None) is Ok,
        record.block().len() <= u64::MAX,
        is_faithful_record(record),
        claims_own(record),
    ensures
        all_sound(record.rendering(None, None)->Ok_0, record.declared_version()),
        reads_back(record, record.rendering(None, None)->Ok_0),
{
    let header = record->Other_header;
    let version = header.version;
    let all = record.collected(None, None)->Ok_0;
    let own = all.take(all.len() - header.core.unrecognized@.len());
    lemma_other_says(record, header, own);
    let unclaimed = lines_of(header.core.unrecognized@);
    let kept = kept_entries(unclaimed);
    assert forall|i: int| 0 <= i < kept.len() implies ((#[trigger] kept[i]).0.field matches Some(
        field,
    ) ==> !own_fields().contains(field)) by {
        assert(kept[i].0.field == field_named(unclaimed[i].0));
    }
    assert forall|i: int, j: int| 0 <= i < j < kept.len() implies entry_rank(#[trigger] kept[i])
        <= entry_rank(#[trigger] kept[j]) by {
        assert(entry_rank(kept[i]) == name_rank(unclaimed[i].0));
        assert(entry_rank(kept[j]) == name_rank(unclaimed[j].0));
    }
    lemma_own_and_kept(own, kept, version);
    lemma_other_is_read(record, header, ordered(all), found(own));
}

/// A record that is written is read back: its lines are read as what they say, and what they say is
/// the header that the record holds, with the length of its block.
pub proof fn lemma_record_reads_back<E: Extension>(record: Record<E>)
    requires
        record.rendering(None, None) is Ok,
        record.block().len() <= u64::MAX,
        is_faithful_record(record),
        claims_own(record),
    ensures
        ({
            let lines = record.rendering(None, None)->Ok_0;
            &&& read_entries(lines.map_values(|entry: Entry| entry_line(entry)), 0) == Ok::<
                Seq<Entry>,
                (Field, crate::value::Fault),
            >(lines)
            &&& reads_back(record, lines)
        }),
{
    let lines = record.rendering(None, None)->Ok_0;
    match record {
        Record::Warcinfo { .. } => lemma_warcinfo_reads(record),
        Record::Response { .. } => lemma_response_reads(record),
        Record::Resource { .. } => lemma_resource_reads(record),
        Record::Request { .. } => lemma_request_reads(record),
        Record::Metadata { .. } => lemma_metadata_reads(record),
        Record::Revisit { .. } => lemma_revisit_reads(record),
        Record::Conversion { .. } => lemma_conversion_reads(record),
        Record::Continuation { .. } => lemma_continuation_reads(record),
        Record::Other { .. } => lemma_other_reads(record),
    }
    lemma_entries_read_back(lines, record.declared_version(), 0);
    assert(lines.skip(0) =~= lines);
}

/// Whether two headers hold the same values, apart from their truncation reasons and from what
/// extensions hold.
pub open spec fn same_values<E: Extension>(a: RecordHeader<E>, b: RecordHeader<E>) -> bool {
    let (x, y) = (a.core_headers(), b.core_headers());
    &&& a.declared_version() == b.declared_version()
    &&& x.record_id@ == y.record_id@
    &&& x.date@ == y.date@
    &&& x.content_length == y.content_length
    &&& shown(x.block_digest) == shown(y.block_digest)
    &&& shown(x.content_type) == shown(y.content_type)
    &&& x.truncated is Some <==> y.truncated is Some
    &&& a.target() == b.target()
    &&& a.describing() == b.describing()
    &&& a.address() == b.address()
    &&& a.concurrent() == b.concurrent()
    &&& a.referred() == b.referred()
    &&& a.segment() == b.segment()
    &&& match (a.payload_headers(), b.payload_headers()) {
        (Some(x), Some(y)) => {
            &&& shown(x.payload_digest) == shown(y.payload_digest)
            &&& shown(x.identified_payload_type) == shown(y.identified_payload_type)
        },
        (None, None) => true,
        _ => false,
    }
    &&& match (a, b) {
        (RecordHeader::Warcinfo(x), RecordHeader::Warcinfo(y)) => {
            shown(x.filename) == shown(y.filename)
        },
        (RecordHeader::Revisit(x), RecordHeader::Revisit(y)) => {
            &&& x.profile@ == y.profile@
            &&& shown(x.refers_to_target_uri) == shown(y.refers_to_target_uri)
            &&& shown(x.refers_to_date) == shown(y.refers_to_date)
        },
        (RecordHeader::Continuation(x), RecordHeader::Continuation(y)) => {
            &&& x.segment_origin_id@ == y.segment_origin_id@
            &&& x.segment_total_length == y.segment_total_length
        },
        (RecordHeader::Other(x), RecordHeader::Other(y)) => x.extension == y.extension,
        _ => a.kind() == b.kind(),
    }
}

/// Lines are read as one header: two that read the same lines hold the same values.
pub proof fn lemma_lines_say_one_header<E: Extension>(
    a: RecordHeader<E>,
    b: RecordHeader<E>,
    version: WarcVersion,
    lines: Seq<Entry>,
)
    requires
        RecordHeader::is_lifted(Ok(a), version, lines),
        RecordHeader::is_lifted(Ok(b), version, lines),
    ensures
        same_values(a, b),
{
}

/// A record that is made of a header and a content block has the octets of that block.
pub proof fn lemma_block_is_kept<E: Extension>(
    record: Record<E>,
    header: RecordHeader<E>,
    bytes: Seq<u8>,
)
    requires
        record.is_made_of(header, bytes),
    ensures
        record.block() == bytes,
{
}

} // verus!
