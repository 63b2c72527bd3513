//! Record bodies written as `application/warc-fields`.
//!
//! [`warcinfo`] describes a WARC file or crawl, while [`metadata`] describes another record. Both
//! use optional, repeatable named fields drawn from the [DCMI Metadata Terms], fields defined by
//! the record type, and extension fields. [`Body`] provides their shared representation.
//!
//! [DCMI Metadata Terms]: https://www.dublincore.org/specifications/dublin-core/dcmi-terms/

pub mod dcmi;
pub mod metadata;
pub mod parser;
pub mod serde;
pub mod warcinfo;

use crate::octets::{
    ascii_text, copied, is_ascii, is_trim, lemma_ascii_text, lemma_octets_concat,
    lemma_octets_injective, lowercase, octets, same_but_for_case, to_lowercase, trim, utf8_string,
};
use crate::parsing::{is_lws, is_text, is_text_char, is_token, is_token_char, text, token};
use crate::record::extension::same_name;
use crate::record::fields::dcmi::{first_term, term_named, terms, DcmiTerm};
use crate::record::fields::parser::{
    all_written, fields_from, lemma_field_reads_back, lemma_fields_are_utf8, lemma_unfolded_same,
    read_fields, unfold, unfolded, written, Written,
};
use crate::text::{same_ignoring_case, same_text};
use vstd::prelude::*;
use vstd::utf8::{
    decode_utf8, encode_utf8_decode_utf8, encode_utf8_valid_utf8,
    is_char_boundary_iff_not_is_continuation_byte, valid_utf8, valid_utf8_split,
};

verus! {

/// An error returned by reading or changing a record body written as `application/warc-fields`.
#[derive(Clone, Debug, PartialEq, Eq)]
pub enum Error {
    /// The block contains something other than a named field at the given byte offset.
    NotANamedField {
        /// Where in the block reading stopped.
        offset: usize,
    },
    /// A field's value is not valid UTF-8, which is the only encoding the standard permits.
    InvalidValue {
        /// The name of the field, as it was spelled in the block.
        name: String,
    },
    /// A field carries a name or a value that cannot be written as a valid field line.
    UnwritableField {
        /// The field's name, as it was given.
        name: String,
        /// What about the field cannot be written.
        reason: String,
    },
}

/// What [`Error`] stands for.
pub ghost enum Fault {
    /// Something other than a named field stands at the offset.
    NotANamedField { offset: int },
    /// The value of the field is not UTF-8.
    InvalidValue { name: Seq<char> },
    /// The field cannot be written.
    UnwritableField { name: Seq<char>, reason: Seq<char> },
}

impl View for Error {
    type V = Fault;

    open spec fn view(&self) -> Fault {
        match self {
            Error::NotANamedField { offset } => Fault::NotANamedField { offset: *offset as int },
            Error::InvalidValue { name } => Fault::InvalidValue { name: name@ },
            Error::UnwritableField { name, reason } => Fault::UnwritableField {
                name: name@,
                reason: reason@,
            },
        }
    }
}

/// The first position from `i` on whose name is the given one, whatever the case.
pub open spec fn first_named(names: Seq<Seq<char>>, name: Seq<char>, i: int) -> Option<int>
    decreases names.len() - i,
{
    if i < 0 || i >= names.len() {
        None
    } else if same_name(name, names[i]) {
        Some(i)
    } else {
        first_named(names, name, i + 1)
    }
}

/// A named field of a record body written as `application/warc-fields`.
///
/// Implementations combine DCMI terms, fields defined by the record type, and extension fields.
/// Two fields are the same where their views are.
pub trait Field: View + Sized {
    /// The fields the record type defines for itself, beyond the DCMI vocabulary.
    spec fn known_fields() -> Seq<Self::V>;

    /// The name of a field in its canonical spelling.
    spec fn named(field: Self::V) -> Seq<char>;

    /// The field that holds a term of the DCMI vocabulary.
    spec fn dcmi_field(term: DcmiTerm) -> Self::V;

    /// The field that holds a name of neither vocabulary.
    spec fn other_field(name: Seq<char>) -> Self::V;

    /// The fields the record type defines for itself, beyond the DCMI vocabulary.
    ///
    /// [`from_name`](Self::from_name) checks these before the DCMI vocabulary.
    fn known() -> (r: Vec<Self>)
        ensures
            r@.map_values(|field: Self| field@) == Self::known_fields(),
    ;

    /// The field's name in its canonical spelling.
    ///
    /// This may differ from the source spelling. Unchanged bodies retain their source block.
    fn name(&self) -> (r: &str)
        ensures
            r@ == Self::named(self@),
    ;

    /// The field holding a term of the DCMI vocabulary.
    fn dcmi(term: DcmiTerm) -> (r: Self)
        ensures
            r@ == Self::dcmi_field(term),
    ;

    /// The field holding a name belonging to neither vocabulary, given lower-cased.
    fn other(name: String) -> (r: Self)
        ensures
            r@ == Self::other_field(name@),
    ;

    /// Whether two fields are the same.
    fn is_same(&self, other: &Self) -> (r: bool)
        ensures
            r == (self@ == other@),
    ;

    /// Read a name as the field it names, ignoring case as the standard requires.
    ///
    /// Names outside the known vocabularies become extension fields normalized to lowercase.
    fn from_name(name: &str) -> (r: Self)
        ensures
            r@ == (match first_named(
                Self::known_fields().map_values(|field: Self::V| Self::named(field)),
                name@,
                0,
            ) {
                Some(i) => Self::known_fields()[i],
                None => match term_named(name@) {
                    Some(term) => Self::dcmi_field(term),
                    None => Self::other_field(lowercase(name@)),
                },
            }),
    {
        let mut known = Self::known();
        let ghost fields = Self::known_fields();
        let ghost names = fields.map_values(|field: Self::V| Self::named(field));
        let mut i: usize = 0;
        while i < known.len()
            invariant
                i <= known.len(),
                known@.map_values(|field: Self| field@) == fields,
                fields == Self::known_fields(),
                names == fields.map_values(|field: Self::V| Self::named(field)),
                first_named(names, name@, 0) == first_named(names, name@, i as int),
            decreases known.len() - i,
        {
            assert(fields[i as int] == known@[i as int]@);
            assert(names[i as int] == Self::named(fields[i as int]));
            if same_ignoring_case(name, known[i].name()) {
                return known.remove(i);
            }
            i = i + 1;
        }
        match DcmiTerm::from_name(name) {
            Some(term) => Self::dcmi(term),
            None => Self::other(to_lowercase(name)),
        }
    }
}

/// The field that a name is read as, ignoring case.
pub open spec fn field_named<F: Field>(name: Seq<char>) -> F::V {
    match first_named(F::known_fields().map_values(|field: F::V| F::named(field)), name, 0) {
        Some(i) => F::known_fields()[i],
        None => match term_named(name) {
            Some(term) => F::dcmi_field(term),
            None => F::other_field(lowercase(name)),
        },
    }
}

/// The fields of a body with their values, and the block that it was read from.
#[verifier::ext_equal]
pub ghost struct Content<V> {
    /// The fields in order, with a repeated field once per appearance.
    pub fields: Seq<(V, Seq<char>)>,
    /// The block that the body was read from, until the body is changed.
    pub source: Option<Seq<char>>,
}

/// A record body written as `application/warc-fields`.
///
/// Fields retain their order and may repeat. [`get`](Self::get) returns the first value, while
/// [`get_all`](Self::get_all) returns every value.
///
/// A parsed body keeps its source block for byte-exact round-tripping. Changing the body discards
/// the source, after which the fields are rendered canonically. See [`source`](Self::source).
///
/// A field of a body is one the grammar can write back: [`push`](Self::push) refuses a name that
/// is not a token or a value that is not `TEXT`, and a parsed block holds nothing else.
#[derive(Clone, Debug)]
pub struct Body<F> {
    fields: Vec<(F, String)>,
    source: Option<String>,
}

impl<F: View> View for Body<F> {
    type V = Content<F::V>;

    closed spec fn view(&self) -> Content<F::V> {
        Content {
            fields: self.fields@.map_values(|field: (F, String)| (field.0@, field.1@)),
            source: match self.source {
                Some(source) => Some(source@),
                None => None,
            },
        }
    }
}

/// Whether a field can be written as a field line: its name is a token and its value is TEXT.
pub open spec fn is_writable<F: Field>(field: (F::V, Seq<char>)) -> bool {
    is_token(octets(F::named(field.0))) && is_text(octets(field.1))
}

/// What about a field cannot be written, where something cannot.
pub open spec fn unwritable<F: Field>(field: F::V, value: Seq<char>) -> Option<Fault> {
    if !is_token(octets(F::named(field))) {
        Some(
            Fault::UnwritableField { name: F::named(field), reason: "the name is not a token"@ },
        )
    } else if !is_text(octets(value)) {
        Some(
            Fault::UnwritableField {
                name: F::named(field),
                reason: "the value holds a control character"@,
            },
        )
    } else {
        None
    }
}

/// The canonical field line of a field.
pub open spec fn field_line<F: Field>(field: (F::V, Seq<char>)) -> Seq<char> {
    F::named(field.0) + ": "@ + field.1 + "\r\n"@
}

/// The canonical field lines of fields.
pub open spec fn field_lines<F: Field>(fields: Seq<(F::V, Seq<char>)>) -> Seq<char>
    decreases fields.len(),
{
    if fields.len() == 0 {
        Seq::empty()
    } else {
        field_lines::<F>(fields.drop_last()) + field_line::<F>(fields.last())
    }
}

/// The block that a body is written as: the one it was read from, or its canonical field lines.
pub open spec fn rendered<F: Field>(body: Content<F::V>) -> Seq<char> {
    match body.source {
        Some(source) => source,
        None => field_lines::<F>(body.fields),
    }
}

/// The values written for a field among fields, in order.
pub open spec fn values_of<V>(fields: Seq<(V, Seq<char>)>, field: V) -> Seq<Seq<char>>
    decreases fields.len(),
{
    if fields.len() == 0 {
        Seq::empty()
    } else {
        let before = values_of(fields.drop_last(), field);
        if fields.last().0 == field {
            before.push(fields.last().1)
        } else {
            before
        }
    }
}

/// Fields without any line of one of them.
pub open spec fn without<V>(fields: Seq<(V, Seq<char>)>, field: V) -> Seq<(V, Seq<char>)>
    decreases fields.len(),
{
    if fields.len() == 0 {
        fields
    } else {
        let before = without(fields.drop_last(), field);
        if fields.last().0 == field {
            before
        } else {
            before.push(fields.last())
        }
    }
}

/// Where a field first appears from `i` on, or the number of fields.
pub open spec fn first_appearance<V>(fields: Seq<(V, Seq<char>)>, field: V, i: int) -> int
    decreases fields.len() - i,
{
    if i < 0 || i >= fields.len() || fields[i].0 == field {
        i
    } else {
        first_appearance(fields, field, i + 1)
    }
}

/// Fields with one value for a field: at its first appearance, or at the end.
pub open spec fn replaced<V>(fields: Seq<(V, Seq<char>)>, field: V, value: Seq<char>) -> Seq<
    (V, Seq<char>),
> {
    let first = first_appearance(fields, field, 0);
    fields.take(first) + seq![(field, value)] + without(fields.skip(first), field)
}

proof fn lemma_first_appearance<V>(fields: Seq<(V, Seq<char>)>, field: V, i: int)
    requires
        0 <= i <= fields.len(),
    ensures
        i <= first_appearance(fields, field, i) <= fields.len(),
        forall|j: int|
            i <= j < first_appearance(fields, field, i) ==> (#[trigger] fields[j]).0 != field,
        first_appearance(fields, field, i) < fields.len() ==> fields[first_appearance(
            fields,
            field,
            i,
        )].0 == field,
    decreases fields.len() - i,
{
    if i < fields.len() && fields[i].0 != field {
        lemma_first_appearance(fields, field, i + 1);
    }
}

proof fn lemma_without<V>(fields: Seq<(V, Seq<char>)>, field: V)
    ensures
        forall|j: int|
            0 <= j < without(fields, field).len() ==> fields.contains(
                #[trigger] without(fields, field)[j],
            ) && without(fields, field)[j].0 != field,
        values_of(without(fields, field), field) == Seq::<Seq<char>>::empty(),
    decreases fields.len(),
{
    if fields.len() > 0 {
        let shorter = fields.drop_last();
        lemma_without(shorter, field);
        let kept = without(shorter, field);
        assert forall|j: int| 0 <= j < without(fields, field).len() implies fields.contains(
            #[trigger] without(fields, field)[j],
        ) && without(fields, field)[j].0 != field by {
            if j < kept.len() {
                let k = choose|k: int| 0 <= k < shorter.len() && shorter[k] == kept[j];
                assert(fields[k] == kept[j]);
            } else {
                assert(fields[fields.len() - 1] == fields.last());
            }
        }
        if fields.last().0 != field {
            assert(kept.push(fields.last()).drop_last() =~= kept);
        }
    }
}

proof fn lemma_values_split<V>(a: Seq<(V, Seq<char>)>, b: Seq<(V, Seq<char>)>, field: V)
    ensures
        values_of(a + b, field) == values_of(a, field) + values_of(b, field),
    decreases b.len(),
{
    if b.len() == 0 {
        assert(a + b =~= a);
        assert(values_of(a, field) + values_of(b, field) =~= values_of(a, field));
    } else {
        lemma_values_split(a, b.drop_last(), field);
        assert((a + b).drop_last() =~= a + b.drop_last());
        assert(values_of(a + b, field) =~= values_of(a, field) + values_of(b, field));
    }
}

/// A field that is given one value has that value and no other, and every other field keeps its
/// values in order.
pub proof fn lemma_replaced<V>(fields: Seq<(V, Seq<char>)>, field: V, value: Seq<char>, other: V)
    ensures
        values_of(replaced(fields, field, value), field) == seq![value],
        other != field ==> values_of(replaced(fields, field, value), other) == values_of(
            fields,
            other,
        ),
{
    lemma_first_appearance(fields, field, 0);
    let first = first_appearance(fields, field, 0);
    let head = fields.take(first);
    let tail = fields.skip(first);
    let line = seq![(field, value)];
    let kept = without(tail, field);
    lemma_without(tail, field);
    lemma_without_keeps(tail, field, other);
    lemma_values_split(head + line, kept, field);
    lemma_values_split(head, line, field);
    lemma_values_split(head + line, kept, other);
    lemma_values_split(head, line, other);
    lemma_values_split(head, tail, other);
    assert(head + tail =~= fields);
    assert(line.drop_last() =~= Seq::empty());
    assert forall|j: int| 0 <= j < head.len() implies (#[trigger] head[j]).0 != field by {
        assert(head[j] == fields[j]);
    }
    lemma_no_values(head, field);
    assert(values_of(line.drop_last(), field) =~= Seq::empty());
    assert(values_of(line.drop_last(), other) =~= Seq::empty());
    assert(values_of(line, field) =~= seq![value]);
    assert(values_of(replaced(fields, field, value), field) =~= seq![value]);
    if other != field {
        assert(values_of(line, other) =~= Seq::empty());
        assert(values_of(replaced(fields, field, value), other) =~= values_of(fields, other));
    }
}

proof fn lemma_no_values<V>(fields: Seq<(V, Seq<char>)>, field: V)
    requires
        forall|j: int| 0 <= j < fields.len() ==> (#[trigger] fields[j]).0 != field,
    ensures
        values_of(fields, field) == Seq::<Seq<char>>::empty(),
    decreases fields.len(),
{
    if fields.len() > 0 {
        assert(fields[fields.len() - 1].0 != field);
        lemma_no_values(fields.drop_last(), field);
    }
}

proof fn lemma_without_keeps<V>(fields: Seq<(V, Seq<char>)>, field: V, other: V)
    ensures
        other != field ==> values_of(without(fields, field), other) == values_of(fields, other),
    decreases fields.len(),
{
    if fields.len() > 0 {
        lemma_without_keeps(fields.drop_last(), field, other);
        if fields.last().0 != field {
            let kept = without(fields.drop_last(), field);
            assert(kept.push(fields.last()).drop_last() =~= kept);
        }
    }
}

/// A block with the line break that closes its last line, where that lacks one.
pub open spec fn terminated(block: Seq<u8>) -> Seq<u8> {
    if block.len() > 0 && block.last() != 0x0a {
        block + seq![0x0du8, 0x0au8]
    } else {
        block
    }
}

/// Where what stands behind one blank line starts, for a blank line that may stand at `at`.
pub open spec fn after_blank(s: Seq<u8>, at: int) -> int {
    if at + 1 < s.len() && s[at] == 0x0d && s[at + 1] == 0x0a {
        at + 2
    } else if at < s.len() && s[at] == 0x0a {
        at + 1
    } else {
        at
    }
}

/// The first field from `i` on whose value is not UTF-8.
pub open spec fn first_invalid(fields: Seq<Written>, i: int) -> Option<int>
    decreases fields.len() - i,
{
    if i < 0 || i >= fields.len() {
        None
    } else if !valid_utf8(unfolded(fields[i].1)) {
        Some(i)
    } else {
        first_invalid(fields, i + 1)
    }
}

/// A written field as the body holds it.
pub open spec fn read_as<F: Field>(field: Written) -> (F::V, Seq<char>) {
    (field_named::<F>(field.0), decode_utf8(unfolded(field.1)))
}

/// The fields that a block holds: named fields with values in UTF-8, closed by at most one blank
/// line. The line break of the last line may be missing.
pub open spec fn fields_of<F: Field>(block: Seq<u8>) -> Result<Seq<(F::V, Seq<char>)>, Fault> {
    let s = terminated(block);
    let (fields, stop) = fields_from(s, 0);
    let rest = after_blank(s, stop);
    if rest < s.len() {
        Err(Fault::NotANamedField { offset: rest })
    } else {
        match first_invalid(fields, 0) {
            Some(i) => Err(Fault::InvalidValue { name: fields[i].0 }),
            None => Ok(fields.map_values(|field: Written| read_as::<F>(field))),
        }
    }
}

proof fn lemma_first_invalid(fields: Seq<Written>, i: int)
    requires
        0 <= i <= fields.len(),
        first_invalid(fields, i) is None,
    ensures
        forall|j: int| i <= j < fields.len() ==> valid_utf8(unfolded((#[trigger] fields[j]).1)),
    decreases fields.len() - i,
{
    if i < fields.len() {
        lemma_first_invalid(fields, i + 1);
    }
}

/// A block of fields with values in UTF-8 is UTF-8.
proof fn lemma_block_is_utf8<F: Field>(block: Seq<u8>)
    requires
        fields_of::<F>(block) is Ok,
    ensures
        valid_utf8(block),
{
    let s = terminated(block);
    let (fields, stop) = fields_from(s, 0);
    lemma_first_invalid(fields, 0);
    lemma_stop(s, 0);
    let rest = s.skip(stop);
    assert forall|j: int| 0 <= j < rest.len() implies #[trigger] rest[j] < 128 by {
        assert(rest[j] == s[stop + j]);
    }
    lemma_ascii_text(rest);
    lemma_fields_are_utf8(s, 0);
    assert(s.skip(0) =~= s);
    if s != block {
        let at = block.len() as int;
        assert(s[at] == 0x0d);
        is_char_boundary_iff_not_is_continuation_byte(s, at);
        valid_utf8_split(s, at);
        assert(s.subrange(0, at) =~= block);
    }
}

proof fn lemma_stop(s: Seq<u8>, offset: int)
    requires
        0 <= offset <= s.len(),
    ensures
        offset <= fields_from(s, offset).1 <= s.len(),
    decreases s.len() - offset,
{
    if let Some((field, next)) = crate::record::fields::parser::field_at(s, offset) {
        if offset < next <= s.len() {
            lemma_stop(s, next);
        }
    }
}

/// Whether a field reads back as itself from its canonical field line: its name is the one that it
/// is read from, and its value neither opens nor closes with white space.
pub open spec fn is_canonical<F: Field>(field: (F::V, Seq<char>)) -> bool {
    let value = octets(field.1);
    &&& is_writable::<F>(field)
    &&& field_named::<F>(F::named(field.0)) == field.0
    &&& is_trim(value)
}

/// A field as its canonical field line writes it.
spec fn line_written<F: Field>(field: (F::V, Seq<char>)) -> Written {
    (F::named(field.0), seq![0x20u8] + octets(field.1))
}

proof fn lemma_line_octets<F: Field>(field: (F::V, Seq<char>))
    ensures
        octets(field_line::<F>(field)) == octets(F::named(field.0)) + seq![0x3au8, 0x20u8] + octets(
            field.1,
        ) + seq![0x0du8, 0x0au8],
{
    let name = F::named(field.0);
    lemma_octets_concat(name, ": "@);
    lemma_octets_concat(name + ": "@, field.1);
    lemma_octets_concat(name + ": "@ + field.1, "\r\n"@);
    reveal_strlit(": ");
    reveal_strlit("\r\n");
    assert(": "@ =~= ascii_text(seq![0x3au8, 0x20u8]));
    assert("\r\n"@ =~= ascii_text(seq![0x0du8, 0x0au8]));
    lemma_ascii_text(seq![0x3au8, 0x20u8]);
    lemma_ascii_text(seq![0x0du8, 0x0au8]);
}

proof fn lemma_lines_read_back<F: Field>(fields: Seq<(F::V, Seq<char>)>, k: int, after: Seq<u8>)
    requires
        0 <= k <= fields.len(),
        forall|i: int| 0 <= i < fields.len() ==> is_canonical::<F>(#[trigger] fields[i]),
        after.len() > 0 ==> !is_lws(after[0]),
    ensures
        ({
            let s = octets(field_lines::<F>(fields.take(k))) + after;
            let at = octets(field_lines::<F>(fields.take(k))).len() as int;
            let written = fields.take(k).map_values(|f: (F::V, Seq<char>)| line_written::<F>(f));
            fields_from(s, 0) == (written + fields_from(s, at).0, fields_from(s, at).1)
        }),
    decreases k,
{
    let view = |f: (F::V, Seq<char>)| line_written::<F>(f);
    let head = fields.take(k);
    let lines = octets(field_lines::<F>(head));
    let s = lines + after;
    if k == 0 {
        assert(head =~= Seq::empty());
        assert(field_lines::<F>(head) =~= Seq::empty());
        assert(lines =~= Seq::empty());
        assert(head.map_values(view) =~= Seq::empty());
        assert(Seq::<Written>::empty() + fields_from(s, 0).0 =~= fields_from(s, 0).0);
    } else {
        let shorter = fields.take(k - 1);
        let field = fields[k - 1];
        assert(head.drop_last() =~= shorter);
        assert(head.last() == field);
        assert(is_canonical::<F>(field));
        lemma_line_octets::<F>(field);
        let line = octets(field_line::<F>(field));
        let before = octets(field_lines::<F>(shorter));
        lemma_octets_concat(field_lines::<F>(shorter), field_line::<F>(field));
        assert(lines == before + line);
        let name = octets(F::named(field.0));
        let value = octets(field.1);
        assert(is_token_char(name[0]));
        assert((line + after)[0] == name[0]);
        lemma_lines_read_back::<F>(fields, k - 1, line + after);
        assert(before + (line + after) =~= s);
        lemma_field_reads_back(before, name, value, after);
        assert(before + line + after =~= s);
        lemma_token_text(F::named(field.0));
        let at = before.len() as int;
        let next = lines.len() as int;
        let tail = fields_from(s, next);
        assert(fields_from(s, at) == (seq![line_written::<F>(field)] + tail.0, tail.1));
        assert(shorter.map_values(view) + (seq![line_written::<F>(field)] + tail.0)
            =~= head.map_values(view) + tail.0);
    }
}

proof fn lemma_token_text(name: Seq<char>)
    requires
        is_token(octets(name)),
    ensures
        ascii_text(octets(name)) == name,
{
    assert forall|i: int| 0 <= i < octets(name).len() implies #[trigger] octets(name)[i] < 128 by {
        assert(is_token_char(octets(name)[i]));
    }
    lemma_ascii_text(octets(name));
    lemma_octets_injective(ascii_text(octets(name)), name);
}

/// Fields that are canonical read back as themselves from their canonical field lines.
pub proof fn lemma_body_reads_back<F: Field>(fields: Seq<(F::V, Seq<char>)>)
    requires
        forall|i: int| 0 <= i < fields.len() ==> is_canonical::<F>(#[trigger] fields[i]),
    ensures
        fields_of::<F>(octets(field_lines::<F>(fields))) == Ok::<Seq<(F::V, Seq<char>)>, Fault>(
            fields,
        ),
{
    let view = |f: (F::V, Seq<char>)| line_written::<F>(f);
    let s = octets(field_lines::<F>(fields));
    assert(fields.take(fields.len() as int) =~= fields);
    lemma_lines_read_back::<F>(fields, fields.len() as int, Seq::empty());
    assert(s + Seq::<u8>::empty() =~= s);
    if fields.len() > 0 {
        lemma_line_octets::<F>(fields.last());
        lemma_octets_concat(field_lines::<F>(fields.drop_last()), field_line::<F>(fields.last()));
        assert(s.last() == 0x0a);
    } else {
        assert(s =~= Seq::empty());
    }
    assert(terminated(s) == s);
    let at = s.len() as int;
    assert(crate::parsing::line_break(s, at) == at);
    assert(fields_from(s, at) == (Seq::<Written>::empty(), at));
    let all = fields.map_values(view);
    assert(all + Seq::<Written>::empty() =~= all);
    assert forall|i: int| 0 <= i < fields.len() implies valid_utf8(
        unfolded((#[trigger] all[i]).1),
    ) && read_as::<F>(all[i]) == fields[i] by {
        let field = fields[i];
        assert(is_canonical::<F>(field));
        let value = octets(field.1);
        assert forall|j: int| 0 <= j < value.len() implies #[trigger] value[j] != 0x0a by {
            assert(is_text_char(value[j]));
        }
        lemma_unfolded_same(seq![0x20u8], value);
        encode_utf8_valid_utf8(field.1);
        encode_utf8_decode_utf8(field.1);
    }
    lemma_all_valid(all, 0);
    assert(all.map_values(|field: Written| read_as::<F>(field)) =~= fields);
}

proof fn lemma_all_valid(fields: Seq<Written>, i: int)
    requires
        0 <= i <= fields.len(),
        forall|j: int| i <= j < fields.len() ==> valid_utf8(unfolded((#[trigger] fields[j]).1)),
    ensures
        first_invalid(fields, i) is None,
    decreases fields.len() - i,
{
    if i < fields.len() {
        assert(valid_utf8(unfolded(fields[i].1)));
        lemma_all_valid(fields, i + 1);
    }
}

impl<F> Body<F> {
    /// An empty body.
    pub fn new() -> (r: Self) where F: Field
        ensures
            r@.fields == Seq::<(F::V, Seq<char>)>::empty(),
            r@.source is None,
    {
        let r: Body<F> = Body { fields: Vec::new(), source: None };
        assert(r@.fields =~= Seq::empty());
        r
    }

    /// The block this body was read from, exactly as it was read.
    ///
    /// This is `None` for a new or modified body, which is rendered canonically. A caller that
    /// needs to preserve an existing block digest can use this to check whether the original bytes
    /// are still available.
    pub fn source(&self) -> (r: Option<&str>) where F: Field
        ensures
            match r {
                Some(source) => self@.source == Some(source@),
                None => self@.source is None,
            },
    {
        match &self.source {
            Some(source) => Some(source.as_str()),
            None => None,
        }
    }

    /// Every field of the body, in the order they appeared.
    pub fn iter(&self) -> (r: Vec<(&F, &str)>) where F: Field
        ensures
            r@.map_values(|field: (&F, &str)| (field.0@, field.1@)) == self@.fields,
    {
        let mut out: Vec<(&F, &str)> = Vec::new();
        let mut i: usize = 0;
        while i < self.fields.len()
            invariant
                i <= self.fields.len(),
                out.len() == i,
                forall|j: int|
                    0 <= j < i ==> (#[trigger] out@[j]).0@ == self.fields@[j].0@ && out@[j].1@
                        == self.fields@[j].1@,
            decreases self.fields.len() - i,
        {
            out.push((&self.fields[i].0, self.fields[i].1.as_str()));
            i = i + 1;
        }
        assert(out@.map_values(|field: (&F, &str)| (field.0@, field.1@)) =~= self@.fields);
        out
    }

    /// The number of field lines in the body, counting a repeated name once per appearance.
    pub fn len(&self) -> (r: usize) where F: Field
        ensures
            r == self@.fields.len(),
    {
        self.fields.len()
    }

    /// Whether the body has no fields.
    pub fn is_empty(&self) -> (r: bool) where F: Field
        ensures
            r == (self@.fields.len() == 0),
    {
        self.fields.len() == 0
    }
}

/// Check that a field can be written back as a field line before it is added to a body.
fn check_writable<F: Field>(field: &F, value: &str) -> (r: Result<(), Error>)
    ensures
        match r {
            Ok(_) => unwritable::<F>(field@, value@) is None,
            Err(e) => unwritable::<F>(field@, value@) == Some(e@),
        },
{
    let name = field.name();
    if !token(name.as_bytes()) {
        return Err(
            Error::UnwritableField {
                name: name.to_owned(),
                reason: "the name is not a token".to_owned(),
            },
        );
    }
    // A value is held here with its folds already resolved, so a line break in one is a field
    // line the caller wrote into it rather than a fold.

    if !text(value.as_bytes()) {
        return Err(
            Error::UnwritableField {
                name: name.to_owned(),
                reason: "the value holds a control character".to_owned(),
            },
        );
    }
    Ok(())
}

impl<F: Field> Body<F> {
    /// Add a field to the end of the body, whether or not it already appears.
    ///
    /// This releases the retained source block, so the body is written canonically from here on.
    ///
    /// A name that is not a token and a value that is not `TEXT` are refused, and the body stays
    /// as it was. A value holding a line break would be read back as a field of its own, and a
    /// name outside the token grammar would not be read back as a field at all.
    pub fn push(&mut self, field: F, value: &str) -> (r: Result<(), Error>)
        ensures
            match r {
                Ok(_) => unwritable::<F>(field@, value@) is None && final(self)@.fields == old(
                    self,
                )@.fields.push((field@, value@)) && final(self)@.source is None,
                Err(e) => unwritable::<F>(field@, value@) == Some(e@) && final(self)@ == old(
                    self,
                )@,
            },
    {
        match check_writable(&field, value) {
            Err(e) => {
                return Err(e);
            },
            Ok(_) => {},
        }
        self.fields.push((field, value.to_owned()));
        self.source = None;
        assert(self@.fields =~= old(self)@.fields.push((field@, value@)));
        Ok(())
    }

    /// Give a field one value, in place of every value it already has.
    ///
    /// A field the body does not carry is added at the end. One it carries already keeps the
    /// position of its first appearance and loses any other.
    ///
    /// This releases the retained source block, so the body is written canonically from here on.
    /// What [`push`](Self::push) refuses is refused here too.
    pub fn set(&mut self, field: F, value: &str) -> (r: Result<(), Error>)
        ensures
            match r {
                Ok(_) => unwritable::<F>(field@, value@) is None && final(self)@.fields
                    == replaced(old(self)@.fields, field@, value@) && final(self)@.source is None,
                Err(e) => unwritable::<F>(field@, value@) == Some(e@) && final(self)@ == old(
                    self,
                )@,
            },
    {
        match check_writable(&field, value) {
            Err(e) => {
                return Err(e);
            },
            Ok(_) => {},
        }
        let ghost all = self@.fields;
        let first = self.position(&field);
        proof {
            lemma_first_appearance(all, field@, 0);
        }
        let mut held: Vec<(F, String)> = Vec::new();
        std::mem::swap(&mut held, &mut self.fields);
        let mut kept: Vec<(F, String)> = Vec::new();
        if first < held.len() {
            let mut behind = held.split_off(first);
            let ghost tail = behind@.map_values(|line: (F, String)| (line.0@, line.1@));
            assert(tail =~= all.skip(first as int));
            assert(held@.map_values(|line: (F, String)| (line.0@, line.1@)) =~= all.take(
                first as int,
            ));
            kept = Body::lines_without(behind, &field);
            assert(kept@.map_values(|line: (F, String)| (line.0@, line.1@)) == without(
                all.skip(first as int),
                field@,
            ));
        } else {
            assert(all.take(first as int) =~= all);
            assert(all.skip(first as int) =~= Seq::empty());
            assert(held@.map_values(|line: (F, String)| (line.0@, line.1@)) =~= all);
            assert(kept@.map_values(|line: (F, String)| (line.0@, line.1@)) =~= Seq::empty());
        }
        let ghost head = held@;
        let ghost rest = kept@;
        let ghost view = |line: (F, String)| (line.0@, line.1@);
        held.push((field, value.to_owned()));
        let ghost line = held@.last();
        held.append(&mut kept);
        self.fields = held;
        self.source = None;
        proof {
            assert(self.fields@ =~= head.push(line) + rest);
            assert(self@.fields =~= head.map_values(view) + seq![(field@, value@)]
                + rest.map_values(view));
        }
        Ok(())
    }

    /// Where a field first appears, or the number of fields.
    fn position(&self, field: &F) -> (r: usize)
        ensures
            r == first_appearance(self@.fields, field@, 0),
            r <= self.fields.len(),
    {
        let mut i: usize = 0;
        while i < self.fields.len()
            invariant
                i <= self.fields.len(),
                first_appearance(self@.fields, field@, 0) == first_appearance(
                    self@.fields,
                    field@,
                    i as int,
                ),
            decreases self.fields.len() - i,
        {
            assert(self@.fields[i as int].0 == self.fields@[i as int].0@);
            if self.fields[i].0.is_same(field) {
                return i;
            }
            i = i + 1;
        }
        i
    }

    /// Lines without those of a field.
    fn lines_without(lines: Vec<(F, String)>, field: &F) -> (r: Vec<(F, String)>)
        ensures
            r@.map_values(|line: (F, String)| (line.0@, line.1@)) == without(
                lines@.map_values(|line: (F, String)| (line.0@, line.1@)),
                field@,
            ),
    {
        let ghost view = |line: (F, String)| (line.0@, line.1@);
        let ghost all = lines@;
        let ghost mut seen: int = 0;
        let mut lines = lines;
        let mut i: usize = 0;
        proof {
            assert(all.take(0).map_values(view) =~= Seq::empty());
            assert(lines@.take(0).map_values(view) =~= Seq::empty());
        }
        while i < lines.len()
            invariant
                i <= lines.len(),
                0 <= seen <= all.len(),
                view == |line: (F, String)| (line.0@, line.1@),
                lines@.skip(i as int) == all.skip(seen),
                lines@.take(i as int).map_values(view) == without(
                    all.take(seen).map_values(view),
                    field@,
                ),
            decreases lines.len() - i,
        {
            let ghost before = lines@;
            proof {
                assert(before.skip(i as int).len() == all.skip(seen).len());
                assert(before.skip(i as int)[0] == all.skip(seen)[0]);
                assert(before[i as int] == all[seen]);
                let longer = all.take(seen + 1).map_values(view);
                assert(longer.drop_last() =~= all.take(seen).map_values(view));
                assert(longer.last() == view(all[seen]));
                seen = seen + 1;
            }
            if lines[i].0.is_same(field) {
                lines.remove(i);
                assert(lines@.take(i as int) =~= before.take(i as int));
                assert(lines@.skip(i as int) =~= before.skip(i as int).skip(1));
                assert(all.skip(seen) =~= all.skip(seen - 1).skip(1));
            } else {
                i = i + 1;
                assert(lines@.skip(i as int) =~= before.skip(i - 1).skip(1));
                assert(all.skip(seen) =~= all.skip(seen - 1).skip(1));
                assert(lines@.take(i as int).map_values(view) =~= lines@.take(i - 1).map_values(
                    view,
                ).push(view(all[seen - 1])));
            }
        }
        proof {
            assert(lines@.skip(i as int).len() == 0);
            assert(all.skip(seen).len() == all.len() - seen);
            assert(all.take(seen) =~= all);
            assert(lines@.take(i as int) =~= lines@);
        }
        lines
    }

    /// The number of octets the body renders as, which is the `Content-Length` of a record
    /// carrying it.
    ///
    /// A body still holding the block it was read from reports that block's length.
    pub fn rendered_len(&self) -> (r: usize)
        ensures
            r == octets(rendered::<F>(self@)).len(),
    {
        let written = self.to_string();
        written.as_str().as_bytes().len()
    }

    /// Parse a record body.
    ///
    /// Values must be UTF-8. Folds become single spaces. The final field may end with `CRLF` or at
    /// the end of the block.
    ///
    /// The block is kept alongside the fields it was read as, so that writing the body back out
    /// reproduces it byte for byte. See [`source`](Self::source).
    ///
    /// A block that holds anything but a named field is refused at the offset of what is left
    /// unread, and a field with a value that is not UTF-8 under its name.
    pub fn parse(block: &[u8]) -> (r: Result<Self, Error>)
        ensures
            match r {
                Ok(body) => fields_of::<F>(block@) == Ok::<Seq<(F::V, Seq<char>)>, Fault>(
                    body@.fields,
                ) && body@.source is Some && octets(body@.source->0) == block@,
                Err(e) => fields_of::<F>(block@) == Err::<Seq<(F::V, Seq<char>)>, Fault>(e@),
            },
    {
        let parsed = if block.len() > 0 && block[block.len() - 1] != 0x0a {
            let mut closed = copied(block);
            closed.push(0x0d);
            closed.push(0x0a);
            assert(closed@ =~= terminated(block@));
            Self::parse_terminated(closed.as_slice(), Ghost(block@))
        } else {
            Self::parse_terminated(block, Ghost(block@))
        };
        let mut body = match parsed {
            Ok(body) => body,
            Err(e) => {
                return Err(e);
            },
        };
        // Every value has just been decoded as UTF-8, everything the grammar writes around a
        // value is ASCII, and folds are joined at a space, so a block that parsed is valid UTF-8.
        // We keep the caller's block rather than the terminated copy, so that a body written back
        // out is the bytes that were read.
        proof {
            lemma_block_is_utf8::<F>(block@);
        }
        match utf8_string(copied(block)) {
            Some(source) => {
                body.source = Some(source);
            },
            None => {},
        }
        Ok(body)
    }

    /// Read a block whose last field line is known to be terminated.
    fn parse_terminated(s: &[u8], Ghost(block): Ghost<Seq<u8>>) -> (r: Result<Self, Error>)
        requires
            s@ == terminated(block),
        ensures
            match r {
                Ok(body) => fields_of::<F>(block) == Ok::<Seq<(F::V, Seq<char>)>, Fault>(
                    body@.fields,
                ),
                Err(e) => fields_of::<F>(block) == Err::<Seq<(F::V, Seq<char>)>, Fault>(e@),
            },
    {
        // Reading stops at the first line that is not a named field rather than failing, so a
        // malformed block is reported at the offset of whatever was left unread.
        let (parsed, stop) = read_fields(s, 0);
        // The grammar closes a block with one bare CRLF, which carries no field of its own.
        let rest: usize = if s.len() - stop >= 2 && s[stop] == 0x0d && s[stop + 1] == 0x0a {
            stop + 2
        } else if stop < s.len() && s[stop] == 0x0a {
            stop + 1
        } else {
            stop
        };
        if rest < s.len() {
            return Err(Error::NotANamedField { offset: rest });
        }
        let ghost all = all_written(parsed@);
        let ghost view = |field: (F, String)| (field.0@, field.1@);
        let mut fields: Vec<(F, String)> = Vec::new();
        let mut i: usize = 0;
        while i < parsed.len()
            invariant
                i <= parsed.len(),
                s@ == terminated(block),
                all == all_written(parsed@),
                (all, stop as int) == fields_from(s@, 0),
                rest == after_blank(s@, stop as int),
                rest >= s.len(),
                view == |field: (F, String)| (field.0@, field.1@),
                first_invalid(all, 0) == first_invalid(all, i as int),
                fields.len() == i,
                forall|j: int| 0 <= j < i ==> view(#[trigger] fields@[j]) == read_as::<F>(all[j]),
            decreases parsed.len() - i,
        {
            assert(all[i as int] == written(parsed@[i as int]));
            let joined = unfold(parsed[i].1.as_slice());
            let value = copied(trim(joined.as_slice()));
            assert(value@ == unfolded(all[i as int].1));
            match utf8_string(value) {
                None => {
                    return Err(Error::InvalidValue { name: parsed[i].0.clone() });
                },
                Some(value_text) => {
                    proof {
                        encode_utf8_decode_utf8(value_text@);
                    }
                    fields.push((F::from_name(parsed[i].0.as_str()), value_text));
                },
            }
            i = i + 1;
        }
        let body = Body { fields, source: None };
        assert(body@.fields =~= all.map_values(|field: Written| read_as::<F>(field)));
        Ok(body)
    }

    /// The first value written for a field, if it appears at all.
    pub fn get(&self, field: &F) -> (r: Option<&str>)
        ensures
            match r {
                Some(value) => values_of(self@.fields, field@).len() > 0 && value@ == values_of(
                    self@.fields,
                    field@,
                )[0],
                None => values_of(self@.fields, field@).len() == 0,
            },
    {
        let first = self.position(field);
        proof {
            lemma_first_value(self@.fields, field@);
            lemma_first_appearance(self@.fields, field@, 0);
        }
        if first < self.fields.len() {
            assert(self@.fields[first as int].1 == self.fields@[first as int].1@);
            Some(self.fields[first].1.as_str())
        } else {
            None
        }
    }

    /// Every value written for a field, in the order they appeared.
    pub fn get_all(&self, field: &F) -> (r: Vec<&str>)
        ensures
            r@.map_values(|value: &str| value@) == values_of(self@.fields, field@),
    {
        let ghost view = |value: &str| value@;
        let mut out: Vec<&str> = Vec::new();
        let mut i: usize = 0;
        assert(out@.map_values(view) =~= values_of(self@.fields.take(0), field@));
        while i < self.fields.len()
            invariant
                i <= self.fields.len(),
                view == |value: &str| value@,
                out@.map_values(view) == values_of(self@.fields.take(i as int), field@),
            decreases self.fields.len() - i,
        {
            let ghost before = out@;
            proof {
                let longer = self@.fields.take(i + 1);
                assert(longer.drop_last() =~= self@.fields.take(i as int));
                assert(longer.last().0 == self.fields@[i as int].0@);
                assert(longer.last().1 == self.fields@[i as int].1@);
            }
            if self.fields[i].0.is_same(field) {
                let value = self.fields[i].1.as_str();
                out.push(value);
                assert(out@.map_values(view) =~= before.map_values(view).push(value@));
            }
            i = i + 1;
        }
        assert(self@.fields.take(i as int) =~= self@.fields);
        out
    }

    /// The source block if the body is unchanged, or one canonical `CRLF` terminated line per
    /// field.
    ///
    /// The record framing, not this function, adds the final blank line.
    pub fn to_string(&self) -> (r: String)
        ensures
            r@ == rendered::<F>(self@),
    {
        if let Some(source) = &self.source {
            return source.clone();
        }
        let mut out = String::new();
        let mut i: usize = 0;
        assert(out@ =~= field_lines::<F>(self@.fields.take(0)));
        while i < self.fields.len()
            invariant
                i <= self.fields.len(),
                out@ == field_lines::<F>(self@.fields.take(i as int)),
            decreases self.fields.len() - i,
        {
            let ghost before = out@;
            out.append(self.fields[i].0.name());
            out.append(": ");
            out.append(self.fields[i].1.as_str());
            out.append("\r\n");
            proof {
                let longer = self@.fields.take(i + 1);
                assert(longer.drop_last() =~= self@.fields.take(i as int));
                assert(longer.last() == (self.fields@[i as int].0@, self.fields@[i as int].1@));
                assert(out@ =~= before + field_line::<F>(longer.last()));
            }
            i = i + 1;
        }
        assert(self@.fields.take(i as int) =~= self@.fields);
        out
    }

    /// Whether two bodies hold the same fields, whatever blocks they were read from.
    pub fn is_same(&self, other: &Self) -> (r: bool)
        ensures
            r == (self@.fields == other@.fields),
    {
        if self.fields.len() != other.fields.len() {
            assert(self@.fields.len() != other@.fields.len());
            return false;
        }
        let mut i: usize = 0;
        while i < self.fields.len()
            invariant
                i <= self.fields.len(),
                self.fields.len() == other.fields.len(),
                forall|j: int| 0 <= j < i ==> self@.fields[j] == #[trigger] other@.fields[j],
            decreases self.fields.len() - i,
        {
            assert(self@.fields[i as int] == (
                self.fields@[i as int].0@,
                self.fields@[i as int].1@,
            ));
            assert(other@.fields[i as int] == (
                other.fields@[i as int].0@,
                other.fields@[i as int].1@,
            ));
            if !self.fields[i].0.is_same(&other.fields[i].0) || !same_text(
                self.fields[i].1.as_str(),
                other.fields[i].1.as_str(),
            ) {
                return false;
            }
            i = i + 1;
        }
        assert(self@.fields =~= other@.fields);
        true
    }
}

proof fn lemma_first_value<V>(fields: Seq<(V, Seq<char>)>, field: V)
    ensures
        ({
            let first = first_appearance(fields, field, 0);
            if first < fields.len() {
                values_of(fields, field).len() > 0 && values_of(fields, field)[0]
                    == fields[first].1
            } else {
                values_of(fields, field).len() == 0
            }
        }),
{
    lemma_first_appearance(fields, field, 0);
    let first = first_appearance(fields, field, 0);
    let head = fields.take(first);
    let tail = fields.skip(first);
    assert(head + tail =~= fields);
    lemma_values_split(head, tail, field);
    assert forall|j: int| 0 <= j < head.len() implies (#[trigger] head[j]).0 != field by {
        assert(head[j] == fields[j]);
    }
    lemma_no_values(head, field);
    if first < fields.len() {
        let line = seq![fields[first]];
        let rest = fields.skip(first + 1);
        assert(tail =~= line + rest);
        lemma_values_split(line, rest, field);
        assert(line.drop_last() =~= Seq::empty());
        assert(values_of(line.drop_last(), field) =~= Seq::empty());
        assert(values_of(line, field) =~= seq![fields[first].1]);
    } else {
        assert(tail =~= Seq::empty());
    }
}

impl<F: Field> Default for Body<F> {
    fn default() -> (r: Self)
        ensures
            r@.fields == Seq::<(F::V, Seq<char>)>::empty(),
            r@.source is None,
    {
        Self::new()
    }
}

/// Compares the fields and their values, ignoring the retained source block.
impl<F: Field> PartialEq for Body<F> {
    fn eq(&self, other: &Self) -> (r: bool) {
        self.is_same(other)
    }
}

impl<F: Field> Eq for Body<F> {

}

impl<F: Field> vstd::std_specs::cmp::PartialEqSpecImpl for Body<F> {
    open spec fn obeys_eq_spec() -> bool {
        true
    }

    open spec fn eq_spec(&self, other: &Self) -> bool {
        self@.fields == other@.fields
    }
}

/// A body that is read from a block and not changed is written as that block.
pub proof fn lemma_read_body_is_written_as_read<F: Field>(body: Content<F::V>, block: Seq<u8>)
    requires
        body.source is Some,
        octets(body.source->0) == block,
    ensures
        octets(rendered::<F>(body)) == block,
{
}

/// The values of a field are those of the lines under it, in their order.
pub proof fn lemma_values_are_in_order<V>(fields: Seq<(V, Seq<char>)>, field: V)
    ensures
        values_of(fields, field) == fields.filter(|line: (V, Seq<char>)| line.0 == field).map_values(
            |line: (V, Seq<char>)| line.1,
        ),
    decreases fields.len(),
{
    let is_of = |line: (V, Seq<char>)| line.0 == field;
    let value = |line: (V, Seq<char>)| line.1;
    reveal(Seq::filter);
    if fields.len() > 0 {
        let shorter = fields.drop_last();
        lemma_values_are_in_order(shorter, field);
        let kept = shorter.filter(is_of);
        if fields.last().0 == field {
            assert(fields.filter(is_of) == kept.push(fields.last()));
            assert(kept.push(fields.last()).map_values(value) =~= kept.map_values(value).push(
                fields.last().1,
            ));
        }
    } else {
        assert(fields.filter(is_of).map_values(value) =~= Seq::empty());
    }
}

proof fn lemma_first_named_alike(names: Seq<Seq<char>>, a: Seq<char>, b: Seq<char>, i: int)
    requires
        same_but_for_case(octets(a), octets(b)),
    ensures
        first_named(names, a, i) == first_named(names, b, i),
    decreases names.len() - i,
{
    if 0 <= i < names.len() {
        lemma_first_named_alike(names, a, b, i + 1);
    }
}

proof fn lemma_first_term_alike(all: Seq<DcmiTerm>, a: Seq<char>, b: Seq<char>, i: int)
    requires
        same_but_for_case(octets(a), octets(b)),
    ensures
        first_term(all, a, i) == first_term(all, b, i),
    decreases all.len() - i,
{
    if 0 <= i < all.len() {
        lemma_first_term_alike(all, a, b, i + 1);
    }
}

/// ASCII names that differ in the case of letters alone are read as one field.
pub proof fn lemma_names_of_one_field<F: Field>(a: Seq<char>, b: Seq<char>)
    requires
        is_ascii(octets(a)),
        is_ascii(octets(b)),
        same_but_for_case(octets(a), octets(b)),
    ensures
        field_named::<F>(a) == field_named::<F>(b),
{
    lemma_first_named_alike(
        F::known_fields().map_values(|field: F::V| F::named(field)),
        a,
        b,
        0,
    );
    lemma_first_term_alike(terms(), a, b, 0);
}

} // verus!
