//! Values of other types as `application/warc-fields` bodies.
//!
//! [`to_body`] makes a body of a [`Datum`], which holds a value in the shapes that a data format
//! tells apart. [`grouped`] reads a body as one entry per name, and [`FieldValues`] reads what an
//! entry holds. This provides typed schemas for `warcinfo` and `metadata` records without using the
//! accessors on [`WarcinfoBody`](super::warcinfo::WarcinfoBody) or
//! [`MetadataBody`](super::metadata::MetadataBody).
//!
//! The mapping:
//!
//! - Bodies map to flat structs or maps. Values may be text, types parsed from text, or sequences
//!   representing repeated fields.
//! - Field names match case-insensitively.
//! - A repeated field must be read as a sequence.
//! - Writing keeps the order of the fields, omits absent values, writes one line per sequence
//!   element, and validates each line with [`Body::push`].
//!
//! [`Body`] remains the lossless representation: it preserves unknown fields, repetition, order,
//! and the original bytes. Reading projects that data into a type; writing creates a new canonical
//! body.

use crate::octets::{ascii_text, decimal, lemma_decimal, lowered, octets, utf8_str};
use crate::record::extension::{distinct_names, names, same_name, values_named, Lines};
use crate::record::fields;
use crate::record::fields::{field_named, unwritable, Body, Field};
use crate::recorder::declared::{lemma_digits, zeros_text};
use crate::text::{
    chars_of, decimal_text_value, is_decimal_text, same_ignoring_case, same_text, wide_decimal_text,
};
use vstd::prelude::*;
use vstd::string::*;
use vstd::utf8::{decode_utf8, encode_utf8_decode_utf8, valid_utf8};

verus! {

/// An error from reading or writing a body as another type.
#[derive(Clone, Debug, Eq, PartialEq)]
pub enum Error {
    /// A field cannot be written as a field line. See [`fields::Error::UnwritableField`].
    Field(fields::Error),
    /// A repeated field was read as a single value instead of a sequence.
    RepeatedField {
        /// The requested field name.
        name: String,
        /// How many times the field appears in the body.
        count: usize,
    },
    /// A field's text cannot be parsed as the requested type.
    UnreadableValue {
        /// The requested field name.
        name: String,
        /// What the value was expected to parse as.
        expected: &'static str,
    },
    /// A value has no representation as flat, named text fields.
    Unsupported(&'static str),
}

/// What an [`Error`] says.
pub ghost enum Fault {
    /// A field cannot be written.
    Field(fields::Fault),
    /// A field is repeated.
    RepeatedField(Seq<char>, nat),
    /// A value cannot be read.
    UnreadableValue(Seq<char>, Seq<char>),
    /// A shape is not supported.
    Unsupported(Seq<char>),
}

impl View for Error {
    type V = Fault;

    open spec fn view(&self) -> Fault {
        match self {
            Error::Field(error) => Fault::Field(error@),
            Error::RepeatedField { name, count } => Fault::RepeatedField(name@, *count as nat),
            Error::UnreadableValue { name, expected } => Fault::UnreadableValue(name@, expected@),
            Error::Unsupported(what) => Fault::Unsupported(what@),
        }
    }
}

/// A value in one of the shapes that a data format tells apart.
#[derive(Debug)]
pub enum Datum {
    /// Text.
    Text(String),
    /// A boolean, a number, or a character, as it is displayed.
    Scalar(String),
    /// Octets.
    Bytes(Vec<u8>),
    /// An absent value.
    Absent,
    /// A present value.
    Present(Box<Datum>),
    /// A unit, or a unit struct.
    Unit,
    /// A unit variant of an enumeration, by its name.
    Variant(String),
    /// A struct of one unnamed field.
    Newtype(Box<Datum>),
    /// A sequence, a tuple, or a tuple struct.
    Sequence(Vec<Datum>),
    /// A map.
    Mapping(Vec<(Datum, Datum)>),
    /// A struct.
    Struct(Vec<(String, Datum)>),
    /// A variant of an enumeration that carries data.
    DataVariant,
}

/// Lines that are written, or why a value cannot be.
pub type Out<V> = Result<Seq<(V, Seq<char>)>, Fault>;

/// What is said of a top-level value that is not a struct or map.
pub open spec fn not_a_body() -> Fault {
    Fault::Unsupported("only a struct or map serializes as a warc-fields body"@)
}

/// What is said of a value that cannot fit in one field line.
pub open spec fn not_a_value() -> Fault {
    Fault::Unsupported(
        "a field's value must serialize as text, a number, or a sequence of them"@,
    )
}

/// What is said of a non-string field name.
pub open spec fn not_a_name() -> Fault {
    Fault::Unsupported("a field's name must serialize as a string"@)
}

/// Lines with a further one.
pub open spec fn with_line<F: Field>(
    out: Out<F::V>,
    name: Seq<char>,
    value: Seq<char>,
) -> Out<F::V> {
    match out {
        Err(fault) => Err(fault),
        Ok(lines) => match unwritable::<F>(field_named::<F>(name), value) {
            Some(fault) => Err(Fault::Field(fault)),
            None => Ok(lines.push((field_named::<F>(name), value))),
        },
    }
}

/// Lines with those of a value under a name.
pub open spec fn with_value<F: Field>(
    out: Out<F::V>,
    name: Seq<char>,
    value: Datum,
    in_seq: bool,
) -> Out<F::V>
    decreases value,
{
    match value {
        Datum::Text(text) => with_line::<F>(out, name, text@),
        Datum::Scalar(text) => with_line::<F>(out, name, text@),
        Datum::Variant(text) => with_line::<F>(out, name, text@),
        Datum::Bytes(octets) => match out {
            Err(fault) => Err(fault),
            Ok(_) => if valid_utf8(octets@) {
                with_line::<F>(out, name, decode_utf8(octets@))
            } else {
                Err(Fault::Unsupported("bytes that are not UTF-8 text"@))
            },
        },
        Datum::Absent => out,
        Datum::Present(inner) => with_value::<F>(out, name, *inner, in_seq),
        Datum::Newtype(inner) => with_value::<F>(out, name, *inner, in_seq),
        Datum::Sequence(items) => match out {
            Err(fault) => Err(fault),
            Ok(_) => if in_seq {
                Err(Fault::Unsupported("a sequence nested in a sequence"@))
            } else {
                with_values::<F>(out, name, items@)
            },
        },
        _ => match out {
            Err(fault) => Err(fault),
            Ok(_) => Err(not_a_value()),
        },
    }
}

/// Lines with those of the elements of a sequence, one each.
pub open spec fn with_values<F: Field>(
    out: Out<F::V>,
    name: Seq<char>,
    items: Seq<Datum>,
) -> Out<F::V>
    decreases items,
{
    if items.len() == 0 {
        out
    } else {
        with_value::<F>(
            with_values::<F>(out, name, items.drop_last()),
            name,
            items[items.len() - 1],
            true,
        )
    }
}

/// Lines with those of the fields of a struct.
pub open spec fn with_struct<F: Field>(out: Out<F::V>, entries: Seq<(String, Datum)>) -> Out<F::V>
    decreases entries.len(),
{
    if entries.len() == 0 {
        out
    } else {
        let (name, value) = entries.last();
        with_value::<F>(with_struct::<F>(out, entries.drop_last()), name@, value, false)
    }
}

/// The field name that a key of a map spells.
pub open spec fn name_of(key: Datum) -> Option<Seq<char>>
    decreases key,
{
    match key {
        Datum::Text(text) => Some(text@),
        Datum::Newtype(inner) => name_of(*inner),
        _ => None,
    }
}

/// Lines with those of the entries of a map.
pub open spec fn with_map<F: Field>(out: Out<F::V>, entries: Seq<(Datum, Datum)>) -> Out<F::V>
    decreases entries.len(),
{
    if entries.len() == 0 {
        out
    } else {
        let (key, value) = entries.last();
        match with_map::<F>(out, entries.drop_last()) {
            Err(fault) => Err(fault),
            Ok(lines) => match name_of(key) {
                None => Err(not_a_name()),
                Some(name) => with_value::<F>(Ok(lines), name, value, false),
            },
        }
    }
}

/// The lines of a body that a value is written as.
pub open spec fn body_lines<F: Field>(value: Datum) -> Out<F::V>
    decreases value,
{
    match value {
        Datum::Absent => Ok(Seq::empty()),
        Datum::Present(inner) => body_lines::<F>(*inner),
        Datum::Newtype(inner) => body_lines::<F>(*inner),
        Datum::Struct(entries) => with_struct::<F>(Ok(Seq::empty()), entries@),
        Datum::Mapping(entries) => with_map::<F>(Ok(Seq::empty()), entries@),
        _ => Err(not_a_body()),
    }
}

/// Whether what is written to a body comes to what lines should.
spec fn writes<F: Field>(
    before: Body<F>,
    after: Body<F>,
    result: Result<(), Error>,
    expected: Out<F::V>,
) -> bool {
    match result {
        Ok(_) => expected == Ok::<Seq<(F::V, Seq<char>)>, Fault>(after@.fields) && (
        before@.source is None ==> after@.source is None),
        Err(error) => expected == Err::<Seq<(F::V, Seq<char>)>, Fault>(error@),
    }
}

/// Write one line.
fn write_line<F: Field>(body: &mut Body<F>, name: &str, value: &str) -> (r: Result<(), Error>)
    ensures
        writes(*old(body), *final(body), r, with_line::<F>(Ok(old(body)@.fields), name@, value@)),
{
    match body.push(F::from_name(name), value) {
        Ok(_) => Ok(()),
        Err(error) => Err(Error::Field(error)),
    }
}

/// Write the lines of a value under a name.
fn write_value<F: Field>(body: &mut Body<F>, name: &str, value: &Datum, in_seq: bool) -> (r: Result<
    (),
    Error,
>)
    ensures
        writes(
            *old(body),
            *final(body),
            r,
            with_value::<F>(Ok(old(body)@.fields), name@, *value, in_seq),
        ),
    decreases value,
{
    match value {
        Datum::Text(text) => write_line(body, name, text.as_str()),
        Datum::Scalar(text) => write_line(body, name, text.as_str()),
        Datum::Variant(text) => write_line(body, name, text.as_str()),
        Datum::Bytes(octets) => match utf8_str(octets.as_slice()) {
            Some(text) => {
                proof {
                    encode_utf8_decode_utf8(text@);
                }
                write_line(body, name, text)
            },
            None => Err(Error::Unsupported("bytes that are not UTF-8 text")),
        },
        Datum::Absent => Ok(()),
        Datum::Present(inner) => write_value(body, name, inner, in_seq),
        Datum::Newtype(inner) => write_value(body, name, inner, in_seq),
        Datum::Sequence(items) => {
            if in_seq {
                return Err(Error::Unsupported("a sequence nested in a sequence"));
            }
            write_values(body, name, items)
        },
        _ => Err(
            Error::Unsupported(
                "a field's value must serialize as text, a number, or a sequence of them",
            ),
        ),
    }
}

/// Write the lines of the elements of a sequence.
fn write_values<F: Field>(body: &mut Body<F>, name: &str, items: &Vec<Datum>) -> (r: Result<
    (),
    Error,
>)
    ensures
        writes(
            *old(body),
            *final(body),
            r,
            with_values::<F>(Ok(old(body)@.fields), name@, items@),
        ),
    decreases items,
{
    let ghost start = body@.fields;
    let ghost untouched = body@.source is None;
    let mut i: usize = 0;
    assert(items@.take(0) =~= Seq::empty());
    while i < items.len()
        invariant
            i <= items.len(),
            start == old(body)@.fields,
            untouched == old(body)@.source is None,
            untouched ==> body@.source is None,
            with_values::<F>(Ok(start), name@, items@.take(i as int)) == Ok::<
                Seq<(F::V, Seq<char>)>,
                Fault,
            >(body@.fields),
        decreases items.len() - i,
    {
        proof {
            let longer = items@.take(i + 1);
            assert(longer.drop_last() =~= items@.take(i as int));
            assert(longer[longer.len() - 1] == items@[i as int]);
        }
        match write_value(body, name, &items[i], true) {
            Ok(_) => {},
            Err(error) => {
                proof {
                    lemma_values_fail::<F>(Ok(start), name@, items@, i + 1);
                }
                return Err(error);
            },
        }
        i = i + 1;
    }
    assert(items@.take(items.len() as int) =~= items@);
    Ok(())
}

/// A failure is kept whatever is written behind it.
proof fn lemma_value_keeps_failure<F: Field>(
    out: Out<F::V>,
    name: Seq<char>,
    value: Datum,
    in_seq: bool,
)
    requires
        out is Err,
    ensures
        with_value::<F>(out, name, value, in_seq) == out,
    decreases value,
{
    match value {
        Datum::Present(inner) => lemma_value_keeps_failure::<F>(out, name, *inner, in_seq),
        Datum::Newtype(inner) => lemma_value_keeps_failure::<F>(out, name, *inner, in_seq),
        _ => {},
    }
}

/// A failure within a sequence is that of the whole.
proof fn lemma_values_fail<F: Field>(out: Out<F::V>, name: Seq<char>, items: Seq<Datum>, n: int)
    requires
        0 <= n <= items.len(),
        with_values::<F>(out, name, items.take(n)) is Err,
    ensures
        with_values::<F>(out, name, items) == with_values::<F>(out, name, items.take(n)),
    decreases items.len() - n,
{
    if n == items.len() {
        assert(items.take(n) =~= items);
    } else {
        let longer = items.take(n + 1);
        assert(longer.drop_last() =~= items.take(n));
        lemma_value_keeps_failure::<F>(
            with_values::<F>(out, name, items.take(n)),
            name,
            longer[longer.len() - 1],
            true,
        );
        lemma_values_fail::<F>(out, name, items, n + 1);
    }
}

/// A failure within a struct is that of the whole.
proof fn lemma_struct_fails<F: Field>(out: Out<F::V>, entries: Seq<(String, Datum)>, n: int)
    requires
        0 <= n <= entries.len(),
        with_struct::<F>(out, entries.take(n)) is Err,
    ensures
        with_struct::<F>(out, entries) == with_struct::<F>(out, entries.take(n)),
    decreases entries.len() - n,
{
    if n == entries.len() {
        assert(entries.take(n) =~= entries);
    } else {
        let longer = entries.take(n + 1);
        assert(longer.drop_last() =~= entries.take(n));
        lemma_value_keeps_failure::<F>(
            with_struct::<F>(out, entries.take(n)),
            longer.last().0@,
            longer.last().1,
            false,
        );
        lemma_struct_fails::<F>(out, entries, n + 1);
    }
}

/// A failure within a map is that of the whole.
proof fn lemma_map_fails<F: Field>(out: Out<F::V>, entries: Seq<(Datum, Datum)>, n: int)
    requires
        0 <= n <= entries.len(),
        with_map::<F>(out, entries.take(n)) is Err,
    ensures
        with_map::<F>(out, entries) == with_map::<F>(out, entries.take(n)),
    decreases entries.len() - n,
{
    if n == entries.len() {
        assert(entries.take(n) =~= entries);
    } else {
        let longer = entries.take(n + 1);
        assert(longer.drop_last() =~= entries.take(n));
        lemma_map_fails::<F>(out, entries, n + 1);
    }
}

/// The field name that a key of a map spells.
fn key_name(key: &Datum) -> (r: Option<&str>)
    ensures
        match r {
            Some(name) => name_of(*key) == Some(name@),
            None => name_of(*key) is None,
        },
    decreases key,
{
    match key {
        Datum::Text(text) => Some(text.as_str()),
        Datum::Newtype(inner) => key_name(inner),
        _ => None,
    }
}

/// Whether a result is a body of the lines that are expected, or fails as they do.
pub open spec fn gives<F: Field>(result: Result<Body<F>, Error>, expected: Out<F::V>) -> bool {
    match result {
        Ok(body) => {
            &&& expected == Ok::<Seq<(F::V, Seq<char>)>, Fault>(body@.fields)
            &&& body@.source is None
        },
        Err(error) => expected == Err::<Seq<(F::V, Seq<char>)>, Fault>(error@),
    }
}

/// Write the lines of the fields of a struct.
fn struct_body<F: Field>(entries: &Vec<(String, Datum)>) -> (r: Result<Body<F>, Error>)
    ensures
        gives(r, with_struct::<F>(Ok(Seq::empty()), entries@)),
{
    let mut body: Body<F> = Body::new();
    let mut i: usize = 0;
    assert(entries@.take(0) =~= Seq::empty());
    while i < entries.len()
        invariant
            i <= entries.len(),
            body@.source is None,
            with_struct::<F>(Ok(Seq::empty()), entries@.take(i as int)) == Ok::<
                Seq<(F::V, Seq<char>)>,
                Fault,
            >(body@.fields),
        decreases entries.len() - i,
    {
        proof {
            let longer = entries@.take(i + 1);
            assert(longer.drop_last() =~= entries@.take(i as int));
            assert(longer.last() == entries@[i as int]);
        }
        match write_value(&mut body, entries[i].0.as_str(), &entries[i].1, false) {
            Ok(_) => {},
            Err(error) => {
                proof {
                    lemma_struct_fails::<F>(Ok(Seq::empty()), entries@, i + 1);
                }
                return Err(error);
            },
        }
        i = i + 1;
    }
    assert(entries@.take(entries.len() as int) =~= entries@);
    Ok(body)
}

/// Write the lines of the entries of a map.
fn map_body<F: Field>(entries: &Vec<(Datum, Datum)>) -> (r: Result<Body<F>, Error>)
    ensures
        gives(r, with_map::<F>(Ok(Seq::empty()), entries@)),
{
    let mut body: Body<F> = Body::new();
    let mut i: usize = 0;
    assert(entries@.take(0) =~= Seq::empty());
    while i < entries.len()
        invariant
            i <= entries.len(),
            body@.source is None,
            with_map::<F>(Ok(Seq::empty()), entries@.take(i as int)) == Ok::<
                Seq<(F::V, Seq<char>)>,
                Fault,
            >(body@.fields),
        decreases entries.len() - i,
    {
        proof {
            let longer = entries@.take(i + 1);
            assert(longer.drop_last() =~= entries@.take(i as int));
            assert(longer.last() == entries@[i as int]);
        }
        let name = match key_name(&entries[i].0) {
            Some(name) => name,
            None => {
                proof {
                    lemma_map_fails::<F>(Ok(Seq::empty()), entries@, i + 1);
                }
                return Err(Error::Unsupported("a field's name must serialize as a string"));
            },
        };
        match write_value(&mut body, name, &entries[i].1, false) {
            Ok(_) => {},
            Err(error) => {
                proof {
                    lemma_map_fails::<F>(Ok(Seq::empty()), entries@, i + 1);
                }
                return Err(error);
            },
        }
        i = i + 1;
    }
    assert(entries@.take(entries.len() as int) =~= entries@);
    Ok(body)
}

/// Write a value as a body.
///
/// The value must be a struct or map. Fields are written in order, absent fields are omitted, and a
/// sequence writes one field line per element.
///
/// # Errors
///
/// Returns [`Error::Unsupported`] for an unsupported shape, or [`Error::Field`] when [`Body::push`]
/// rejects a name or value.
pub fn to_body<F: Field>(value: &Datum) -> (r: Result<Body<F>, Error>)
    ensures
        gives(r, body_lines::<F>(*value)),
    decreases value,
{
    match value {
        Datum::Absent => Ok(Body::new()),
        Datum::Present(inner) => to_body(inner),
        Datum::Newtype(inner) => to_body(inner),
        Datum::Struct(entries) => struct_body(entries),
        Datum::Mapping(entries) => map_body(entries),
        _ => Err(Error::Unsupported("only a struct or map serializes as a warc-fields body")),
    }
}

/// The spelling that is expected of a name, or its own.
pub open spec fn spelled(expected: Seq<Seq<char>>, name: Seq<char>, i: int) -> Seq<char>
    decreases expected.len() - i,
{
    if i < 0 || i >= expected.len() {
        name
    } else if same_name(expected[i], name) {
        expected[i]
    } else {
        spelled(expected, name, i + 1)
    }
}

/// The lines of a body, each with its name as it is expected.
pub open spec fn spelled_lines<F: Field>(
    fields: Seq<(F::V, Seq<char>)>,
    expected: Seq<Seq<char>>,
) -> Lines {
    fields.map_values(
        |field: (F::V, Seq<char>)| (spelled(expected, F::named(field.0), 0), field.1),
    )
}

/// What texts say.
pub open spec fn texts_of(texts: Seq<&str>) -> Seq<Seq<char>> {
    texts.map_values(|text: &str| text@)
}

/// All values for one field name.
#[derive(Clone, Debug, Eq, PartialEq)]
pub struct FieldValues<'a> {
    /// The field name, as it was asked for.
    pub name: &'a str,
    /// Values in field-line order.
    pub values: Vec<&'a str>,
}

impl<'a> View for FieldValues<'a> {
    type V = (Seq<char>, Seq<Seq<char>>);

    open spec fn view(&self) -> (Seq<char>, Seq<Seq<char>>) {
        (self.name@, texts_of(self.values@))
    }
}

/// Whether entries hold the lines grouped by name, each name once, in first-appearance order.
pub open spec fn is_grouped(entries: Seq<FieldValues>, lines: Lines) -> bool {
    &&& entries.len() == distinct_names(lines).len()
    &&& forall|i: int|
        0 <= i < entries.len() ==> (#[trigger] entries[i])@ == (
            distinct_names(lines)[i],
            values_named(lines, distinct_names(lines)[i]),
        )
}

/// The spelling that is expected of a name, or its own.
fn expected_spelling<'a>(expected: &[&'a str], name: &'a str) -> (r: &'a str)
    ensures
        r@ == spelled(texts_of(expected@), name@, 0),
{
    let ghost names = texts_of(expected@);
    let mut i: usize = 0;
    while i < expected.len()
        invariant
            i <= expected.len(),
            names == texts_of(expected@),
            spelled(names, name@, 0) == spelled(names, name@, i as int),
        decreases expected.len() - i,
    {
        assert(names[i as int] == expected@[i as int]@);
        if same_ignoring_case(expected[i], name) {
            return expected[i];
        }
        i = i + 1;
    }
    name
}

/// Names that are the same as one another are the same as the same names.
proof fn lemma_same_names(lines: Lines, a: Seq<char>, b: Seq<char>)
    requires
        same_name(a, b),
    ensures
        values_named(lines, a) == values_named(lines, b),
        names(lines, a) == names(lines, b),
    decreases lines.len(),
{
    assert(lowered(octets(a)) == lowered(octets(b)));
    if lines.len() > 0 {
        lemma_same_names(lines.drop_last(), a, b);
    }
    if names(lines, a) {
        let i = choose|i: int| 0 <= i < lines.len() && same_name(#[trigger] lines[i].0, a);
        assert(same_name(lines[i].0, b));
    }
    if names(lines, b) {
        let i = choose|i: int| 0 <= i < lines.len() && same_name(#[trigger] lines[i].0, b);
        assert(same_name(lines[i].0, a));
    }
}

/// A name is one of the distinct names, but for its case, where a line has it.
proof fn lemma_distinct(lines: Lines, name: Seq<char>)
    ensures
        names(lines, name) <==> exists|i: int|
            0 <= i < distinct_names(lines).len() && same_name(
                #[trigger] distinct_names(lines)[i],
                name,
            ),
        !names(lines, name) ==> values_named(lines, name) == Seq::<Seq<char>>::empty(),
    decreases lines.len(),
{
    if lines.len() > 0 {
        let before = lines.drop_last();
        let last = lines.last().0;
        lemma_distinct(before, name);
        lemma_distinct(before, last);
        let found = distinct_names(before);
        let all = distinct_names(lines);
        if names(lines, name) {
            let i = choose|i: int| 0 <= i < lines.len() && same_name(#[trigger] lines[i].0, name);
            if i < before.len() {
                assert(same_name(before[i].0, name));
                let j = choose|j: int| 0 <= j < found.len() && same_name(#[trigger] found[j], name);
                assert(all[j] == found[j]);
            } else if names(before, last) {
                lemma_same_names(before, last, name);
                let j = choose|j: int| 0 <= j < found.len() && same_name(#[trigger] found[j], name);
                assert(all[j] == found[j]);
            } else {
                assert(all[all.len() - 1] == last);
            }
        }
        if exists|i: int| 0 <= i < all.len() && same_name(#[trigger] all[i], name) {
            let i = choose|i: int| 0 <= i < all.len() && same_name(#[trigger] all[i], name);
            if i < found.len() {
                assert(same_name(found[i], name));
                let j = choose|j: int|
                    0 <= j < before.len() && same_name(#[trigger] before[j].0, name);
                assert(same_name(lines[j].0, name));
            } else {
                assert(same_name(lines[lines.len() - 1].0, name));
            }
        }
        if !names(lines, name) {
            if names(before, name) {
                let j = choose|j: int|
                    0 <= j < before.len() && same_name(#[trigger] before[j].0, name);
                assert(same_name(lines[j].0, name));
            }
            assert(!same_name(lines[lines.len() - 1].0, name));
        }
    }
}

/// No two of the distinct names are the same but for their case.
proof fn lemma_distinct_differ(lines: Lines, i: int, j: int)
    requires
        0 <= i < j < distinct_names(lines).len(),
    ensures
        !same_name(distinct_names(lines)[i], distinct_names(lines)[j]),
    decreases lines.len(),
{
    let before = lines.drop_last();
    if names(before, lines.last().0) || j < distinct_names(before).len() {
        lemma_distinct_differ(before, i, j);
    } else {
        lemma_distinct(before, lines.last().0);
    }
}

/// The entry with the name, if any.
fn entry_named(entries: &Vec<FieldValues>, name: &str) -> (r: Option<usize>)
    ensures
        match r {
            Some(i) => i < entries.len() && same_name(entries@[i as int].name@, name@),
            None => forall|i: int|
                0 <= i < entries.len() ==> !same_name((#[trigger] entries@[i]).name@, name@),
        },
{
    let mut i: usize = 0;
    while i < entries.len()
        invariant
            i <= entries.len(),
            forall|j: int|
                0 <= j < i ==> !same_name((#[trigger] entries@[j]).name@, name@),
        decreases entries.len() - i,
    {
        if same_ignoring_case(entries[i].name, name) {
            return Some(i);
        }
        i = i + 1;
    }
    None
}

/// What a further line adds to the entries before it.
proof fn lemma_next_line(entries: Seq<FieldValues>, lines: Lines, at: Option<int>)
    requires
        lines.len() > 0,
        is_grouped(entries, lines.drop_last()),
        match at {
            Some(i) => 0 <= i < entries.len() && same_name(entries[i].name@, lines.last().0),
            None => forall|i: int|
                0 <= i < entries.len() ==> !same_name(
                    (#[trigger] entries[i]).name@,
                    lines.last().0,
                ),
        },
    ensures
        match at {
            Some(i) => {
                &&& distinct_names(lines) == distinct_names(lines.drop_last())
                &&& forall|j: int|
                    0 <= j < entries.len() ==> #[trigger] values_named(
                        lines,
                        distinct_names(lines)[j],
                    ) == if j == i {
                        entries[j]@.1.push(lines.last().1)
                    } else {
                        entries[j]@.1
                    }
            },
            None => {
                &&& distinct_names(lines) == distinct_names(lines.drop_last()).push(lines.last().0)
                &&& values_named(lines, lines.last().0) == seq![lines.last().1]
                &&& forall|j: int|
                    0 <= j < entries.len() ==> #[trigger] values_named(
                        lines,
                        distinct_names(lines)[j],
                    ) == entries[j]@.1
            },
        },
{
    let before = lines.drop_last();
    let last = lines.last().0;
    let found = distinct_names(before);
    lemma_distinct(before, last);
    match at {
        Some(i) => {
            assert(entries[i]@.0 == found[i]);
            assert(names(before, last));
            assert forall|j: int| 0 <= j < entries.len() implies #[trigger] values_named(
                lines,
                distinct_names(lines)[j],
            ) == if j == i {
                entries[j]@.1.push(lines.last().1)
            } else {
                entries[j]@.1
            } by {
                assert(entries[j]@.0 == found[j]);
                if same_name(last, found[j]) && j != i {
                    assert(same_name(found[i], found[j]));
                    assert(same_name(found[j], found[i]));
                    if i < j {
                        lemma_distinct_differ(before, i, j);
                    } else {
                        lemma_distinct_differ(before, j, i);
                    }
                }
            }
        },
        None => {
            if names(before, last) {
                let j = choose|j: int| 0 <= j < found.len() && same_name(#[trigger] found[j], last);
                assert(entries[j]@.0 == found[j]);
            }
            assert(values_named(before, last) =~= Seq::empty());
            assert forall|j: int| 0 <= j < entries.len() implies #[trigger] values_named(
                lines,
                distinct_names(lines)[j],
            ) == entries[j]@.1 by {
                assert(entries[j]@.0 == found[j]);
                assert(!same_name(entries[j].name@, last));
                assert(same_name(last, found[j]) == same_name(found[j], last));
            }
        },
    }
}

/// Group field lines by name in first-appearance order.
///
/// When an expected name matches case-insensitively, use its spelling.
fn grouped<'a, F: Field>(body: &'a Body<F>, expected: &[&'a str]) -> (r: Vec<FieldValues<'a>>)
    ensures
        is_grouped(r@, spelled_lines::<F>(body@.fields, texts_of(expected@))),
{
    let fields = body.iter();
    let ghost lines = spelled_lines::<F>(body@.fields, texts_of(expected@));
    let mut entries: Vec<FieldValues<'a>> = Vec::new();
    let mut i: usize = 0;
    assert(lines.take(0) =~= Seq::empty());
    while i < fields.len()
        invariant
            i <= fields.len(),
            fields@.map_values(|field: (&F, &str)| (field.0@, field.1@)) == body@.fields,
            lines == spelled_lines::<F>(body@.fields, texts_of(expected@)),
            is_grouped(entries@, lines.take(i as int)),
        decreases fields.len() - i,
    {
        let name = expected_spelling(expected, fields[i].0.name());
        let value: &'a str = fields[i].1;
        let ghost next = lines.take(i + 1);
        let ghost before = entries@;
        let ghost at: Option<int>;
        proof {
            assert(body@.fields[i as int] == (fields@[i as int].0@, fields@[i as int].1@));
            assert(next.drop_last() =~= lines.take(i as int));
            assert(next.last() == (name@, value@));
        }
        match entry_named(&entries, name) {
            Some(j) => {
                proof {
                    lemma_next_line(before, next, Some(j as int));
                }
                let mut entry = entries.remove(j);
                let ghost values = entry.values@;
                entry.values.push(value);
                proof {
                    assert(texts_of(entry.values@) =~= texts_of(values).push(value@));
                }
                let ghost changed = entry;
                entries.insert(j, entry);
                proof {
                    assert(entries@ =~= before.update(j as int, changed));
                    assert forall|k: int| 0 <= k < entries.len() implies (
                    #[trigger] entries@[k])@ == (
                        distinct_names(next)[k],
                        values_named(next, distinct_names(next)[k]),
                    ) by {
                        assert(before[k]@.0 == distinct_names(next)[k]);
                    }
                }
            },
            None => {
                proof {
                    lemma_next_line(before, next, None);
                }
                let mut values: Vec<&'a str> = Vec::new();
                values.push(value);
                entries.push(FieldValues { name, values });
                proof {
                    let last = entries@[entries.len() - 1];
                    assert(texts_of(last.values@) =~= seq![value@]);
                    assert forall|k: int| 0 <= k < entries.len() implies (
                    #[trigger] entries@[k])@ == (
                        distinct_names(next)[k],
                        values_named(next, distinct_names(next)[k]),
                    ) by {
                        if k < before.len() {
                            assert(entries@[k] == before[k]);
                            assert(before[k]@.0 == distinct_names(next)[k]);
                        }
                    }
                }
            },
        }
        i = i + 1;
    }
    assert(lines.take(lines.len() as int) =~= lines);
    entries
}

/// Read a body as one entry per field name.
///
/// Entries stand in the order in which their names first appear. A name that matches an expected
/// one, whatever its case, is given in the expected spelling. Values borrow from the body.
pub fn from_body<'a, F: Field>(body: &'a Body<F>, expected: &[&'a str]) -> (r: Vec<FieldValues<'a>>)
    ensures
        is_grouped(r@, spelled_lines::<F>(body@.fields, texts_of(expected@))),
{
    grouped(body, expected)
}

impl<F: Field> Body<F> {
    /// Read the body as one entry per field name. This is equivalent to [`from_body`].
    pub fn deserialize<'a>(&'a self, expected: &[&'a str]) -> (r: Vec<FieldValues<'a>>)
        ensures
            is_grouped(r@, spelled_lines::<F>(self@.fields, texts_of(expected@))),
    {
        from_body(self, expected)
    }
}

/// The integer that a text spells, with an optional sign.
pub open spec fn integer_text(text: Seq<char>, signed: bool) -> Option<int> {
    let rest = text.skip(1);
    if is_decimal_text(text) {
        Some(decimal_text_value(text) as int)
    } else if text.len() > 1 && text[0] == '+' && is_decimal_text(rest) {
        Some(decimal_text_value(rest) as int)
    } else if signed && text.len() > 1 && text[0] == '-' && is_decimal_text(rest) {
        Some(-decimal_text_value(rest))
    } else {
        None
    }
}

/// Whether a result is the value that the sole text of an entry is read as.
pub open spec fn reads<T>(
    entry: (Seq<char>, Seq<Seq<char>>),
    value: Option<T>,
    expected: Seq<char>,
) -> Result<T, Fault> {
    if entry.1.len() != 1 {
        Err(Fault::RepeatedField(entry.0, entry.1.len()))
    } else {
        match value {
            Some(value) => Ok(value),
            None => Err(Fault::UnreadableValue(entry.0, expected)),
        }
    }
}

/// What a result says.
pub open spec fn outcome<T>(result: Result<T, Error>) -> Result<T, Fault> {
    match result {
        Ok(value) => Ok(value),
        Err(error) => Err(error@),
    }
}

impl<'a> FieldValues<'a> {
    /// Return the sole value, or an error if the field repeats.
    ///
    /// # Errors
    ///
    /// Returns [`Error::RepeatedField`] unless the entry holds one value.
    pub fn single(&self) -> (r: Result<&'a str, Error>)
        ensures
            match r {
                Ok(value) => self@.1 == seq![value@],
                Err(error) => self@.1.len() != 1 && error@ == Fault::RepeatedField(
                    self@.0,
                    self@.1.len(),
                ),
            },
    {
        if self.values.len() == 1 {
            let value: &'a str = self.values[0];
            assert(self@.1 =~= seq![value@]);
            Ok(value)
        } else {
            Err(
                Error::RepeatedField { name: self.name.to_string(), count: self.values.len() },
            )
        }
    }

    /// The entries of the elements of a sequence, one for each value.
    pub fn elements(&self) -> (r: Vec<FieldValues<'a>>)
        ensures
            r.len() == self@.1.len(),
            forall|i: int|
                0 <= i < r.len() ==> (#[trigger] r@[i])@ == (self@.0, seq![self@.1[i]]),
    {
        let mut out: Vec<FieldValues<'a>> = Vec::new();
        let mut i: usize = 0;
        while i < self.values.len()
            invariant
                i <= self.values.len(),
                out.len() == i,
                forall|j: int|
                    0 <= j < i ==> (#[trigger] out@[j])@ == (self@.0, seq![self@.1[j]]),
            decreases self.values.len() - i,
        {
            let mut values: Vec<&'a str> = Vec::new();
            values.push(self.values[i]);
            assert(texts_of(values@) =~= seq![self@.1[i as int]]);
            out.push(FieldValues { name: self.name, values });
            i = i + 1;
        }
        out
    }

    /// An error that the value cannot be read as what is expected.
    fn unreadable<T>(&self, expected: &'static str) -> (r: Result<T, Error>)
        ensures
            outcome(r) == Err::<T, Fault>(Fault::UnreadableValue(self@.0, expected@)),
    {
        Err(Error::UnreadableValue { name: self.name.to_string(), expected })
    }

    /// The sole value as a boolean: `true` or `false`.
    ///
    /// # Errors
    ///
    /// Returns [`Error::RepeatedField`] unless the entry holds one value, and
    /// [`Error::UnreadableValue`] where it is neither.
    pub fn boolean(&self) -> (r: Result<bool, Error>)
        ensures
            outcome(r) == reads(
                self@,
                if self@.1[0] == "true"@ {
                    Some(true)
                } else if self@.1[0] == "false"@ {
                    Some(false)
                } else {
                    None
                },
                "a boolean"@,
            ),
    {
        let value = match self.single() {
            Ok(value) => value,
            Err(error) => return Err(error),
        };
        if same_text(value, "true") {
            Ok(true)
        } else if same_text(value, "false") {
            Ok(false)
        } else {
            self.unreadable("a boolean")
        }
    }

    /// The sole value as an integer without a sign, no larger than `max`.
    ///
    /// # Errors
    ///
    /// Returns [`Error::RepeatedField`] unless the entry holds one value, and
    /// [`Error::UnreadableValue`] where it is no such integer.
    pub fn unsigned(&self, max: u128) -> (r: Result<u128, Error>)
        ensures
            outcome(r) == reads(
                self@,
                match integer_text(self@.1[0], false) {
                    Some(n) => if n <= max {
                        Some(n as u128)
                    } else {
                        None
                    },
                    None => None,
                },
                "an integer"@,
            ),
    {
        let value = match self.single() {
            Ok(value) => value,
            Err(error) => return Err(error),
        };
        let text = chars_of(value);
        let from: usize = if text.len() > 0 && text[0] == '+' {
            1
        } else {
            0
        };
        proof {
            lemma_sign(text@);
        }
        match wide_decimal_text(&text, from, text.len()) {
            Some(n) => if n <= max {
                Ok(n)
            } else {
                self.unreadable("an integer")
            },
            None => self.unreadable("an integer"),
        }
    }

    /// The sole value as an integer from `min` to `max`.
    ///
    /// # Errors
    ///
    /// Returns [`Error::RepeatedField`] unless the entry holds one value, and
    /// [`Error::UnreadableValue`] where it is no such integer.
    pub fn signed(&self, min: i128, max: i128) -> (r: Result<i128, Error>)
        ensures
            outcome(r) == reads(
                self@,
                match integer_text(self@.1[0], true) {
                    Some(n) => if min <= n <= max {
                        Some(n as i128)
                    } else {
                        None
                    },
                    None => None,
                },
                "an integer"@,
            ),
    {
        let value = match self.single() {
            Ok(value) => value,
            Err(error) => return Err(error),
        };
        let text = chars_of(value);
        let negative = text.len() > 0 && text[0] == '-';
        let from: usize = if negative || (text.len() > 0 && text[0] == '+') {
            1
        } else {
            0
        };
        proof {
            lemma_sign(text@);
        }
        let n = match wide_decimal_text(&text, from, text.len()) {
            Some(magnitude) => if magnitude <= i128::MAX as u128 {
                if negative {
                    -(magnitude as i128)
                } else {
                    magnitude as i128
                }
            } else if negative && magnitude == i128::MAX as u128 + 1 {
                i128::MIN
            } else {
                return self.unreadable("an integer");
            },
            None => return self.unreadable("an integer"),
        };
        if min <= n && n <= max {
            Ok(n)
        } else {
            self.unreadable("an integer")
        }
    }

    /// The sole value as a character.
    ///
    /// # Errors
    ///
    /// Returns [`Error::RepeatedField`] unless the entry holds one value, and
    /// [`Error::UnreadableValue`] where it is not one character.
    pub fn character(&self) -> (r: Result<char, Error>)
        ensures
            outcome(r) == reads(
                self@,
                if self@.1[0].len() == 1 {
                    Some(self@.1[0][0])
                } else {
                    None
                },
                "a character"@,
            ),
    {
        let value = match self.single() {
            Ok(value) => value,
            Err(error) => return Err(error),
        };
        let text = chars_of(value);
        if text.len() == 1 {
            Ok(text[0])
        } else {
            self.unreadable("a character")
        }
    }
}

/// Where the digits of an integer stand behind its sign.
proof fn lemma_sign(text: Seq<char>)
    ensures
        text.len() > 0 && (text[0] == '+' || text[0] == '-') ==> !is_decimal_text(text),
        text.len() > 0 ==> text.subrange(1, text.len() as int) == text.skip(1),
        text.subrange(0, text.len() as int) == text,
        !is_decimal_text(Seq::empty()),
        text.len() == 1 ==> text.skip(1) == Seq::<char>::empty(),
{
    if text.len() > 0 {
        assert(text.subrange(1, text.len() as int) =~= text.skip(1));
    }
    assert(text.subrange(0, text.len() as int) =~= text);
    if text.len() == 1 {
        assert(text.skip(1) =~= Seq::empty());
    }
}

/// The texts that a value is written as under its name, one per line.
pub open spec fn texts(value: Datum) -> Seq<Seq<char>>
    decreases value,
{
    match value {
        Datum::Text(text) => seq![text@],
        Datum::Scalar(text) => seq![text@],
        Datum::Variant(text) => seq![text@],
        Datum::Bytes(octets) => seq![decode_utf8(octets@)],
        Datum::Present(inner) => texts(*inner),
        Datum::Newtype(inner) => texts(*inner),
        Datum::Sequence(items) => all_texts(items@),
        _ => Seq::empty(),
    }
}

/// The texts that the elements of a sequence are written as.
pub open spec fn all_texts(items: Seq<Datum>) -> Seq<Seq<char>>
    decreases items,
{
    if items.len() == 0 {
        Seq::empty()
    } else {
        all_texts(items.drop_last()) + texts(items[items.len() - 1])
    }
}

/// Lines of a field, one for each text.
pub open spec fn lines_under<V>(field: V, texts: Seq<Seq<char>>) -> Seq<(V, Seq<char>)> {
    texts.map_values(|text: Seq<char>| (field, text))
}

/// A value that can be written adds a line for each of its texts.
proof fn lemma_value_lines<F: Field>(
    lines: Seq<(F::V, Seq<char>)>,
    name: Seq<char>,
    value: Datum,
    in_seq: bool,
)
    requires
        with_value::<F>(Ok(lines), name, value, in_seq) is Ok,
    ensures
        with_value::<F>(Ok(lines), name, value, in_seq) == Ok::<Seq<(F::V, Seq<char>)>, Fault>(
            lines + lines_under(field_named::<F>(name), texts(value)),
        ),
    decreases value,
{
    let field = field_named::<F>(name);
    match value {
        Datum::Present(inner) => lemma_value_lines::<F>(lines, name, *inner, in_seq),
        Datum::Newtype(inner) => lemma_value_lines::<F>(lines, name, *inner, in_seq),
        Datum::Sequence(items) => lemma_values_lines::<F>(lines, name, items@),
        Datum::Absent => {
            assert(lines + lines_under(field, texts(value)) =~= lines);
        },
        _ => {
            assert(lines + lines_under(field, texts(value)) =~= lines.push(
                (field, texts(value)[0]),
            ));
        },
    }
}

proof fn lemma_values_lines<F: Field>(
    lines: Seq<(F::V, Seq<char>)>,
    name: Seq<char>,
    items: Seq<Datum>,
)
    requires
        with_values::<F>(Ok(lines), name, items) is Ok,
    ensures
        with_values::<F>(Ok(lines), name, items) == Ok::<Seq<(F::V, Seq<char>)>, Fault>(
            lines + lines_under(field_named::<F>(name), all_texts(items)),
        ),
    decreases items,
{
    let field = field_named::<F>(name);
    if items.len() == 0 {
        assert(lines + lines_under(field, all_texts(items)) =~= lines);
    } else {
        let shorter = items.drop_last();
        let last = items[items.len() - 1];
        let before = with_values::<F>(Ok(lines), name, shorter);
        if before is Err {
            lemma_value_keeps_failure::<F>(before, name, last, true);
        }
        lemma_values_lines::<F>(lines, name, shorter);
        lemma_value_lines::<F>(before->Ok_0, name, last, true);
        assert(lines + lines_under(field, all_texts(shorter)) + lines_under(field, texts(last))
            =~= lines + lines_under(field, all_texts(items)));
    }
}

/// The names of the fields of a struct.
pub open spec fn struct_names(entries: Seq<(String, Datum)>) -> Seq<Seq<char>> {
    entries.map_values(|entry: (String, Datum)| entry.0@)
}

/// Whether the vocabulary reads a name as a field that has it, but for its case.
pub open spec fn keeps_name<F: Field>(name: Seq<char>) -> bool {
    same_name(F::named(field_named::<F>(name)), name)
}

/// Among names of which no two are the same, each is spelled as it stands.
proof fn lemma_spelled(expected: Seq<Seq<char>>, name: Seq<char>, k: int, i: int)
    requires
        0 <= i <= k < expected.len(),
        same_name(name, expected[k]),
        forall|j: int, l: int|
            0 <= j < l < expected.len() ==> !same_name(
                #[trigger] expected[j],
                #[trigger] expected[l],
            ),
    ensures
        spelled(expected, name, i) == expected[k],
    decreases k - i,
{
    assert(same_name(expected[k], name));
    if i < k {
        assert(!same_name(expected[i], expected[k]));
        assert(!same_name(expected[i], name));
        lemma_spelled(expected, name, k, i + 1);
    }
}

/// The values and the first spellings of a name in lines with further ones under one name.
proof fn lemma_lines_under(lines: Lines, under: Seq<char>, texts: Seq<Seq<char>>, name: Seq<char>)
    ensures
        values_named(lines + lines_under(under, texts), name) == if same_name(under, name) {
            values_named(lines, name) + texts
        } else {
            values_named(lines, name)
        },
        names(lines + lines_under(under, texts), name) == (names(lines, name) || (same_name(
            under,
            name,
        ) && texts.len() > 0)),
        distinct_names(lines + lines_under(under, texts)) == if names(lines, under) || texts.len()
            == 0 {
            distinct_names(lines)
        } else {
            distinct_names(lines).push(under)
        },
    decreases texts.len(),
{
    let all = lines + lines_under(under, texts);
    if texts.len() == 0 {
        assert(all =~= lines);
        assert(values_named(lines, name) + texts =~= values_named(lines, name));
    } else {
        let shorter = lines + lines_under(under, texts.drop_last());
        assert(all.drop_last() =~= shorter);
        assert(all.last() == (under, texts.last()));
        lemma_lines_under(lines, under, texts.drop_last(), name);
        lemma_lines_under(lines, under, texts.drop_last(), under);
        assert(values_named(lines, name) + texts =~= (values_named(lines, name)
            + texts.drop_last()).push(texts.last()));
        if names(all, name) {
            let i = choose|i: int| 0 <= i < all.len() && same_name(#[trigger] all[i].0, name);
            if i < shorter.len() {
                assert(same_name(shorter[i].0, name));
            }
        }
        if names(shorter, name) {
            let i = choose|i: int|
                0 <= i < shorter.len() && same_name(#[trigger] shorter[i].0, name);
            assert(same_name(all[i].0, name));
        }
        if same_name(under, name) {
            assert(same_name(all[all.len() - 1].0, name));
        }
    }
}

/// What the lines of the first fields of a struct hold under the name of one of its fields.
proof fn lemma_fields_read_back<F: Field>(entries: Seq<(String, Datum)>, n: int, k: int)
    requires
        0 <= n <= entries.len(),
        0 <= k < entries.len(),
        with_struct::<F>(Ok(Seq::empty()), entries.take(n)) is Ok,
        forall|i: int|
            0 <= i < entries.len() ==> keeps_name::<F>(#[trigger] struct_names(entries)[i]),
        forall|i: int, j: int|
            0 <= i < j < entries.len() ==> !same_name(
                #[trigger] struct_names(entries)[i],
                #[trigger] struct_names(entries)[j],
            ),
    ensures
        ({
            let expected = struct_names(entries);
            let lines = spelled_lines::<F>(
                with_struct::<F>(Ok(Seq::empty()), entries.take(n))->Ok_0,
                expected,
            );
            &&& values_named(lines, expected[k]) == if k < n {
                texts(entries[k].1)
            } else {
                Seq::empty()
            }
            &&& names(lines, expected[k]) == (k < n && texts(entries[k].1).len() > 0)
            &&& names(lines, expected[k]) ==> distinct_names(lines).contains(expected[k])
        }),
    decreases n,
{
    let expected = struct_names(entries);
    let head = entries.take(n);
    if n == 0 {
        assert(head =~= Seq::empty());
        assert(spelled_lines::<F>(Seq::empty(), expected) =~= Seq::empty());
    } else {
        let shorter = entries.take(n - 1);
        assert(head.drop_last() =~= shorter);
        assert(head.last() == entries[n - 1]);
        let name = expected[n - 1];
        assert(name == entries[n - 1].0@);
        let value = entries[n - 1].1;
        let before = with_struct::<F>(Ok(Seq::empty()), shorter);
        if before is Err {
            lemma_value_keeps_failure::<F>(before, name, value, false);
        }
        lemma_fields_read_back::<F>(entries, n - 1, k);
        lemma_fields_read_back::<F>(entries, n - 1, n - 1);
        lemma_value_lines::<F>(before->Ok_0, name, value, false);
        let field = field_named::<F>(name);
        assert(keeps_name::<F>(name));
        lemma_spelled(expected, F::named(field), n - 1, 0);
        let lines = spelled_lines::<F>(before->Ok_0, expected);
        let all = spelled_lines::<F>(
            before->Ok_0 + lines_under(field, texts(value)),
            expected,
        );
        assert(all =~= lines + lines_under(name, texts(value)));
        lemma_lines_under(lines, name, texts(value), expected[k]);
        if k != n - 1 {
            assert(same_name(name, expected[k]) == same_name(expected[k], name));
            if k < n - 1 {
                assert(!same_name(expected[k], expected[n - 1]));
            } else {
                assert(!same_name(expected[n - 1], expected[k]));
            }
        } else {
            assert(Seq::<Seq<char>>::empty() + texts(value) =~= texts(value));
        }
        if names(all, expected[k]) {
            let found = distinct_names(lines);
            if k == n - 1 {
                assert(distinct_names(all)[found.len() as int] == name);
            } else {
                let i = choose|i: int| 0 <= i < found.len() && found[i] == expected[k];
                assert(distinct_names(all)[i] == expected[k]);
            }
        }
    }
}

/// A struct that can be written reads back from its body: under the name of each of its fields
/// stand the texts of that field's value, in order, and a field without texts is absent.
///
/// No two fields of the struct may have the same name but for its case.
pub proof fn lemma_struct_reads_back<F: Field>(value: Datum, k: int)
    requires
        value is Struct,
        body_lines::<F>(value) is Ok,
        0 <= k < value->Struct_0@.len(),
        forall|i: int|
            0 <= i < value->Struct_0@.len() ==> keeps_name::<F>(
                #[trigger] struct_names(value->Struct_0@)[i],
            ),
        forall|i: int, j: int|
            0 <= i < j < value->Struct_0@.len() ==> !same_name(
                #[trigger] struct_names(value->Struct_0@)[i],
                #[trigger] struct_names(value->Struct_0@)[j],
            ),
    ensures
        ({
            let entries = value->Struct_0@;
            let expected = struct_names(entries);
            let lines = spelled_lines::<F>(body_lines::<F>(value)->Ok_0, expected);
            &&& values_named(lines, expected[k]) == texts(entries[k].1)
            &&& distinct_names(lines).contains(expected[k]) == (texts(entries[k].1).len() > 0)
        }),
{
    let entries = value->Struct_0@;
    let expected = struct_names(entries);
    assert(entries.take(entries.len() as int) =~= entries);
    lemma_fields_read_back::<F>(entries, entries.len() as int, k);
    let lines = spelled_lines::<F>(body_lines::<F>(value)->Ok_0, expected);
    if distinct_names(lines).contains(expected[k]) {
        let i = choose|i: int|
            0 <= i < distinct_names(lines).len() && distinct_names(lines)[i] == expected[k];
        assert(same_name(distinct_names(lines)[i], expected[k]));
        lemma_distinct(lines, expected[k]);
    }
}

/// An integer is read from its decimal digits, whatever zeros stand before them and with or without
/// a plus sign, and a negative one from a minus sign and its digits where a sign is allowed.
pub proof fn lemma_integer_is_read(zeros: nat, n: nat, signed: bool)
    ensures
        ({
            let digits = zeros_text(zeros) + ascii_text(decimal(n));
            &&& integer_text(digits, signed) == Some(n as int)
            &&& integer_text(seq!['+'] + digits, signed) == Some(n as int)
            &&& integer_text(seq!['-'] + digits, signed) == if signed {
                Some(-(n as int))
            } else {
                None
            }
        }),
{
    let digits = zeros_text(zeros) + ascii_text(decimal(n));
    let plus = seq!['+'] + digits;
    let minus = seq!['-'] + digits;
    lemma_decimal(n);
    lemma_digits(zeros, decimal(n));
    assert(plus.skip(1) =~= digits);
    assert(minus.skip(1) =~= digits);
    assert(plus[0] == '+' && minus[0] == '-');
}

/// A text is read as no integer where anything but a digit stands in it behind its first character,
/// or where it holds no digit.
pub proof fn lemma_other_text_is_no_integer(text: Seq<char>, signed: bool)
    ensures
        text.len() == 0 ==> integer_text(text, signed) is None,
        text.len() == 1 && !('0' <= text[0] <= '9') ==> integer_text(text, signed) is None,
        (exists|i: int| 0 < i < text.len() && !('0' <= #[trigger] text[i] <= '9'))
            ==> integer_text(text, signed) is None,
{
    if exists|i: int| 0 < i < text.len() && !('0' <= #[trigger] text[i] <= '9') {
        let i = choose|i: int| 0 < i < text.len() && !('0' <= #[trigger] text[i] <= '9');
        assert(text.skip(1)[i - 1] == text[i]);
    }
}

} // verus!
