//! The named-field grammar: a name, a colon, and a value that may be folded over several lines.

use crate::octets::{
    ascii_string, ascii_text, copied, find, is_ascii, is_trim, is_white, leading_white,
    lemma_ascii_text, lemma_leading_white, lemma_leading_white_is, lemma_position,
    lemma_position_is, lemma_trailing_white, lemma_trimmed_between, position, trailing_white,
    trimmed,
};
use crate::parsing::{
    content_end, is_lws, is_text, is_text_char, is_token, is_token_char, line_break, lws, next_line,
    text, token,
};
use vstd::prelude::*;
use vstd::slice::slice_subrange;
use vstd::utf8::{
    is_char_boundary_iff_not_is_continuation_byte, length_of_first_scalar, pop_first_scalar,
    valid_first_scalar, valid_utf8, valid_utf8_concat, valid_utf8_split,
};

verus! {

/// The first position from `from` on that holds no linear white space, or the length.
pub open spec fn after_lws(s: Seq<u8>, from: int) -> int
    decreases s.len() - from,
{
    if from < 0 || from >= s.len() || !is_lws(s[from]) {
        from
    } else {
        after_lws(s, from + 1)
    }
}

/// How many octets the line break of a fold takes up at `i`, which is 0 where no fold starts.
///
/// A fold is a line break with linear white space behind it.
pub open spec fn fold_break(s: Seq<u8>, i: int) -> int {
    if 0 <= i && i + 1 < s.len() && s[i] == 0x0a && is_lws(s[i + 1]) {
        1
    } else if 0 <= i && i + 2 < s.len() && s[i] == 0x0d && s[i + 1] == 0x0a && is_lws(s[i + 2]) {
        2
    } else {
        0
    }
}

proof fn lemma_after_lws(s: Seq<u8>, from: int)
    requires
        0 <= from <= s.len(),
    ensures
        from <= after_lws(s, from) <= s.len(),
        from < s.len() && is_lws(s[from]) ==> from < after_lws(s, from),
        forall|j: int| from <= j < after_lws(s, from) ==> is_lws(#[trigger] s[j]),
        after_lws(s, from) < s.len() ==> !is_lws(s[after_lws(s, from)]),
    decreases s.len() - from,
{
    if from < s.len() && is_lws(s[from]) {
        lemma_after_lws(s, from + 1);
    }
}

/// A value from position `i` on with a single space in place of each fold.
pub open spec fn joined(s: Seq<u8>, i: int) -> Seq<u8>
    decreases s.len() - i,
{
    if i < 0 || i >= s.len() {
        Seq::empty()
    } else if fold_break(s, i) > 0 {
        let next = after_lws(s, i + fold_break(s, i));
        if i < next <= s.len() {
            seq![0x20u8] + joined(s, next)
        } else {
            Seq::empty()
        }
    } else {
        seq![s[i]] + joined(s, i + 1)
    }
}

/// A field value as it is read: a single space in place of each fold, and without the white space
/// that opens and closes it.
pub open spec fn unfolded(s: Seq<u8>) -> Seq<u8> {
    trimmed(joined(s, 0))
}

/// A value without line feeds is joined as it is.
proof fn lemma_joined_same(s: Seq<u8>, i: int)
    requires
        0 <= i <= s.len(),
        forall|j: int| 0 <= j < s.len() ==> #[trigger] s[j] != 0x0a,
    ensures
        joined(s, i) == s.skip(i),
    decreases s.len() - i,
{
    if i < s.len() {
        lemma_joined_same(s, i + 1);
        assert(s.skip(i) =~= seq![s[i]] + s.skip(i + 1));
    } else {
        assert(s.skip(i) =~= Seq::empty());
    }
}

/// A value without line feeds that white space neither opens nor closes is read as itself, whatever
/// linear white space is written before it.
pub proof fn lemma_unfolded_same(before: Seq<u8>, s: Seq<u8>)
    requires
        forall|j: int| 0 <= j < s.len() ==> #[trigger] s[j] != 0x0a,
        forall|j: int| 0 <= j < before.len() ==> is_lws(#[trigger] before[j]),
        is_trim(s),
    ensures
        unfolded(before + s) == s,
        joined(before + s, 0) == before + s,
{
    let all = before + s;
    assert forall|j: int| 0 <= j < all.len() implies #[trigger] all[j] != 0x0a by {
        if j < before.len() {
            assert(is_lws(before[j]));
        } else {
            assert(s[j - before.len()] != 0x0a);
        }
    }
    lemma_joined_same(all, 0);
    assert(all.skip(0) =~= all);
    assert forall|j: int| 0 <= j < before.len() implies is_white(#[trigger] before[j]) by {
        assert(is_lws(before[j]));
    }
    if s.len() > 0 {
        lemma_trimmed_between(before, s, Seq::empty());
        assert(before + s + Seq::empty() =~= all);
    } else {
        assert(all =~= before);
        lemma_leading_white_is(all, all.len() as int);
        assert(trimmed(all) =~= s);
    }
}

/// The value of a field as it is read.
pub fn unfold(s: &[u8]) -> (r: Vec<u8>)
    ensures
        r@ == joined(s@, 0),
{
    let mut out: Vec<u8> = Vec::new();
    let mut i: usize = 0;
    assert(out@ + joined(s@, 0) =~= joined(s@, 0));
    while i < s.len()
        invariant
            i <= s.len(),
            out@ + joined(s@, i as int) == joined(s@, 0),
        decreases s.len() - i,
    {
        let ghost before = out@;
        let ghost at = i as int;
        let width: usize = if i + 1 < s.len() && s[i] == 0x0a && lws(s[i + 1]) {
            1
        } else if i + 1 < s.len() && i + 2 < s.len() && s[i] == 0x0d && s[i + 1] == 0x0a && lws(
            s[i + 2],
        ) {
            2
        } else {
            0
        };
        assert(width == fold_break(s@, at));
        if width > 0 {
            let start: usize = i + width;
            let mut j: usize = start;
            while j < s.len() && lws(s[j])
                invariant
                    start <= j <= s.len(),
                    after_lws(s@, start as int) == after_lws(s@, j as int),
                decreases s.len() - j,
            {
                j = j + 1;
            }
            out.push(0x20);
            i = j;
            assert(out@ + joined(s@, i as int) =~= before + (seq![0x20u8] + joined(s@, i as int)));
        } else {
            out.push(s[i]);
            i = i + 1;
            assert(out@ + joined(s@, i as int) =~= before + (seq![s@[at]] + joined(s@, i as int)));
        }
    }
    assert(out@ + joined(s@, i as int) =~= out@);
    out
}

/// Where the content of a named field ends and where the next line starts, for a field that starts
/// at `offset` and may continue on lines that open with linear white space.
pub open spec fn field_end(s: Seq<u8>, offset: int) -> Option<(int, int)>
    decreases s.len() - offset,
{
    let at = line_break(s, offset);
    if offset < 0 || !(offset <= at < s.len()) {
        None
    } else if at + 1 < s.len() && is_lws(s[at + 1]) {
        field_end(s, at + 1)
    } else {
        Some((content_end(s, offset), at + 1))
    }
}

/// A field as it is written: its name and its value with the folds in it.
pub type Written = (Seq<char>, Seq<u8>);

/// The field that starts at `offset`, and where the line behind it starts.
///
/// The name is a token, and the value is TEXT but for its folds.
pub open spec fn field_at(s: Seq<u8>, offset: int) -> Option<(Written, int)> {
    match field_end(s, offset) {
        Some((end, next)) => {
            let colon = position(s, 0x3a, offset);
            let name = s.subrange(offset, colon);
            let value = s.subrange(colon + 1, end);
            if colon < end && is_token(name) && is_text(joined(value, 0)) {
                Some(((ascii_text(name), value), next))
            } else {
                None
            }
        },
        None => None,
    }
}

/// The fields from `offset` on, and where the first line stands that starts none.
pub open spec fn fields_from(s: Seq<u8>, offset: int) -> (Seq<Written>, int)
    decreases s.len() - offset,
{
    match field_at(s, offset) {
        Some((field, next)) => if 0 <= offset < next <= s.len() {
            let (rest, stop) = fields_from(s, next);
            (seq![field] + rest, stop)
        } else {
            (Seq::empty(), offset)
        },
        None => (Seq::empty(), offset),
    }
}

/// A written field as the grammar sees it.
pub open spec fn written(field: (String, Vec<u8>)) -> Written {
    (field.0@, field.1@)
}

/// Written fields as the grammar sees them.
pub open spec fn all_written(fields: Seq<(String, Vec<u8>)>) -> Seq<Written> {
    fields.map_values(|field: (String, Vec<u8>)| written(field))
}

proof fn lemma_field_end(s: Seq<u8>, offset: int)
    requires
        0 <= offset <= s.len(),
    ensures
        field_end(s, offset) matches Some((end, next)) ==> offset <= end < next <= s.len() && s[next
            - 1] == 0x0a && (next < s.len() ==> !is_lws(s[next])) && (end == next - 1 || (end == next
            - 2 && s[end] == 0x0d)),
    decreases s.len() - offset,
{
    lemma_position(s, 0x0a, offset);
    let at = line_break(s, offset);
    if at < s.len() && at + 1 < s.len() && is_lws(s[at + 1]) {
        lemma_field_end(s, at + 1);
    }
}

/// Where the content of a named field ends and where the next line starts.
fn find_field_end(s: &[u8], offset: usize) -> (r: Option<(usize, usize)>)
    requires
        offset <= s.len(),
    ensures
        match r {
            Some((end, next)) => field_end(s@, offset as int) == Some((end as int, next as int))
                && offset <= end < next <= s.len(),
            None => field_end(s@, offset as int) is None,
        },
{
    let mut start: usize = offset;
    loop
        invariant
            offset <= start <= s.len(),
            field_end(s@, offset as int) == field_end(s@, start as int),
        decreases s.len() - start,
    {
        proof {
            lemma_position(s@, 0x0a, start as int);
        }
        match next_line(s, start) {
            None => {
                return None;
            },
            Some(line) => {
                if line.next < s.len() && lws(s[line.next]) {
                    start = line.next;
                } else {
                    return Some((line.end, line.next));
                }
            },
        }
    }
}

/// The field that starts at `offset`, and where the line behind it starts.
pub fn read_field(s: &[u8], offset: usize) -> (r: Option<((String, Vec<u8>), usize)>)
    requires
        offset <= s.len(),
    ensures
        match r {
            Some((field, next)) => field_at(s@, offset as int) == Some(
                (written(field), next as int),
            ) && offset < next <= s.len(),
            None => field_at(s@, offset as int) is None,
        },
{
    let (end, next) = match find_field_end(s, offset) {
        Some(found) => found,
        None => {
            return None;
        },
    };
    proof {
        lemma_position(s@, 0x3a, offset as int);
    }
    let colon = find(s, 0x3a, offset);
    if colon >= end {
        return None;
    }
    let name = slice_subrange(s, offset, colon);
    let value = slice_subrange(s, colon + 1, end);
    if !token(name) {
        return None;
    }
    let plain = unfold(value);
    if !text(plain.as_slice()) {
        return None;
    }
    proof {
        lemma_token_is_ascii(name@);
    }
    Some(((ascii_string(name), copied(value)), next))
}

proof fn lemma_token_is_ascii(s: Seq<u8>)
    requires
        is_token(s),
    ensures
        is_ascii(s),
{
    assert forall|i: int| 0 <= i < s.len() implies #[trigger] s[i] < 128 by {
        assert(is_token_char(s[i]));
    }
}

/// The fields from `offset` on, and where the first line stands that starts none.
pub fn read_fields(s: &[u8], offset: usize) -> (r: (Vec<(String, Vec<u8>)>, usize))
    requires
        offset <= s.len(),
    ensures
        (all_written(r.0@), r.1 as int) == fields_from(s@, offset as int),
        offset <= r.1 <= s.len(),
{
    let mut fields: Vec<(String, Vec<u8>)> = Vec::new();
    let mut at: usize = offset;
    assert(all_written(fields@) + fields_from(s@, at as int).0 =~= fields_from(
        s@,
        offset as int,
    ).0);
    loop
        invariant
            offset <= at <= s.len(),
            all_written(fields@) + fields_from(s@, at as int).0 == fields_from(
                s@,
                offset as int,
            ).0,
            fields_from(s@, at as int).1 == fields_from(s@, offset as int).1,
        decreases s.len() - at,
    {
        let ghost before = fields@;
        match read_field(s, at) {
            None => {
                assert(fields_from(s@, at as int) == (Seq::<Written>::empty(), at as int));
                assert(all_written(fields@) + Seq::empty() =~= all_written(fields@));
                return (fields, at);
            },
            Some((field, next)) => {
                proof {
                    let w = written(field);
                    let tail = fields_from(s@, next as int).0;
                    assert(fields_from(s@, at as int).0 == seq![w] + tail);
                    assert(all_written(before.push(field)) + tail =~= all_written(before) + (
                    seq![w] + tail));
                }
                fields.push(field);
                at = next;
            },
        }
    }
}

/// UTF-8 is cut in two UTF-8 parts before an ASCII octet and behind one.
proof fn lemma_cut(s: Seq<u8>, at: int)
    requires
        valid_utf8(s),
        0 <= at < s.len(),
        s[at] < 128,
    ensures
        valid_utf8(s.take(at)),
        valid_utf8(s.skip(at + 1)),
{
    is_char_boundary_iff_not_is_continuation_byte(s, at);
    valid_utf8_split(s, at);
    let rest = s.skip(at);
    assert(s.subrange(0, at) =~= s.take(at));
    assert(s.subrange(at, s.len() as int) =~= rest);
    if rest.len() > 1 {
        assert(valid_first_scalar(rest));
        assert(length_of_first_scalar(rest) == 1);
        assert(pop_first_scalar(rest) =~= s.skip(at + 1));
    } else {
        assert(s.skip(at + 1) =~= Seq::empty());
    }
}

proof fn lemma_joined_run(s: Seq<u8>, i: int, to: int)
    requires
        0 <= i <= to <= s.len(),
        forall|j: int| i <= j < to ==> #[trigger] fold_break(s, j) == 0,
    ensures
        joined(s, i) == s.subrange(i, to) + joined(s, to),
    decreases to - i,
{
    if i < to {
        assert(fold_break(s, i) == 0);
        lemma_joined_run(s, i + 1, to);
        assert(s.subrange(i, to) =~= seq![s[i]] + s.subrange(i + 1, to));
        assert(joined(s, i) =~= s.subrange(i, to) + joined(s, to));
    } else {
        assert(s.subrange(i, to) =~= Seq::empty());
        assert(Seq::<u8>::empty() + joined(s, to) =~= joined(s, to));
    }
}

/// A value whose joined form is UTF-8 is UTF-8 with its folds too.
proof fn lemma_joined_is_utf8(s: Seq<u8>, i: int, to: int)
    requires
        0 <= i <= to <= s.len(),
        forall|j: int| i <= j < to ==> #[trigger] fold_break(s, j) == 0,
        valid_utf8(joined(s, i)),
    ensures
        valid_utf8(s.skip(i)),
    decreases s.len() - i, s.len() - to,
{
    if to == s.len() {
        lemma_joined_run(s, i, to);
        assert(s.skip(i) =~= s.subrange(i, to));
        assert(joined(s, i) =~= s.skip(i));
    } else if fold_break(s, to) == 0 {
        lemma_joined_is_utf8(s, i, to + 1);
    } else {
        lemma_joined_run(s, i, to);
        let start = to + fold_break(s, to);
        lemma_after_lws(s, start);
        let next = after_lws(s, start);
        let run = s.subrange(i, to);
        let whole = joined(s, i);
        assert(whole =~= run + (seq![0x20u8] + joined(s, next)));
        assert(whole[to - i] == 0x20);
        lemma_cut(whole, to - i);
        assert(whole.take(to - i) =~= run);
        assert(whole.skip(to - i + 1) =~= joined(s, next));
        lemma_joined_is_utf8(s, next, next);
        let fold = s.subrange(to, next);
        assert forall|j: int| 0 <= j < fold.len() implies #[trigger] fold[j] < 128 by {
            if j >= fold_break(s, to) {
                assert(is_lws(s[to + j]));
            }
        }
        lemma_ascii_text(fold);
        valid_utf8_concat(run, fold);
        valid_utf8_concat(run + fold, s.skip(next));
        assert(s.skip(i) =~= run + fold + s.skip(next));
    }
}

/// A value that is read as UTF-8 is UTF-8 as it is written.
proof fn lemma_unfolded_is_utf8(s: Seq<u8>)
    requires
        valid_utf8(unfolded(s)),
    ensures
        valid_utf8(s),
{
    let whole = joined(s, 0);
    let before = leading_white(whole) as int;
    lemma_leading_white(whole);
    let rest = whole.skip(before);
    lemma_trailing_white(rest);
    let end = rest.len() - trailing_white(rest);
    let white = whole.take(before);
    let behind = rest.skip(end);
    assert forall|j: int| 0 <= j < white.len() implies #[trigger] white[j] < 128 by {
        assert(is_white(whole[j]));
    }
    assert forall|j: int| 0 <= j < behind.len() implies #[trigger] behind[j] < 128 by {
        assert(is_white(rest[end + j]));
    }
    lemma_ascii_text(white);
    lemma_ascii_text(behind);
    valid_utf8_concat(white, unfolded(s));
    valid_utf8_concat(white + unfolded(s), behind);
    assert(whole =~= white + unfolded(s) + behind);
    lemma_joined_is_utf8(s, 0, 0);
    assert(s.skip(0) =~= s);
}

/// Fields whose values are UTF-8 are written in UTF-8, where what stands behind them is.
pub proof fn lemma_fields_are_utf8(s: Seq<u8>, offset: int)
    requires
        0 <= offset <= s.len(),
        forall|i: int|
            0 <= i < fields_from(s, offset).0.len() ==> valid_utf8(
                unfolded((#[trigger] fields_from(s, offset).0[i]).1),
            ),
        valid_utf8(s.skip(fields_from(s, offset).1)),
    ensures
        valid_utf8(s.skip(offset)),
    decreases s.len() - offset,
{
    if let Some((field, next)) = field_at(s, offset) {
        lemma_field_end(s, offset);
        lemma_position(s, 0x3a, offset);
        let (end, _) = field_end(s, offset)->0;
        let colon = position(s, 0x3a, offset);
        let (rest, stop) = fields_from(s, next);
        let all = fields_from(s, offset).0;
        assert(all == seq![field] + rest);
        assert(all[0] == field);
        assert forall|i: int| 0 <= i < rest.len() implies valid_utf8(
            unfolded((#[trigger] rest[i]).1),
        ) by {
            assert(all[i + 1] == rest[i]);
        }
        lemma_fields_are_utf8(s, next);
        let name = s.subrange(offset, colon + 1);
        let value = s.subrange(colon + 1, end);
        let closing = s.subrange(end, next);
        assert forall|j: int| 0 <= j < name.len() implies #[trigger] name[j] < 128 by {
            if j < name.len() - 1 {
                assert(is_token_char(s.subrange(offset, colon)[j]));
            }
        }
        lemma_ascii_text(name);
        lemma_ascii_text(closing);
        lemma_unfolded_is_utf8(value);
        valid_utf8_concat(name, value);
        valid_utf8_concat(name + value, closing);
        valid_utf8_concat(name + value + closing, s.skip(next));
        assert(s.skip(offset) =~= name + value + closing + s.skip(next));
    }
}

/// A field written on one line, where the line behind it does not continue it, is read as it was
/// written.
pub proof fn lemma_field_reads_back(before: Seq<u8>, name: Seq<u8>, value: Seq<u8>, after: Seq<u8>)
    requires
        is_token(name),
        is_text(value),
        is_trim(value),
        after.len() > 0 ==> !is_lws(after[0]),
    ensures
        ({
            let line = name + seq![0x3au8, 0x20u8] + value + seq![0x0du8, 0x0au8];
            let s = before + line + after;
            &&& field_at(s, before.len() as int) == Some(
                ((ascii_text(name), seq![0x20u8] + value), (before.len() + line.len()) as int),
            )
            &&& unfolded(seq![0x20u8] + value) == value
        }),
{
    let line = name + seq![0x3au8, 0x20u8] + value + seq![0x0du8, 0x0au8];
    let s = before + line + after;
    let at = before.len() as int;
    let colon = at + name.len();
    let end = at + line.len() - 2;
    assert forall|j: int| at <= j < end implies s[j] != 0x0a && s[j] == line[j - at] by {
        let k = j - at;
        if k < name.len() {
            assert(line[k] == name[k]);
            assert(is_token_char(name[k]));
        } else if k == name.len() || k == name.len() + 1 {
        } else {
            assert(line[k] == value[k - name.len() - 2]);
            assert(is_text_char(value[k - name.len() - 2]));
        }
    }
    assert(s[end] == 0x0d);
    assert(s[end + 1] == 0x0a);
    lemma_position_is(s, 0x0a, at, end + 1);
    assert forall|j: int| at <= j < colon implies s[j] != 0x3a by {
        assert(s[j] == name[j - at]);
        assert(is_token_char(name[j - at]));
    }
    assert(s[colon] == 0x3a);
    lemma_position_is(s, 0x3a, at, colon);
    assert(s.subrange(at, colon) =~= name);
    assert(s.subrange(colon + 1, end) =~= seq![0x20u8] + value);
    if end + 2 < s.len() {
        assert(s[end + 2] == after[0]);
    }
    assert(content_end(s, at) == end);
    assert(field_end(s, at) == Some((end, end + 2)));
    assert forall|j: int| 0 <= j < value.len() implies #[trigger] value[j] != 0x0a by {
        assert(is_text_char(value[j]));
    }
    lemma_unfolded_same(seq![0x20u8], value);
    assert(is_text(seq![0x20u8] + value)) by {
        assert forall|j: int| 0 <= j < value.len() + 1 implies is_text_char(
            #[trigger] (seq![0x20u8] + value)[j],
        ) by {
            if j > 0 {
                assert(is_text_char(value[j - 1]));
            }
        }
    }
}

/// A fold: a line break, with or without a carriage return, and white space behind it.
pub ghost struct Fold {
    /// Whether a carriage return opens the line break.
    pub crlf: bool,
    /// The white space.
    pub blank: Seq<u8>,
}

/// The line break of a fold.
pub open spec fn break_octets(fold: Fold) -> Seq<u8> {
    if fold.crlf {
        seq![0x0du8, 0x0au8]
    } else {
        seq![0x0au8]
    }
}

/// Whether a fold has white space, and no more than spaces and tabs.
pub open spec fn is_fold(fold: Fold) -> bool {
    fold.blank.len() > 0 && forall|i: int|
        0 <= i < fold.blank.len() ==> #[trigger] fold.blank[i] == 0x20 || fold.blank[i] == 0x09
}

/// A value that is written on several lines.
pub open spec fn folded(first: Seq<u8>, more: Seq<(Fold, Seq<u8>)>) -> Seq<u8>
    decreases more.len(),
{
    if more.len() == 0 {
        first
    } else {
        first + break_octets(more[0].0) + more[0].0.blank + folded(more[0].1, more.skip(1))
    }
}

/// The parts of a value with one space between them.
pub open spec fn spaced(first: Seq<u8>, more: Seq<(Fold, Seq<u8>)>) -> Seq<u8>
    decreases more.len(),
{
    if more.len() == 0 {
        first
    } else {
        first + seq![0x20u8] + spaced(more[0].1, more.skip(1))
    }
}

/// Whether the lines behind the first of a value are well-formed: each is text that white space
/// does not open, behind a fold.
pub open spec fn are_folded_lines(more: Seq<(Fold, Seq<u8>)>) -> bool {
    forall|i: int|
        0 <= i < more.len() ==> is_fold((#[trigger] more[i]).0) && is_text(more[i].1)
            && more[i].1.len() > 0 && more[i].1[0] != 0x20 && more[i].1[0] != 0x09
}

proof fn lemma_fewer_lines(more: Seq<(Fold, Seq<u8>)>)
    requires
        are_folded_lines(more),
        more.len() > 0,
    ensures
        are_folded_lines(more.skip(1)),
{
    let rest = more.skip(1);
    assert forall|i: int| 0 <= i < rest.len() implies is_fold((#[trigger] rest[i]).0) && is_text(
        rest[i].1,
    ) && rest[i].1.len() > 0 && rest[i].1[0] != 0x20 && rest[i].1[0] != 0x09 by {
        assert(rest[i] == more[i + 1]);
    }
}

/// Text within a value is joined as it is.
proof fn lemma_joined_text(s: Seq<u8>, i: int, end: int)
    requires
        0 <= i <= end <= s.len(),
        forall|j: int| i <= j < end ==> is_text_char(#[trigger] s[j]),
    ensures
        joined(s, i) == s.subrange(i, end) + joined(s, end),
    decreases end - i,
{
    if i < end {
        assert(is_text_char(s[i]));
        lemma_joined_text(s, i + 1, end);
        assert(joined(s, i) == seq![s[i]] + joined(s, i + 1));
        assert(s.subrange(i, end) + joined(s, end) =~= seq![s[i]] + (s.subrange(i + 1, end)
            + joined(s, end)));
    } else {
        assert(s.subrange(i, end) + joined(s, end) =~= joined(s, end));
    }
}

proof fn lemma_after_blank_is(s: Seq<u8>, from: int, end: int)
    requires
        0 <= from <= end < s.len(),
        forall|j: int| from <= j < end ==> is_lws(#[trigger] s[j]),
        !is_lws(s[end]),
    ensures
        after_lws(s, from) == end,
    decreases end - from,
{
    if from < end {
        assert(is_lws(s[from]));
        lemma_after_blank_is(s, from + 1, end);
    }
}

proof fn lemma_folds_are_joined_behind(
    before: Seq<u8>,
    first: Seq<u8>,
    more: Seq<(Fold, Seq<u8>)>,
)
    requires
        is_text(first),
        are_folded_lines(more),
    ensures
        joined(before + folded(first, more), before.len() as int) == spaced(first, more),
    decreases more.len(),
{
    let s = before + folded(first, more);
    let at = before.len() as int;
    let end = at + first.len();
    assert forall|j: int| at <= j < end implies is_text_char(#[trigger] s[j]) by {
        assert(s[j] == first[j - at]);
    }
    lemma_joined_text(s, at, end);
    assert(s.subrange(at, end) =~= first);
    if more.len() == 0 {
        assert(first + joined(s, end) =~= first);
    } else {
        let fold = more[0].0;
        let next = more[0].1;
        let rest = more.skip(1);
        assert(is_fold(fold) && is_text(next) && next.len() > 0);
        lemma_fewer_lines(more);
        let breaks = break_octets(fold);
        let passed = before + first + breaks + fold.blank;
        assert(s =~= passed + folded(next, rest));
        let gap = passed.len() as int;
        let start = end + breaks.len();
        assert(s[end] == breaks[0]);
        assert(s[start - 1] == 0x0a);
        assert(s[start] == fold.blank[0]);
        assert(fold_break(s, end) == breaks.len());
        assert forall|j: int| start <= j < gap implies is_lws(#[trigger] s[j]) by {
            assert(s[j] == fold.blank[j - start]);
        }
        lemma_opens_with(next, rest);
        assert(s[gap] == next[0]);
        lemma_after_blank_is(s, start, gap);
        lemma_folds_are_joined_behind(passed, next, rest);
        assert(joined(s, end) == seq![0x20u8] + spaced(next, rest));
        assert(first + joined(s, end) =~= spaced(first, more));
    }
}

proof fn lemma_opens_with(first: Seq<u8>, more: Seq<(Fold, Seq<u8>)>)
    requires
        first.len() > 0,
    ensures
        folded(first, more).len() > 0,
        folded(first, more)[0] == first[0],
{
}

/// A value that is written on several lines is read with one space in place of each fold, however
/// much white space that has.
pub proof fn lemma_folds_are_spaces(first: Seq<u8>, more: Seq<(Fold, Seq<u8>)>)
    requires
        is_text(first),
        are_folded_lines(more),
    ensures
        joined(folded(first, more), 0) == spaced(first, more),
{
    lemma_folds_are_joined_behind(Seq::empty(), first, more);
    assert(Seq::<u8>::empty() + folded(first, more) =~= folded(first, more));
}

#[verifier::spinoff_prover]
proof fn lemma_folded_end(
    before: Seq<u8>,
    lead: Seq<u8>,
    first: Seq<u8>,
    more: Seq<(Fold, Seq<u8>)>,
    after: Seq<u8>,
)
    requires
        forall|i: int| 0 <= i < lead.len() ==> #[trigger] lead[i] != 0x0a,
        is_text(first),
        are_folded_lines(more),
        after.len() > 0 ==> !is_lws(after[0]),
    ensures
        ({
            let content = before + lead + folded(first, more);
            field_end(content + seq![0x0du8, 0x0au8] + after, before.len() as int) == Some(
                (content.len() as int, content.len() + 2int),
            )
        }),
    decreases more.len(),
{
    let content = before + lead + folded(first, more);
    let s = content + seq![0x0du8, 0x0au8] + after;
    let at = before.len() as int;
    let end = at + lead.len() + first.len();
    assert forall|j: int| at <= j < end implies #[trigger] s[j] != 0x0a by {
        if j < at + lead.len() {
            assert(s[j] == lead[j - at]);
        } else {
            assert(s[j] == first[j - at - lead.len()]);
            assert(is_text_char(first[j - at - lead.len()]));
        }
    }
    if more.len() == 0 {
        assert(s[end] == 0x0d && s[end + 1] == 0x0a);
        lemma_position_is(s, 0x0a, at, end + 1);
        if after.len() > 0 {
            assert(s[end + 2] == after[0]);
        }
    } else {
        let fold = more[0].0;
        let next = more[0].1;
        let rest = more.skip(1);
        assert(is_fold(fold) && is_text(next));
        lemma_fewer_lines(more);
        let breaks = break_octets(fold);
        let passed = before + lead + first + breaks;
        assert(content =~= passed + fold.blank + folded(next, rest));
        let start = end + breaks.len();
        assert(s[start - 1] == 0x0a);
        if fold.crlf {
            assert(s[end] == 0x0d);
        }
        lemma_position_is(s, 0x0a, at, start - 1);
        assert(s[start] == fold.blank[0]);
        assert(is_lws(s[start]));
        assert forall|i: int| 0 <= i < fold.blank.len() implies #[trigger] fold.blank[i] != 0x0a by {}
        lemma_folded_end(passed, fold.blank, next, rest, after);
    }
}

/// A field goes on over the lines that white space opens, and its value is what they hold with one
/// space in place of each fold.
pub proof fn lemma_folded_field_is_read(
    before: Seq<u8>,
    name: Seq<u8>,
    first: Seq<u8>,
    more: Seq<(Fold, Seq<u8>)>,
    after: Seq<u8>,
)
    requires
        is_token(name),
        is_text(first),
        are_folded_lines(more),
        after.len() > 0 ==> after[0] != 0x20 && after[0] != 0x09,
    ensures
        ({
            let line = name + seq![0x3au8] + folded(first, more) + seq![0x0du8, 0x0au8];
            &&& field_at(before + line + after, before.len() as int) == Some(
                ((ascii_text(name), folded(first, more)), (before.len() + line.len()) as int),
            )
            &&& unfolded(folded(first, more)) == trimmed(spaced(first, more))
        }),
{
    let value = folded(first, more);
    let line = name + seq![0x3au8] + value + seq![0x0du8, 0x0au8];
    let s = before + line + after;
    let at = before.len() as int;
    let lead = name + seq![0x3au8];
    assert forall|i: int| 0 <= i < lead.len() implies #[trigger] lead[i] != 0x0a by {
        if i < name.len() {
            assert(lead[i] == name[i]);
            assert(is_token_char(name[i]));
        }
    }
    lemma_folded_end(before, lead, first, more, after);
    assert(before + lead + value + seq![0x0du8, 0x0au8] + after =~= s);
    let colon = at + name.len();
    assert forall|j: int| at <= j < colon implies #[trigger] s[j] != 0x3a by {
        assert(s[j] == name[j - at]);
        assert(is_token_char(name[j - at]));
    }
    assert(s[colon] == 0x3a);
    lemma_position_is(s, 0x3a, at, colon);
    assert(s.subrange(at, colon) =~= name);
    let end = (before + lead + value).len() as int;
    assert(s.subrange(colon + 1, end) =~= value);
    lemma_folds_are_spaces(first, more);
    lemma_spaced_is_text(first, more);
}

proof fn lemma_spaced_is_text(first: Seq<u8>, more: Seq<(Fold, Seq<u8>)>)
    requires
        is_text(first),
        are_folded_lines(more),
    ensures
        is_text(spaced(first, more)),
    decreases more.len(),
{
    if more.len() > 0 {
        let next = more[0].1;
        let rest = more.skip(1);
        assert(is_text(next));
        lemma_fewer_lines(more);
        lemma_spaced_is_text(next, rest);
        let s = spaced(first, more);
        assert forall|i: int| 0 <= i < s.len() implies is_text_char(#[trigger] s[i]) by {
            if i < first.len() {
                assert(s[i] == first[i]);
            } else if i > first.len() {
                assert(s[i] == spaced(next, rest)[i - first.len() - 1]);
            }
        }
    }
}

} // verus!
