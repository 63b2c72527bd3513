//! The lexical rules that WARC and HTTP header blocks share.

use crate::octets::{
    ascii_string, ascii_text, decimal, wide_decimal_octets, find, is_digit, lemma_ascii_text,
    lemma_decimal, lemma_position, octets, position,
};
use vstd::prelude::*;
use vstd::slice::slice_subrange;

verus! {

/// The separators of RFC 2616: characters that a token cannot hold.
pub open spec fn is_separator(b: u8) -> bool {
    b == 0x28 || b == 0x29 || b == 0x3c || b == 0x3e || b == 0x40 || b == 0x2c || b == 0x3b || b
        == 0x3a || b == 0x5c || b == 0x22 || b == 0x2f || b == 0x5b || b == 0x5d || b == 0x3f || b
        == 0x3d || b == 0x7b || b == 0x7d || b == 0x20 || b == 0x09
}

/// A character of a token: visible ASCII that is no separator.
pub open spec fn is_token_char(b: u8) -> bool {
    0x20 < b < 0x7f && !is_separator(b)
}

/// A token: one or more token characters.
pub open spec fn is_token(s: Seq<u8>) -> bool {
    s.len() > 0 && forall|i: int| 0 <= i < s.len() ==> is_token_char(#[trigger] s[i])
}

/// Linear white space within a line: space or tab.
pub open spec fn is_lws(b: u8) -> bool {
    b == 0x20 || b == 0x09
}

/// A character of TEXT: any octet but a control character, and tab.
pub open spec fn is_text_char(b: u8) -> bool {
    b == 0x09 || (b >= 0x20 && b != 0x7f)
}

/// TEXT: text characters alone.
pub open spec fn is_text(s: Seq<u8>) -> bool {
    forall|i: int| 0 <= i < s.len() ==> is_text_char(#[trigger] s[i])
}

/// Where the line that starts at `offset` is broken, or the length where it is not.
pub open spec fn line_break(s: Seq<u8>, offset: int) -> int {
    position(s, 0x0a, offset)
}

/// Where the content of the line that starts at `offset` ends. CR LF and a bare LF break a line.
pub open spec fn content_end(s: Seq<u8>, offset: int) -> int {
    let end = line_break(s, offset);
    if end < s.len() && end > offset && s[end - 1] == 0x0d {
        end - 1
    } else {
        end
    }
}

/// The name that a field line opens with, and where its colon stands.
pub open spec fn field_colon(line: Seq<u8>) -> Option<int> {
    let colon = position(line, 0x3a, 0);
    if colon < line.len() && is_token(line.take(colon)) {
        Some(colon)
    } else {
        None
    }
}

/// Whether an octet is a token character.
pub fn token_char(b: u8) -> (r: bool)
    ensures
        r == is_token_char(b),
{
    0x20 < b && b < 0x7f && !(b == 0x28 || b == 0x29 || b == 0x3c || b == 0x3e || b == 0x40 || b
        == 0x2c || b == 0x3b || b == 0x3a || b == 0x5c || b == 0x22 || b == 0x2f || b == 0x5b || b
        == 0x5d || b == 0x3f || b == 0x3d || b == 0x7b || b == 0x7d)
}

/// Whether octets are a token.
pub fn token(s: &[u8]) -> (r: bool)
    ensures
        r == is_token(s@),
{
    let mut i: usize = 0;
    while i < s.len()
        invariant
            i <= s.len(),
            forall|j: int| 0 <= j < i ==> is_token_char(#[trigger] s@[j]),
        decreases s.len() - i,
    {
        if !token_char(s[i]) {
            assert(!is_token_char(s@[i as int]));
            return false;
        }
        i = i + 1;
    }
    s.len() > 0
}

/// Whether an octet is a text character.
pub fn text_char(b: u8) -> (r: bool)
    ensures
        r == is_text_char(b),
{
    b == 0x09 || (b >= 0x20 && b != 0x7f)
}

/// Whether octets are TEXT.
pub fn text(s: &[u8]) -> (r: bool)
    ensures
        r == is_text(s@),
{
    let mut i: usize = 0;
    while i < s.len()
        invariant
            i <= s.len(),
            forall|j: int| 0 <= j < i ==> is_text_char(#[trigger] s@[j]),
        decreases s.len() - i,
    {
        if !text_char(s[i]) {
            assert(!is_text_char(s@[i as int]));
            return false;
        }
        i = i + 1;
    }
    true
}

/// Whether an octet is linear white space.
pub fn lws(b: u8) -> (r: bool)
    ensures
        r == is_lws(b),
{
    b == 0x20 || b == 0x09
}

/// Where the content of a line ends, and where the next line starts.
pub struct Line {
    /// Where the content ends.
    pub end: usize,
    /// Where the next line starts.
    pub next: usize,
}

/// The line that starts at `offset`, where it is broken.
pub fn next_line(s: &[u8], offset: usize) -> (r: Option<Line>)
    requires
        offset <= s.len(),
    ensures
        match r {
            Some(line) => line_break(s@, offset as int) < s.len() && line.next == line_break(
                s@,
                offset as int,
            ) + 1 && line.end == content_end(s@, offset as int) && offset <= line.end < line.next
                <= s.len(),
            None => line_break(s@, offset as int) == s.len(),
        },
{
    proof {
        lemma_position(s@, 0x0a, offset as int);
    }
    let at = find(s, 0x0a, offset);
    if at == s.len() {
        return None;
    }
    if at > offset && s[at - 1] == 0x0d {
        Some(Line { end: at - 1, next: at + 1 })
    } else {
        Some(Line { end: at, next: at + 1 })
    }
}

/// Where the colon stands behind the name that a field line opens with.
pub fn split_field_line(line: &[u8]) -> (r: Option<usize>)
    ensures
        match r {
            Some(colon) => field_colon(line@) == Some(colon as int) && colon < line.len(),
            None => field_colon(line@) is None,
        },
{
    proof {
        lemma_position(line@, 0x3a, 0);
    }
    let colon = find(line, 0x3a, 0);
    if colon == line.len() {
        return None;
    }
    let name = slice_subrange(line, 0, colon);
    assert(name@ =~= line@.take(colon as int));
    if token(name) {
        Some(colon)
    } else {
        None
    }
}

/// The rule that a `quoted-string` broke.
///
/// Offsets are positions in the value as it was read, counting the opening quote.
#[derive(Clone, Copy, Debug, PartialEq, Eq, Structural)]
pub enum QuotedStringError {
    /// It does not open and close with a quote.
    Unterminated,
    /// It holds a control character that is no linear white space.
    ControlCharacter {
        /// Where the control character is written.
        index: usize,
    },
    /// It holds a quote that is not escaped.
    UnescapedQuote {
        /// Where the quote is written.
        index: usize,
    },
}

/// The content of a `quoted-string` from position `i` on, up to the quote that closes it.
pub open spec fn unescaped(s: Seq<u8>, i: int) -> Result<Seq<u8>, QuotedStringError>
    decreases s.len() - i,
{
    if i < 0 || i >= s.len() - 1 {
        Ok(Seq::empty())
    } else if s[i] == 0x22 {
        Err(QuotedStringError::UnescapedQuote { index: i as usize })
    } else if s[i] == 0x5c {
        if i + 1 >= s.len() - 1 {
            Err(QuotedStringError::Unterminated)
        } else if !is_text_char(s[i + 1]) {
            Err(QuotedStringError::ControlCharacter { index: (i + 1) as usize })
        } else {
            match unescaped(s, i + 2) {
                Ok(rest) => Ok(seq![s[i + 1]] + rest),
                Err(e) => Err(e),
            }
        }
    } else if !is_text_char(s[i]) {
        Err(QuotedStringError::ControlCharacter { index: i as usize })
    } else {
        match unescaped(s, i + 1) {
            Ok(rest) => Ok(seq![s[i]] + rest),
            Err(e) => Err(e),
        }
    }
}

/// The content of a `quoted-string`, with its quotes and escapes removed.
pub open spec fn unquoted(s: Seq<u8>) -> Result<Seq<u8>, QuotedStringError> {
    if s.len() < 2 || s[0] != 0x22 || s.last() != 0x22 {
        Err(QuotedStringError::Unterminated)
    } else {
        unescaped(s, 1)
    }
}

/// Content with a backslash before each quote and backslash.
pub open spec fn escaped(s: Seq<u8>) -> Seq<u8>
    decreases s.len(),
{
    if s.len() == 0 {
        s
    } else if s[0] == 0x22 || s[0] == 0x5c {
        seq![0x5cu8, s[0]] + escaped(s.skip(1))
    } else {
        seq![s[0]] + escaped(s.skip(1))
    }
}

/// Content as a `quoted-string`.
pub open spec fn quoted(s: Seq<u8>) -> Seq<u8> {
    seq![0x22u8] + escaped(s) + seq![0x22u8]
}

proof fn lemma_unescaped(before: Seq<u8>, content: Seq<u8>)
    requires
        is_text(content),
    ensures
        unescaped(before + escaped(content) + seq![0x22u8], before.len() as int) == Ok::<
            Seq<u8>,
            QuotedStringError,
        >(content),
    decreases content.len(),
{
    let s = before + escaped(content) + seq![0x22u8];
    let i = before.len() as int;
    if content.len() == 0 {
        assert(content =~= Seq::empty());
    } else {
        let rest = content.skip(1);
        assert(is_text_char(content[0]));
        assert forall|j: int| 0 <= j < rest.len() implies is_text_char(#[trigger] rest[j]) by {
            assert(is_text_char(content[j + 1]));
        }
        if content[0] == 0x22 || content[0] == 0x5c {
            let longer = before + seq![0x5cu8, content[0]];
            lemma_unescaped(longer, rest);
            assert(longer + escaped(rest) + seq![0x22u8] =~= s);
            assert(s[i] == 0x5c);
            assert(s[i + 1] == content[0]);
        } else {
            let longer = before + seq![content[0]];
            lemma_unescaped(longer, rest);
            assert(longer + escaped(rest) + seq![0x22u8] =~= s);
            assert(s[i] == content[0]);
        }
        assert(seq![content[0]] + rest =~= content);
    }
}

/// Text is read back from the `quoted-string` that it is written as.
pub proof fn lemma_quoted_reads_back(content: Seq<u8>)
    requires
        is_text(content),
    ensures
        unquoted(quoted(content)) == Ok::<Seq<u8>, QuotedStringError>(content),
{
    lemma_unescaped(seq![0x22u8], content);
}

/// What a `quoted-string` holds is text.
pub proof fn lemma_unescaped_is_text(s: Seq<u8>, i: int)
    ensures
        unescaped(s, i) matches Ok(content) ==> is_text(content),
    decreases s.len() - i,
{
    if i >= 0 && i < s.len() - 1 && s[i] != 0x22 {
        if s[i] == 0x5c {
            if i + 1 < s.len() - 1 {
                lemma_unescaped_is_text(s, i + 2);
            }
        } else {
            lemma_unescaped_is_text(s, i + 1);
        }
    }
}

/// The content of a `quoted-string`, with its quotes and escapes removed.
///
/// # Errors
///
/// Returns the rule that it broke.
pub fn unquote(s: &[u8]) -> (r: Result<Vec<u8>, QuotedStringError>)
    ensures
        match r {
            Ok(content) => unquoted(s@) == Ok::<Seq<u8>, QuotedStringError>(content@),
            Err(e) => unquoted(s@) == Err::<Seq<u8>, QuotedStringError>(e),
        },
{
    if s.len() < 2 || s[0] != 0x22 || s[s.len() - 1] != 0x22 {
        return Err(QuotedStringError::Unterminated);
    }
    let end: usize = s.len() - 1;
    let mut content: Vec<u8> = Vec::new();
    let mut i: usize = 1;
    proof {
        match unescaped(s@, 1) {
            Ok(rest) => assert(content@ + rest =~= rest),
            Err(_) => {},
        }
    }
    while i < end
        invariant
            end == s.len() - 1,
            1 <= i <= end,
            unescaped(s@, 1) == match unescaped(s@, i as int) {
                Ok(rest) => Ok::<Seq<u8>, QuotedStringError>(content@ + rest),
                Err(e) => Err(e),
            },
            unquoted(s@) == unescaped(s@, 1),
        decreases end - i,
    {
        let ghost before = content@;
        if s[i] == 0x22 {
            return Err(QuotedStringError::UnescapedQuote { index: i });
        }
        if s[i] == 0x5c {
            if i + 1 >= end {
                return Err(QuotedStringError::Unterminated);
            }
            if !text_char(s[i + 1]) {
                return Err(QuotedStringError::ControlCharacter { index: i + 1 });
            }
            content.push(s[i + 1]);
            i = i + 2;
        } else {
            if !text_char(s[i]) {
                return Err(QuotedStringError::ControlCharacter { index: i });
            }
            content.push(s[i]);
            i = i + 1;
        }
        proof {
            match unescaped(s@, i as int) {
                Ok(rest) => assert(before + (seq![content@.last()] + rest) =~= content@ + rest),
                Err(_) => {},
            }
        }
    }
    assert(content@ + Seq::empty() =~= content@);
    Ok(content)
}

/// Appends content as a `quoted-string`.
pub fn append_quoted(out: &mut Vec<u8>, s: &[u8])
    ensures
        final(out)@ == old(out)@ + quoted(s@),
{
    let ghost start = out@ + seq![0x22u8];
    out.push(0x22);
    let mut i: usize = 0;
    assert(s@.skip(0) =~= s@);
    while i < s.len()
        invariant
            i <= s.len(),
            out@ + escaped(s@.skip(i as int)) == start + escaped(s@),
        decreases s.len() - i,
    {
        let ghost before = out@;
        let ghost rest = s@.skip(i as int);
        assert(rest.skip(1) =~= s@.skip(i + 1));
        if s[i] == 0x22 || s[i] == 0x5c {
            out.push(0x5c);
        }
        out.push(s[i]);
        i = i + 1;
        assert(out@ + escaped(s@.skip(i as int)) =~= before + escaped(rest));
    }
    assert(out@ + Seq::empty() =~= out@);
    out.push(0x22);
    assert(out@ =~= old(out)@ + quoted(s@));
}

proof fn lemma_escaped_is_text(content: Seq<u8>)
    requires
        is_text(content),
    ensures
        is_text(escaped(content)),
    decreases content.len(),
{
    if content.len() > 0 {
        let rest = content.skip(1);
        assert(is_text_char(content[0]));
        assert forall|j: int| 0 <= j < rest.len() implies is_text_char(#[trigger] rest[j]) by {
            assert(is_text_char(content[j + 1]));
        }
        lemma_escaped_is_text(rest);
        let all = escaped(content);
        let tail = escaped(rest);
        let width = all.len() - tail.len();
        assert forall|j: int| 0 <= j < all.len() implies is_text_char(#[trigger] all[j]) by {
            if j >= width {
                assert(all[j] == tail[j - width]);
            }
        }
    }
}

/// Text is text as a `quoted-string` too.
pub proof fn lemma_quoted_is_text(content: Seq<u8>)
    requires
        is_text(content),
    ensures
        is_text(quoted(content)),
{
    lemma_escaped_is_text(content);
    let all = quoted(content);
    assert forall|j: int| 0 <= j < all.len() implies is_text_char(#[trigger] all[j]) by {
        if 0 < j < all.len() - 1 {
            assert(all[j] == escaped(content)[j - 1]);
        }
    }
}

/// The decimal spelling of a number.
pub open spec fn decimal_text(n: nat) -> Seq<char> {
    ascii_text(decimal(n))
}

/// The decimal spelling of a number.
pub fn decimal_string(n: u64) -> (r: String)
    ensures
        r@ == decimal_text(n as nat),
        octets(r@) == decimal(n as nat),
{
    wide_decimal_string(n as u128)
}

/// The decimal spelling of a wide number.
pub fn wide_decimal_string(n: u128) -> (r: String)
    ensures
        r@ == decimal_text(n as nat),
        octets(r@) == decimal(n as nat),
{
    let digits = wide_decimal_octets(n);
    proof {
        lemma_decimal(n as nat);
        assert forall|i: int| 0 <= i < digits.len() implies #[trigger] digits@[i] < 128 by {
            assert(is_digit(digits@[i]));
        }
        lemma_ascii_text(digits@);
    }
    ascii_string(digits.as_slice())
}

impl QuotedStringError {
    /// What the error says.
    pub open spec fn message(self) -> Seq<char> {
        match self {
            QuotedStringError::Unterminated => "it does not open and close with a quote"@,
            QuotedStringError::ControlCharacter { index } => {
                "a control character is written at byte "@ + decimal_text(index as nat)
            },
            QuotedStringError::UnescapedQuote { index } => {
                "an unescaped quote is written at byte "@ + decimal_text(index as nat)
            },
        }
    }

    /// What the error says.
    pub fn to_string(&self) -> (r: String)
        ensures
            r@ == self.message(),
    {
        match self {
            QuotedStringError::Unterminated => "it does not open and close with a quote".to_owned(),
            QuotedStringError::ControlCharacter { index } => {
                let mut out = "a control character is written at byte ".to_owned();
                out.append(decimal_string(*index as u64).as_str());
                out
            },
            QuotedStringError::UnescapedQuote { index } => {
                let mut out = "an unescaped quote is written at byte ".to_owned();
                out.append(decimal_string(*index as u64).as_str());
                out
            },
        }
    }
}

/// A token character is visible ASCII and no separator of RFC 2616.
pub proof fn lemma_token_char_is_told(b: u8)
    ensures
        is_token_char(b) <==> 0x21 <= b <= 0x7e && !"()<>@,;:\\\"/[]?={}"@.contains(b as char),
{
    let separators = "()<>@,;:\\\"/[]?={}"@;
    reveal_strlit("()<>@,;:\\\"/[]?={}");
    assert(separators.len() == 17);
    if 0x21 <= b <= 0x7e {
        if separators.contains(b as char) {
            let i = choose|i: int| 0 <= i < separators.len() && separators[i] == b as char;
            assert(is_separator(b));
        }
        if is_separator(b) {
            assert(separators[0] == '(' && separators[1] == ')' && separators[2] == '<'
                && separators[3] == '>' && separators[4] == '@' && separators[5] == ','
                && separators[6] == ';' && separators[7] == ':' && separators[8] == '\\'
                && separators[9] == '"' && separators[10] == '/' && separators[11] == '['
                && separators[12] == ']' && separators[13] == '?' && separators[14] == '='
                && separators[15] == '{' && separators[16] == '}');
            assert(separators.contains(b as char));
        }
    }
}

/// Characters as they stand within quotes, each with or without a backslash before it.
pub open spec fn spelled(pieces: Seq<(u8, bool)>) -> Seq<u8>
    decreases pieces.len(),
{
    if pieces.len() == 0 {
        Seq::empty()
    } else if pieces[0].1 {
        seq![0x5cu8, pieces[0].0] + spelled(pieces.skip(1))
    } else {
        seq![pieces[0].0] + spelled(pieces.skip(1))
    }
}

/// Whether a character may stand within quotes as it does: it is no control character but tab, and
/// a quote or a backslash has a backslash before it.
pub open spec fn may_stand(piece: (u8, bool)) -> bool {
    (piece.0 == 0x09 || (piece.0 >= 0x20 && piece.0 != 0x7f)) && (piece.1 || (piece.0 != 0x22
        && piece.0 != 0x5c))
}

proof fn lemma_pieces(before: Seq<u8>, pieces: Seq<(u8, bool)>)
    requires
        forall|i: int| 0 <= i < pieces.len() ==> may_stand(#[trigger] pieces[i]),
    ensures
        unescaped(before + spelled(pieces) + seq![0x22u8], before.len() as int) == Ok::<
            Seq<u8>,
            QuotedStringError,
        >(Seq::new(pieces.len(), |i: int| pieces[i].0)),
    decreases pieces.len(),
{
    let s = before + spelled(pieces) + seq![0x22u8];
    let i = before.len() as int;
    let content = Seq::new(pieces.len(), |i: int| pieces[i].0);
    if pieces.len() == 0 {
        assert(content =~= Seq::<u8>::empty());
    } else {
        let rest = pieces.skip(1);
        let piece = pieces[0];
        assert(may_stand(piece));
        assert forall|j: int| 0 <= j < rest.len() implies may_stand(#[trigger] rest[j]) by {
            assert(may_stand(pieces[j + 1]));
        }
        let tail = Seq::new(rest.len(), |i: int| rest[i].0);
        assert(content =~= seq![piece.0] + tail);
        if piece.1 {
            let longer = before + seq![0x5cu8, piece.0];
            lemma_pieces(longer, rest);
            assert(longer + spelled(rest) + seq![0x22u8] =~= s);
            assert(s[i] == 0x5c);
            assert(s[i + 1] == piece.0);
        } else {
            let longer = before + seq![piece.0];
            lemma_pieces(longer, rest);
            assert(longer + spelled(rest) + seq![0x22u8] =~= s);
            assert(s[i] == piece.0);
        }
    }
}

/// A `quoted-string` holds the characters between its quotes, without the backslashes before them:
/// one may stand before any character.
pub proof fn lemma_escapes_are_removed(pieces: Seq<(u8, bool)>)
    requires
        forall|i: int| 0 <= i < pieces.len() ==> may_stand(#[trigger] pieces[i]),
    ensures
        unquoted(seq![0x22u8] + spelled(pieces) + seq![0x22u8]) == Ok::<Seq<u8>, QuotedStringError>(
            Seq::new(pieces.len(), |i: int| pieces[i].0),
        ),
{
    lemma_pieces(seq![0x22u8], pieces);
}

proof fn lemma_pieces_up_to(before: Seq<u8>, pieces: Seq<(u8, bool)>, tail: Seq<u8>)
    requires
        forall|i: int| 0 <= i < pieces.len() ==> may_stand(#[trigger] pieces[i]),
        tail.len() > 1,
        tail[0] == 0x22 || (tail[0] != 0x5c && !(tail[0] == 0x09 || (tail[0] >= 0x20 && tail[0]
            != 0x7f))),
    ensures
        ({
            let at = (before.len() + spelled(pieces).len()) as usize;
            unescaped(before + spelled(pieces) + tail, before.len() as int) == Err::<
                Seq<u8>,
                QuotedStringError,
            >(
                if tail[0] == 0x22 {
                    QuotedStringError::UnescapedQuote { index: at }
                } else {
                    QuotedStringError::ControlCharacter { index: at }
                },
            )
        }),
    decreases pieces.len(),
{
    let s = before + spelled(pieces) + tail;
    let i = before.len() as int;
    if pieces.len() == 0 {
        assert(s[i] == tail[0]);
    } else {
        let rest = pieces.skip(1);
        let piece = pieces[0];
        assert(may_stand(piece));
        assert forall|j: int| 0 <= j < rest.len() implies may_stand(#[trigger] rest[j]) by {
            assert(may_stand(pieces[j + 1]));
        }
        if piece.1 {
            let longer = before + seq![0x5cu8, piece.0];
            lemma_pieces_up_to(longer, rest, tail);
            assert(longer + spelled(rest) + tail =~= s);
            assert(s[i] == 0x5c);
            assert(s[i + 1] == piece.0);
        } else {
            let longer = before + seq![piece.0];
            lemma_pieces_up_to(longer, rest, tail);
            assert(longer + spelled(rest) + tail =~= s);
            assert(s[i] == piece.0);
        }
    }
}

/// A `quoted-string` is refused at the first quote within it that has no backslash before it, or
/// the first control character, whichever is first.
pub proof fn lemma_wrong_character_is_found(pieces: Seq<(u8, bool)>, wrong: u8, rest: Seq<u8>)
    requires
        forall|i: int| 0 <= i < pieces.len() ==> may_stand(#[trigger] pieces[i]),
        wrong == 0x22 || (wrong < 0x20 && wrong != 0x09) || wrong == 0x7f,
        rest.len() > 0,
        rest.last() == 0x22,
    ensures
        unquoted(seq![0x22u8] + spelled(pieces) + (seq![wrong] + rest)) == Err::<
            Seq<u8>,
            QuotedStringError,
        >(
            if wrong == 0x22 {
                QuotedStringError::UnescapedQuote { index: (1 + spelled(pieces).len()) as usize }
            } else {
                QuotedStringError::ControlCharacter { index: (1 + spelled(pieces).len()) as usize }
            },
        ),
{
    let tail = seq![wrong] + rest;
    lemma_pieces_up_to(seq![0x22u8], pieces, tail);
    let s = seq![0x22u8] + spelled(pieces) + tail;
    assert(s.last() == rest.last());
}

} // verus!
