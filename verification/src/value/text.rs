//! The `TEXT` value carried by `WARC-Filename`.

use crate::octets::{copied, lossy, lossy_text, octets, utf8_str};
use crate::parsing::{
    decimal_string, decimal_text, append_quoted, is_text, is_text_char, lemma_quoted_reads_back,
    lemma_unescaped_is_text, quoted, text_char, unquote, unquoted, QuotedStringError,
};
use crate::record::payload::octets_in;
use std::borrow::Cow;
use vstd::prelude::*;
use vstd::utf8::valid_utf8;

verus! {

/// A `WARC-Filename` value, which the grammar writes either bare or in quotes.
///
/// ```text
/// WARC-Filename = "WARC-Filename" ":" ( TEXT | quoted-string )
/// TEXT          = <any OCTET except CTLs, but including LWS>
/// ```
///
/// `TEXT` admits any octet, and a file name is not necessarily valid UTF-8, so the content is held
/// as bytes rather than as text.
#[derive(Debug, Eq, PartialEq)]
pub struct Text {
    content: Vec<u8>,
    quoted: bool,
}

impl Clone for Text {
    fn clone(&self) -> (r: Self)
        ensures
            r@ == self@,
    {
        proof {
            use_type_invariant(self);
        }
        Text { content: copied(self.content.as_slice()), quoted: self.quoted }
    }
}

/// What a [`Text`] says.
pub struct Content {
    /// The octets, with any quoting removed.
    pub content: Seq<u8>,
    /// Whether the value is written as a quoted string.
    pub quoted: bool,
}

impl View for Text {
    type V = Content;

    closed spec fn view(&self) -> Content {
        Content { content: self.content@, quoted: self.quoted }
    }
}

/// The rule a `TEXT` or `quoted-string` value did not match.
///
/// Offsets are byte positions in the value as it was read, counting any opening quote.
#[derive(Clone, Debug, Eq, PartialEq)]
pub enum Error {
    /// The value holds a control character, which `TEXT` excludes unless it is linear white
    /// space.
    ControlCharacter {
        /// The value as it was read, with any octet that is not UTF-8 replaced.
        value: String,
        /// Where the control character is written.
        index: usize,
    },
    /// The value opens with a quote and is not a well-formed `quoted-string`.
    QuotedString {
        /// The value as it was read, with any octet that is not UTF-8 replaced.
        value: String,
        /// The rule the quoted string broke.
        source: QuotedStringError,
    },
}

/// What an [`Error`] says.
pub enum Fault {
    ControlCharacter(Seq<char>, int),
    QuotedString(Seq<char>, QuotedStringError),
}

impl View for Error {
    type V = Fault;

    open spec fn view(&self) -> Fault {
        match *self {
            Error::ControlCharacter { value, index } => Fault::ControlCharacter(
                value@,
                index as int,
            ),
            Error::QuotedString { value, source } => Fault::QuotedString(value@, source),
        }
    }
}

/// The first position from `from` on that holds no text character, or the length where none does.
pub open spec fn control_position(s: Seq<u8>, from: int) -> int
    decreases s.len() - from,
{
    if from < 0 || from >= s.len() {
        s.len() as int
    } else if !is_text_char(s[from]) {
        from
    } else {
        control_position(s, from + 1)
    }
}

/// The value that octets spell.
pub open spec fn text_value(s: Seq<u8>) -> Result<Content, Fault> {
    if s.len() > 0 && s[0] == 0x22 {
        match unquoted(s) {
            Ok(content) => Ok(Content { content, quoted: true }),
            Err(e) => Err(Fault::QuotedString(lossy_text(s), e)),
        }
    } else if control_position(s, 0) < s.len() {
        Err(Fault::ControlCharacter(lossy_text(s), control_position(s, 0)))
    } else {
        Ok(Content { content: s, quoted: false })
    }
}

/// The octets that spell a value.
pub open spec fn text_octets(text: Content) -> Seq<u8> {
    if text.quoted {
        quoted(text.content)
    } else {
        text.content
    }
}

/// Whether a value can be spelled: it is text, and does not open with a quote unless it is quoted.
pub open spec fn is_spellable(text: Content) -> bool {
    is_text(text.content) && (!text.quoted && text.content.len() > 0 ==> text.content[0] != 0x22)
}

proof fn lemma_control_position(s: Seq<u8>, from: int)
    requires
        0 <= from <= s.len(),
    ensures
        control_position(s, from) == s.len() <==> is_text(s.skip(from)),
        from <= control_position(s, from) <= s.len(),
    decreases s.len() - from,
{
    if from < s.len() {
        if is_text_char(s[from]) {
            lemma_control_position(s, from + 1);
            let rest = s.skip(from);
            let shorter = s.skip(from + 1);
            assert forall|i: int| 0 <= i < rest.len() implies (is_text(shorter) ==> is_text_char(
                #[trigger] rest[i],
            )) by {
                if i > 0 {
                    assert(rest[i] == shorter[i - 1]);
                }
            }
            assert forall|i: int| 0 <= i < shorter.len() implies (is_text(rest) ==> is_text_char(
                #[trigger] shorter[i],
            )) by {
                assert(rest[i + 1] == shorter[i]);
            }
        } else {
            assert(!is_text_char(s.skip(from)[0]));
        }
    }
}

/// A value is read back from the octets that spell it.
pub proof fn lemma_text_reads_back(text: Content)
    requires
        is_spellable(text),
    ensures
        text_value(text_octets(text)) == Ok::<Content, Fault>(text),
{
    if text.quoted {
        lemma_quoted_reads_back(text.content);
    } else {
        lemma_control_position(text.content, 0);
        assert(text.content.skip(0) =~= text.content);
    }
}

/// A value that is read can be spelled.
pub proof fn lemma_read_text_is_spellable(s: Seq<u8>)
    ensures
        text_value(s) matches Ok(text) ==> is_spellable(text),
{
    if s.len() > 0 && s[0] == 0x22 {
        lemma_unescaped_is_text(s, 1);
    } else {
        lemma_control_position(s, 0);
        assert(s.skip(0) =~= s);
    }
}

impl Text {
    #[verifier::type_invariant]
    spec fn is_valid(&self) -> bool {
        is_spellable(self@)
    }

    /// Read a `TEXT` or `quoted-string` value.
    ///
    /// # Errors
    ///
    /// Returns [`Error::ControlCharacter`] when the value holds a control character other than
    /// linear white space, and [`Error::QuotedString`] when a value opening with a quote is not a
    /// well-formed `quoted-string`.
    pub fn parse(value: &[u8]) -> (r: Result<Self, Error>)
        ensures
            match r {
                Ok(text) => text_value(value@) == Ok::<Content, Fault>(text@) && is_spellable(
                    text@,
                ),
                Err(e) => text_value(value@) == Err::<Content, Fault>(e@),
            },
    {
        proof {
            lemma_read_text_is_spellable(value@);
        }
        if value.len() > 0 && value[0] == 0x22 {
            return match unquote(value) {
                Ok(content) => Ok(Text { content, quoted: true }),
                Err(source) => Err(Error::QuotedString { value: lossy(value), source }),
            };
        }
        let mut i: usize = 0;
        while i < value.len()
            invariant
                i <= value.len(),
                control_position(value@, 0) == control_position(value@, i as int),
                !(value.len() > 0 && value@[0] == 0x22),
            decreases value.len() - i,
        {
            if !text_char(value[i]) {
                return Err(Error::ControlCharacter { value: lossy(value), index: i });
            }
            i = i + 1;
        }
        Ok(Text { content: copied(value), quoted: false })
    }

    /// The content, with any quoting removed.
    pub fn as_bytes(&self) -> (r: &[u8])
        ensures
            r@ == self@.content,
            is_spellable(self@),
    {
        proof {
            use_type_invariant(self);
        }
        self.content.as_slice()
    }

    /// The content as text, when it happens to be valid UTF-8.
    pub fn to_str(&self) -> (r: Option<&str>)
        ensures
            match r {
                Some(text) => octets(text@) == self@.content,
                None => !valid_utf8(self@.content),
            },
    {
        utf8_str(self.content.as_slice())
    }

    /// The content as text, replacing any octet that is not valid UTF-8.
    ///
    /// Where [`Self::to_string`] spells the whole value, quoting included, this is the content
    /// alone.
    pub fn to_str_lossy(&self) -> (r: String)
        ensures
            r@ == lossy_text(self@.content),
    {
        lossy(self.content.as_slice())
    }

    /// Whether the value was written as a quoted string.
    pub fn is_quoted(&self) -> (r: bool)
        ensures
            r == self@.quoted,
    {
        self.quoted
    }

    /// The octets that spell this value, quoted and escaped when it was read that way.
    ///
    /// This is what a field carrying the value is written with. [`Self::to_string`] spells the
    /// same value, but replaces any octet that is not valid UTF-8.
    pub fn to_bytes(&self) -> (r: Cow<'_, [u8]>)
        ensures
            octets_in(r) == text_octets(self@),
            text_value(octets_in(r)) == Ok::<Content, Fault>(self@),
    {
        proof {
            use_type_invariant(self);
            lemma_text_reads_back(self@);
        }
        if !self.quoted {
            return Cow::Borrowed(self.content.as_slice());
        }
        let mut spelled: Vec<u8> = Vec::new();
        append_quoted(&mut spelled, self.content.as_slice());
        assert(spelled@ =~= quoted(self.content@));
        Cow::Owned(spelled)
    }

    /// The value as text, replacing any octet that is not valid UTF-8.
    ///
    /// A file name is not necessarily valid UTF-8, so [`Self::to_bytes`] is what writes one back.
    pub fn to_string(&self) -> (r: String)
        ensures
            r@ == lossy_text(text_octets(self@)),
    {
        match self.to_bytes() {
            Cow::Borrowed(spelled) => lossy(spelled),
            Cow::Owned(spelled) => lossy(spelled.as_slice()),
        }
    }
}

/// What an [`Error`] says in words.
pub open spec fn message(fault: Fault) -> Seq<char> {
    match fault {
            Fault::ControlCharacter(value, index) => {
                "not text: a control character is written at byte "@ + decimal_text(
                    index as nat,
                ) + " of `"@ + value + "`"@
            },
            Fault::QuotedString(value, source) => {
                "not text: `"@ + value + "` is not a quoted string, since "@ + source.message()
            },
    }
}

impl Error {
    /// What the error says in words.
    pub fn to_string(&self) -> (r: String)
        ensures
            r@ == message(self@),
    {
        let mut out = String::new();
        match self {
            Error::ControlCharacter { value, index } => {
                out.append("not text: a control character is written at byte ");
                out.append(decimal_string(*index as u64).as_str());
                out.append(" of `");
                out.append(value.as_str());
                out.append("`");
            },
            Error::QuotedString { value, source } => {
                out.append("not text: `");
                out.append(value.as_str());
                out.append("` is not a quoted string, since ");
                out.append(source.to_string().as_str());
            },
        }
        assert(out@ =~= message(self@));
        out
    }
}

/// Octets without a quote at their start are text as they stand, unless a control character other
/// than tab is among them: the first of those is what is wrong about them.
pub proof fn lemma_text_is_told(s: Seq<u8>, at: int)
    requires
        s.len() > 0 ==> s[0] != 0x22,
        0 <= at <= s.len(),
        forall|i: int| 0 <= i < at ==> #[trigger] s[i] == 0x09 || (0x20 <= s[i] && s[i] != 0x7f),
        at < s.len() ==> s[at] != 0x09 && (s[at] < 0x20 || s[at] == 0x7f),
    ensures
        text_value(s) == if at == s.len() {
            Ok::<Content, Fault>(Content { content: s, quoted: false })
        } else {
            Err(Fault::ControlCharacter(lossy_text(s), at))
        },
{
    lemma_first_control(s, 0, at);
}

proof fn lemma_first_control(s: Seq<u8>, from: int, at: int)
    requires
        0 <= from <= at <= s.len(),
        forall|i: int| 0 <= i < at ==> #[trigger] s[i] == 0x09 || (0x20 <= s[i] && s[i] != 0x7f),
        at < s.len() ==> s[at] != 0x09 && (s[at] < 0x20 || s[at] == 0x7f),
    ensures
        control_position(s, from) == at,
    decreases at - from,
{
    if from < at {
        assert(is_text_char(s[from]));
        lemma_first_control(s, from + 1, at);
    }
}

} // verus!
