//! URIs.

use crate::octets::{octets, position};
use crate::octets::{equal_ignoring_case, find, lemma_position, same_but_for_case};
use vstd::prelude::*;
use vstd::slice::slice_subrange;

verus! {

/// What about a text keeps it from being the `URI` of RFC 3986, or `None` where it is one.
pub uninterp spec fn uri_fault(text: Seq<char>) -> Option<Seq<char>>;

/// An octet that a URI can hold: visible ASCII that is no angle bracket.
pub open spec fn is_uri_char(b: u8) -> bool {
    0x20 < b < 0x7f && b != 0x3c && b != 0x3e
}

/// Whether octets can be those of a URI: a scheme, a colon, and visible ASCII without angle
/// brackets.
pub open spec fn is_uri_shaped(s: Seq<u8>) -> bool {
    0 < position(s, 0x3a, 0) < s.len() && forall|i: int|
        0 <= i < s.len() ==> is_uri_char(#[trigger] s[i])
}

/// Whether an octet is an ASCII letter.
pub open spec fn is_letter(b: u8) -> bool {
    0x41 <= b <= 0x5a || 0x61 <= b <= 0x7a
}

/// Whether an octet is a letter, a digit, or a hyphen.
pub open spec fn is_word_char(b: u8) -> bool {
    is_letter(b) || 0x30 <= b <= 0x39 || b == 0x2d
}

/// Whether octets are a scheme of letters, a colon, and letters, digits, hyphens, and colons.
pub open spec fn is_plain_urn(s: Seq<u8>) -> bool {
    let colon = position(s, 0x3a, 0);
    &&& 0 < colon < s.len()
    &&& forall|i: int| 0 <= i < colon ==> is_letter(#[trigger] s[i])
    &&& forall|i: int| colon < i < s.len() ==> is_word_char(#[trigger] s[i]) || s[i] == 0x3a
}

/// What about a text keeps it from being a URI, where something does.
///
/// Calls `fluent_uri::Uri::parse` and gives the text of its error. A URI is a scheme, a colon, and
/// visible ASCII without angle brackets. A scheme of letters with a colon and unreserved
/// characters behind it is a URI. Which other texts are is left to the named result.
#[verifier::external_body]
pub(crate) fn check_uri(text: &str) -> (r: Option<String>)
    ensures
        match r {
            None => uri_fault(text@) is None && is_uri_shaped(octets(text@)),
            Some(fault) => uri_fault(text@) == Some(fault@) && !is_plain_urn(octets(text@)),
        },
{
    fluent_uri::Uri::parse(text).err().map(|error| error.to_string())
}

/// A text given as a URI that is none, with what is wrong about it.
#[derive(Clone, Debug, PartialEq, Eq)]
pub struct Error(pub String);

/// A URI as RFC 3986 defines it.
#[derive(Debug, Hash, PartialEq, Eq)]
pub struct Uri {
    text: String,
}

impl View for Uri {
    type V = Seq<char>;

    closed spec fn view(&self) -> Seq<char> {
        self.text@
    }
}

impl Clone for Uri {
    fn clone(&self) -> (r: Self)
        ensures
            r@ == self@,
    {
        proof {
            use_type_invariant(self);
        }
        Uri { text: self.text.clone() }
    }
}

/// Whether a text is a URI.
pub open spec fn is_uri(text: Seq<char>) -> bool {
    uri_fault(text) is None && is_uri_shaped(octets(text))
}

/// The octets before the first colon.
pub open spec fn scheme_of(s: Seq<u8>) -> Seq<u8> {
    s.take(position(s, 0x3a, 0))
}

impl Uri {
    #[verifier::type_invariant]
    spec fn well_formed(self) -> bool {
        is_uri(self.text@)
    }

    /// Read a text as a URI.
    pub fn parse(text: &str) -> (r: Result<Uri, Error>)
        ensures
            match r {
                Ok(uri) => is_uri(text@) && uri@ == text@,
                Err(error) => uri_fault(text@) == Some(error.0@),
            },
            is_plain_urn(octets(text@)) ==> r is Ok,
    {
        match check_uri(text) {
            None => Ok(Uri { text: text.to_owned() }),
            Some(fault) => Err(Error(fault)),
        }
    }

    /// The URI as text.
    pub fn as_str(&self) -> (r: &str)
        ensures
            r@ == self@,
            is_uri(r@),
    {
        proof {
            use_type_invariant(self);
        }
        self.text.as_str()
    }

    /// Whether the scheme of the URI is the given one, whatever its case.
    pub fn has_scheme(&self, scheme: &str) -> (r: bool)
        ensures
            r == same_but_for_case(scheme_of(octets(self@)), octets(scheme@)),
    {
        let all = self.text.as_str().as_bytes();
        proof {
            lemma_position(all@, 0x3a, 0);
        }
        let colon = find(all, 0x3a, 0);
        let own = slice_subrange(all, 0, colon);
        assert(own@ =~= all@.take(colon as int));
        equal_ignoring_case(own, scheme.as_bytes())
    }
}

/// The scheme of a URI is what stands before its first colon.
pub proof fn lemma_scheme_is_told(scheme: Seq<u8>, rest: Seq<u8>)
    requires
        forall|i: int| 0 <= i < scheme.len() ==> #[trigger] scheme[i] != 0x3a,
    ensures
        scheme_of(scheme + seq![0x3au8] + rest) == scheme,
{
    let s = scheme + seq![0x3au8] + rest;
    let n = scheme.len() as int;
    assert forall|i: int| 0 <= i < n implies #[trigger] s[i] != 0x3a by {
        assert(s[i] == scheme[i]);
    }
    assert(s[n] == 0x3a);
    crate::octets::lemma_position_is(s, 0x3a, 0, n);
    assert(s.take(n) =~= scheme);
}

} // verus!
