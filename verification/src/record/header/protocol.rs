//! Original network protocols recorded by the `WARC-Protocol` extension.
//!
//! Implements the repeated-field form of [IIPC proposal 42], also used by Browsertrix.
//! These identifiers describe the network message, independently of the block's `Content-Type`.
//! Unknown identifiers are preserved for forward compatibility. New identifiers should be
//! proposed to IIPC before use. Comma-separated lists are not part of this representation.
//!
//! [IIPC proposal 42]: https://github.com/iipc/warc-specifications/issues/42

use crate::octets::{find, lemma_position, lemma_position_is, octets, position};
use crate::parsing::{is_token, is_token_char, token};
use std::str::FromStr;
use vstd::prelude::*;
use vstd::slice::slice_subrange;

verus! {

/// A protocol identifier, optionally followed by a slash and version.
///
/// Each component is a nonempty ASCII token. Spelling and case are preserved; known identifiers
/// use the lowercase spellings in the IIPC proposal, such as `h2` and `tls/1.3`.
#[derive(Clone, Debug, Eq, Hash, PartialEq)]
pub struct Protocol {
    identifier: String,
}

impl View for Protocol {
    type V = Seq<char>;

    closed spec fn view(&self) -> Seq<char> {
        self.identifier@
    }
}

/// A value is not a single protocol identifier.
#[derive(Clone, Debug, Eq, PartialEq)]
pub struct Error(pub String);

/// Whether octets are a protocol identifier: a token, or two with a slash between them.
pub open spec fn is_protocol(s: Seq<u8>) -> bool {
    let slash = position(s, 0x2f, 0);
    is_token(s.take(slash)) && (slash == s.len() || is_token(s.skip(slash + 1)))
}

impl Protocol {
    /// HTTP/1.0.
    pub fn http_1_0() -> (r: Self)
        ensures
            r@ == "http/1.0"@,
    {
        Protocol { identifier: "http/1.0".to_owned() }
    }

    /// HTTP/1.1.
    pub fn http_1_1() -> (r: Self)
        ensures
            r@ == "http/1.1"@,
    {
        Protocol { identifier: "http/1.1".to_owned() }
    }

    /// HTTP/2 over TLS.
    pub fn h2() -> (r: Self)
        ensures
            r@ == "h2"@,
    {
        Protocol { identifier: "h2".to_owned() }
    }

    /// HTTP/2 over cleartext TCP.
    pub fn h2c() -> (r: Self)
        ensures
            r@ == "h2c"@,
    {
        Protocol { identifier: "h2c".to_owned() }
    }

    /// The identifier as recorded.
    pub fn as_str(&self) -> (r: &str)
        ensures
            r@ == self@,
    {
        self.identifier.as_str()
    }

    /// Read a protocol identifier.
    pub fn parse(value: &str) -> (r: Result<Self, Error>)
        ensures
            match r {
                Ok(protocol) => is_protocol(octets(value@)) && protocol@ == value@,
                Err(error) => !is_protocol(octets(value@)) && error.0@ == value@,
            },
    {
        let s = value.as_bytes();
        proof {
            lemma_position(s@, 0x2f, 0);
        }
        let slash = find(s, 0x2f, 0);
        let first = slice_subrange(s, 0, slash);
        assert(first@ =~= s@.take(slash as int));
        let valid = token(first) && (slash == s.len() || {
            let second = slice_subrange(s, slash + 1, s.len());
            assert(second@ =~= s@.skip(slash + 1));
            token(second)
        });
        if valid {
            Ok(Protocol { identifier: value.to_owned() })
        } else {
            Err(Error(value.to_owned()))
        }
    }
}

impl FromStr for Protocol {
    type Err = Error;

    fn from_str(value: &str) -> Result<Self, Error> {
        Protocol::parse(value)
    }
}

/// A protocol identifier is a token, or two with a slash between them, and nothing else.
pub proof fn lemma_identifier_is_told(first: Seq<u8>, second: Seq<u8>, third: Seq<u8>)
    requires
        is_token(first),
        is_token(second),
    ensures
        is_protocol(first),
        is_protocol(first + seq![0x2fu8] + second),
        !is_protocol(first + seq![0x2fu8]),
        !is_protocol(seq![0x2fu8] + second),
        !is_protocol(first + seq![0x2fu8] + second + seq![0x2fu8] + third),
        !is_token(third) ==> !is_protocol(first + seq![0x2fu8] + third),
{
    let slash = seq![0x2fu8];
    let n = first.len() as int;
    assert forall|i: int| 0 <= i < n implies #[trigger] first[i] != 0x2f by {
        assert(is_token_char(first[i]));
    }
    lemma_position_is(first, 0x2f, 0, n);
    assert(first.take(n) =~= first);
    let both = first + slash + second;
    let more = first + slash + second + slash + third;
    let wrong = first + slash + third;
    assert forall|i: int| 0 <= i < n implies #[trigger] both[i] != 0x2f by {
        assert(both[i] == first[i]);
    }
    assert forall|i: int| 0 <= i < n implies #[trigger] more[i] != 0x2f by {
        assert(more[i] == first[i]);
    }
    assert forall|i: int| 0 <= i < n implies #[trigger] wrong[i] != 0x2f by {
        assert(wrong[i] == first[i]);
    }
    assert forall|i: int| 0 <= i < n implies #[trigger] (first + slash)[i] != 0x2f by {
        assert((first + slash)[i] == first[i]);
    }
    lemma_position_is(both, 0x2f, 0, n);
    lemma_position_is(more, 0x2f, 0, n);
    lemma_position_is(wrong, 0x2f, 0, n);
    lemma_position_is(first + slash, 0x2f, 0, n);
    lemma_position_is(slash + second, 0x2f, 0, 0);
    assert(both.take(n) =~= first && both.skip(n + 1) =~= second);
    assert(wrong.take(n) =~= first && wrong.skip(n + 1) =~= third);
    let rest = more.skip(n + 1);
    assert(rest[second.len() as int] == 0x2f);
    assert(!is_token_char(rest[second.len() as int]));
}

} // verus!
