//! The reason a record reports for holding less of a resource than was captured.

use crate::octets::{
    lemma_ascii_octets_of, lemma_spells_word, lowercase, lowered, octets, same_but_for_case,
    spells_word, to_lowercase,
};
use crate::record::extension::{ExtensionTruncatedReason, Never};
use crate::text::same_ignoring_case;
use vstd::prelude::*;
use vstd::string::*;
use vstd::utf8::is_ascii_chars_encode_utf8;

verus! {

/// Why a record contains less data than the captured resource.
///
/// The type parameter supplies reasons defined by an extension and defaults to [`Never`]. Tokens
/// recognized by neither the standard nor the extension are preserved in [`Self::Unknown`].
#[derive(Clone, Debug, PartialEq, Eq)]
pub enum TruncatedType<R = Never> {
    /// `length`: the capture exceeded a configured maximum length.
    Length,
    /// `time`: the capture exceeded a configured maximum time.
    Time,
    /// `disconnect`: the network connection carrying the capture was lost.
    Disconnect,
    /// `unspecified`: some other or unknown reason.
    Unspecified,
    /// A reason the extension in force defines.
    Extension(R),
    /// An unrecognized reason, normalized to lowercase.
    Unknown(String),
}

/// Whether a token is the one given, whatever its case.
pub open spec fn is_token(token: Seq<char>, wanted: Seq<char>) -> bool {
    same_but_for_case(octets(token), octets(wanted))
}

impl<R: ExtensionTruncatedReason> TruncatedType<R> {
    /// The token that the reason is written as.
    pub open spec fn token(&self) -> Seq<char> {
        match *self {
            TruncatedType::Length => "length"@,
            TruncatedType::Time => "time"@,
            TruncatedType::Disconnect => "disconnect"@,
            TruncatedType::Unspecified => "unspecified"@,
            TruncatedType::Extension(reason) => reason.token(),
            TruncatedType::Unknown(token) => token@,
        }
    }

    /// Whether this is the reason that a token names: the standard's first, then the
    /// extension's, and any other as the token in lower case.
    pub open spec fn is_named(&self, token: Seq<char>) -> bool {
        if is_token(token, "length"@) {
            *self == TruncatedType::<R>::Length
        } else if is_token(token, "time"@) {
            *self == TruncatedType::<R>::Time
        } else if is_token(token, "disconnect"@) {
            *self == TruncatedType::<R>::Disconnect
        } else if is_token(token, "unspecified"@) {
            *self == TruncatedType::<R>::Unspecified
        } else {
            match R::of_token(token) {
                Some(reason) => *self == TruncatedType::Extension(reason),
                None => *self matches TruncatedType::Unknown(text) && text@ == lowercase(token),
            }
        }
    }

    /// The token used to serialize this value.
    pub fn as_str(&self) -> (r: &str)
        ensures
            r@ == self.token(),
    {
        match self {
            TruncatedType::Length => "length",
            TruncatedType::Time => "time",
            TruncatedType::Disconnect => "disconnect",
            TruncatedType::Unspecified => "unspecified",
            TruncatedType::Extension(reason) => reason.reason_token(),
            TruncatedType::Unknown(token) => token.as_str(),
        }
    }

    /// The token used to serialize this value.
    pub fn to_string(&self) -> (r: String)
        ensures
            r@ == self.token(),
    {
        self.as_str().to_owned()
    }

    /// Parse a reason without regard to case, checking standard reasons before extension reasons.
    pub fn from(token: &str) -> (r: Self)
        ensures
            r.is_named(token@),
    {
        if same_ignoring_case(token, "length") {
            return TruncatedType::Length;
        }
        if same_ignoring_case(token, "time") {
            return TruncatedType::Time;
        }
        if same_ignoring_case(token, "disconnect") {
            return TruncatedType::Disconnect;
        }
        if same_ignoring_case(token, "unspecified") {
            return TruncatedType::Unspecified;
        }
        match R::from_reason_token(token) {
            Some(reason) => TruncatedType::Extension(reason),
            None => TruncatedType::Unknown(to_lowercase(token)),
        }
    }
}

/// A reason that the standard defines is read back from its token.
pub proof fn lemma_standard_reason<R: ExtensionTruncatedReason>(reason: TruncatedType<R>)
    requires
        !(reason is Extension || reason is Unknown),
    ensures
        reason.is_named(reason.token()),
{
    reveal_strlit("length");
    reveal_strlit("time");
    reveal_strlit("disconnect");
    reveal_strlit("unspecified");
    is_ascii_chars_encode_utf8("length"@);
    is_ascii_chars_encode_utf8("time"@);
    is_ascii_chars_encode_utf8("disconnect"@);
    is_ascii_chars_encode_utf8("unspecified"@);
    assert(lowered(octets("length"@)).len() == 6);
    assert(lowered(octets("time"@)).len() == 4);
    assert(lowered(octets("disconnect"@)).len() == 10);
    assert(lowered(octets("unspecified"@)).len() == 11);
}

/// A token names a reason of the standard exactly where it spells the reason's word, with its
/// letters in either case.
pub proof fn lemma_reason_is_told<R: ExtensionTruncatedReason>(
    reason: TruncatedType<R>,
    token: Seq<char>,
)
    requires
        reason.is_named(token),
    ensures
        reason is Length <==> spells_word(octets(token), octets("length"@)),
        reason is Time <==> spells_word(octets(token), octets("time"@)),
        reason is Disconnect <==> spells_word(octets(token), octets("disconnect"@)),
        reason is Unspecified <==> spells_word(octets(token), octets("unspecified"@)),
{
    reveal_strlit("length");
    reveal_strlit("time");
    reveal_strlit("disconnect");
    reveal_strlit("unspecified");
    lemma_ascii_octets_of("length"@);
    lemma_ascii_octets_of("time"@);
    lemma_ascii_octets_of("disconnect"@);
    lemma_ascii_octets_of("unspecified"@);
    lemma_spells_word(octets(token), octets("length"@));
    lemma_spells_word(octets(token), octets("time"@));
    lemma_spells_word(octets(token), octets("disconnect"@));
    lemma_spells_word(octets(token), octets("unspecified"@));
}

} // verus!
