//! The values of WARC header fields.

pub mod alike;
pub mod base;
pub mod date;
pub mod digest;
pub mod hash;
pub mod ip;
pub mod media_type;
pub mod text;
pub mod uri;

pub use crate::parsing::QuotedStringError;
pub use crate::value::date::{UtcDateTime, WarcDate, WarcDatePrecision};
pub use crate::value::digest::{DigestAlgorithm, DigestEncoding, DigestFormat, LabelledDigest};
pub use crate::value::ip::IpAddress;
pub use crate::value::media_type::{MediaType, ParameterValue};
pub use crate::value::text::Text;
pub use crate::value::uri::Uri;

use vstd::prelude::*;

verus! {

/// The rule a value did not match.
///
/// Variants name grammar rules because several fields can use the same rule.
#[derive(Clone, Debug, Eq, PartialEq)]
pub enum Error {
    /// A value is not the `1*DIGIT` its field's grammar calls for, or names a number beyond the
    /// unsigned 64-bit range.
    Digits(String),
    /// A value is not a `token`: it is empty, or holds a control character or a separator.
    Token(String),
    /// A value is not the `URI` of RFC 3986, or its angle brackets are unbalanced.
    Uri(String),
    /// A value is not a `labelled-digest` (an algorithm and a value separated by a colon).
    Digest(digest::Error),
    /// A value is not a `media-type`.
    MediaType(media_type::Error),
    /// A value is not an IPv4 or IPv6 address.
    IpAddress(String),
    /// A value is not a `w3c-iso8601` timestamp.
    Date(String),
    /// A value is neither `TEXT` nor a `quoted-string`.
    Text(text::Error),
}

/// What an [`Error`] says.
pub ghost enum Fault {
    /// Not a number.
    Digits(Seq<char>),
    /// Not a token.
    Token(Seq<char>),
    /// Not a URI.
    Uri(Seq<char>),
    /// Not a labelled digest.
    Digest(digest::Fault),
    /// Not a media type.
    MediaType(media_type::Fault),
    /// Not an address.
    IpAddress(Seq<char>),
    /// Not a timestamp.
    Date(Seq<char>),
    /// Not text.
    Text(text::Fault),
}

impl View for Error {
    type V = Fault;

    open spec fn view(&self) -> Fault {
        match self {
            Error::Digits(value) => Fault::Digits(value@),
            Error::Token(value) => Fault::Token(value@),
            Error::Uri(value) => Fault::Uri(value@),
            Error::Digest(error) => Fault::Digest(error@),
            Error::MediaType(error) => Fault::MediaType(error@),
            Error::IpAddress(value) => Fault::IpAddress(value@),
            Error::Date(value) => Fault::Date(value@),
            Error::Text(error) => Fault::Text(error@),
        }
    }
}

/// What an [`Error`] says in words.
pub open spec fn message(fault: Fault) -> Seq<char> {
    match fault {
        Fault::Digits(value) => "not a number: "@ + value,
        Fault::Token(value) => "not a token: "@ + value,
        Fault::Uri(value) => "not a URI: "@ + value,
        Fault::Digest(fault) => digest::message(fault),
        Fault::MediaType(fault) => media_type::message(fault),
        Fault::IpAddress(value) => "not an IP address: "@ + value,
        Fault::Date(value) => "not a timestamp: "@ + value,
        Fault::Text(fault) => text::message(fault),
    }
}

impl Error {
    /// What the error says in words.
    pub fn to_string(&self) -> (r: String)
        ensures
            r@ == message(self@),
    {
        match self {
            Error::Digits(value) => said("not a number: ", value.as_str()),
            Error::Token(value) => said("not a token: ", value.as_str()),
            Error::Uri(value) => said("not a URI: ", value.as_str()),
            Error::Digest(error) => error.to_string(),
            Error::MediaType(error) => error.to_string(),
            Error::IpAddress(value) => said("not an IP address: ", value.as_str()),
            Error::Date(value) => said("not a timestamp: ", value.as_str()),
            Error::Text(error) => error.to_string(),
        }
    }
}

fn said(rule: &str, value: &str) -> (r: String)
    ensures
        r@ == rule@ + value@,
{
    let mut out = rule.to_owned();
    out.append(value);
    out
}

} // verus!
