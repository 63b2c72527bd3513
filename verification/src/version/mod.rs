//! The versions of the WARC standard that this crate can read and write.
//!
//! [`WarcVersion`] is the usual runtime representation. [`marker`] provides type-level versions.

pub mod marker;

use crate::text::same_text;
use vstd::prelude::*;
use vstd::string::*;

verus! {

/// A version number that names no supported WARC version.
///
/// Only the number is captured here, without the `WARC/` a version line spells it after.
#[derive(Clone, Debug, Eq, PartialEq)]
pub struct Error(pub String);

/// A version of the WARC standard supported by this crate.
#[derive(Clone, Copy, Debug, Hash, PartialEq, Eq, Structural)]
pub enum WarcVersion {
    /// WARC 1.0, defined by ISO 28500:2009.
    V1_0,
    /// WARC 1.1, defined by ISO 28500:2017.
    V1_1,
}

impl Default for WarcVersion {
    fn default() -> (r: Self)
        ensures
            r == WarcVersion::V1_1,
    {
        WarcVersion::V1_1
    }
}

/// The number of a version.
pub open spec fn number(version: WarcVersion) -> Seq<char> {
    match version {
        WarcVersion::V1_0 => "1.0"@,
        WarcVersion::V1_1 => "1.1"@,
    }
}

/// A version's number names that version and no other.
pub proof fn lemma_numbers_differ(a: WarcVersion, b: WarcVersion)
    requires
        number(a) == number(b),
    ensures
        a == b,
{
    reveal_strlit("1.0");
    reveal_strlit("1.1");
    assert("1.0"@[2] == '0');
    assert("1.1"@[2] == '1');
}

impl WarcVersion {
    /// The version number as it appears after `WARC/`.
    pub fn as_str(self) -> (r: &'static str)
        ensures
            r@ == number(self),
    {
        match self {
            WarcVersion::V1_0 => "1.0",
            WarcVersion::V1_1 => "1.1",
        }
    }

    /// The version number as it appears after `WARC/`.
    pub fn to_string(self) -> (r: String)
        ensures
            r@ == number(self),
    {
        self.as_str().to_owned()
    }

    /// The version that a number names.
    ///
    /// # Errors
    ///
    /// Returns the number where it names no supported version.
    pub fn parse(version: &str) -> (r: Result<Self, Error>)
        ensures
            match r {
                Ok(found) => number(found) == version@,
                Err(e) => e.0@ == version@ && forall|v: WarcVersion| #[trigger] number(v)
                    != version@,
            },
    {
        if same_text(version, "1.0") {
            Ok(WarcVersion::V1_0)
        } else if same_text(version, "1.1") {
            Ok(WarcVersion::V1_1)
        } else {
            Err(Error(version.to_owned()))
        }
    }
}

impl std::str::FromStr for WarcVersion {
    type Err = Error;

    fn from_str(version: &str) -> (r: Result<Self, Error>) {
        WarcVersion::parse(version)
    }
}

} // verus!
