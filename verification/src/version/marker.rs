//! The type-level WARC version.
//!
//! Most code uses [`WarcVersion`](super::WarcVersion) as a value. A marker lets a type signature
//! select a version at compile time, so that a value only one version defines can be asked for
//! only where that version is the one declared.

use vstd::prelude::*;

verus! {

/// Prevents implementations of [`WarcVersion`] elsewhere.
pub trait Sealed {

}

/// A WARC version selected at compile time.
///
/// Only [`V1_0`] and [`V1_1`] implement it.
pub trait WarcVersion: Sealed {
    /// The version this type names.
    spec fn named() -> super::WarcVersion;

    /// The version this type names.
    fn value() -> (r: super::WarcVersion)
        ensures
            r == Self::named(),
    ;
}

/// Marker type for WARC 1.0, defined by ISO 28500:2009.
#[derive(Clone, Copy, Debug, Eq, Hash, PartialEq)]
pub struct V1_0;

/// Marker type for WARC 1.1, defined by ISO 28500:2017.
#[derive(Clone, Copy, Debug, Eq, Hash, PartialEq)]
pub struct V1_1;

impl Sealed for V1_0 {

}

impl Sealed for V1_1 {

}

impl WarcVersion for V1_0 {
    open spec fn named() -> super::WarcVersion {
        super::WarcVersion::V1_0
    }

    fn value() -> (r: super::WarcVersion) {
        super::WarcVersion::V1_0
    }
}

impl WarcVersion for V1_1 {
    open spec fn named() -> super::WarcVersion {
        super::WarcVersion::V1_1
    }

    fn value() -> (r: super::WarcVersion) {
        super::WarcVersion::V1_1
    }
}

} // verus!
