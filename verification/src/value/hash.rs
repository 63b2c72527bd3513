//! Computing digests.

use crate::value::digest::{length_of, Algorithm};
use crate::value::DigestAlgorithm;
use sha2::Digest;
use vstd::prelude::*;

verus! {

/// The MD5 digest of octets.
pub uninterp spec fn md5_of(content: Seq<u8>) -> Seq<u8>;

/// The SHA-1 digest of octets.
pub uninterp spec fn sha1_of(content: Seq<u8>) -> Seq<u8>;

/// The SHA-256 digest of octets.
pub uninterp spec fn sha256_of(content: Seq<u8>) -> Seq<u8>;

/// The MD5 digest of octets.
///
/// Calls `md5::Md5::digest`, which returns 16 octets that depend on the content alone.
#[verifier::external_body]
pub(crate) fn md5(content: &[u8]) -> (r: Vec<u8>)
    ensures
        r@ == md5_of(content@),
        r.len() == 16,
{
    md5::Md5::digest(content).to_vec()
}

/// The SHA-1 digest of octets.
///
/// Calls `sha1::Sha1::digest`, which returns 20 octets that depend on the content alone.
#[verifier::external_body]
pub(crate) fn sha1(content: &[u8]) -> (r: Vec<u8>)
    ensures
        r@ == sha1_of(content@),
        r.len() == 20,
{
    sha1::Sha1::digest(content).to_vec()
}

/// The SHA-256 digest of octets.
///
/// Calls `sha2::Sha256::digest`, which returns 32 octets that depend on the content alone.
#[verifier::external_body]
pub(crate) fn sha256(content: &[u8]) -> (r: Vec<u8>)
    ensures
        r@ == sha256_of(content@),
        r.len() == 32,
{
    sha2::Sha256::digest(content).to_vec()
}

/// The digest of octets by an algorithm, where it is one that is computed here.
pub open spec fn digest_of(algorithm: Algorithm, content: Seq<u8>) -> Option<Seq<u8>> {
    match algorithm {
        Algorithm::Md5 => Some(md5_of(content)),
        Algorithm::Sha1 => Some(sha1_of(content)),
        Algorithm::Sha256 => Some(sha256_of(content)),
        Algorithm::Other(_) => None,
    }
}

impl DigestAlgorithm {
    /// Whether digests by this algorithm are computed here.
    pub fn is_supported(&self) -> (r: bool)
        ensures
            r == !(self@ is Other),
    {
        match self {
            DigestAlgorithm::Other(_) => false,
            _ => true,
        }
    }

    /// The digest of octets, where digests by this algorithm are computed here.
    pub fn digest(&self, content: &[u8]) -> (r: Option<Vec<u8>>)
        ensures
            match r {
                Some(digest) => digest_of(self@, content@) == Some(digest@) && length_of(self@)
                    == Some(digest@.len()),
                None => digest_of(self@, content@) is None,
            },
    {
        match self {
            DigestAlgorithm::Md5 => Some(md5(content)),
            DigestAlgorithm::Sha1 => Some(sha1(content)),
            DigestAlgorithm::Sha256 => Some(sha256(content)),
            DigestAlgorithm::Other(_) => None,
        }
    }
}

/// An algorithm whose digests are computed here.
#[derive(Clone, Copy, Debug, Hash, PartialEq, Eq, Structural)]
pub enum Supported {
    /// MD5.
    Md5,
    /// SHA-1.
    Sha1,
    /// SHA-256.
    Sha256,
}

impl Supported {
    /// The algorithm.
    pub open spec fn named(self) -> Algorithm {
        match self {
            Supported::Md5 => Algorithm::Md5,
            Supported::Sha1 => Algorithm::Sha1,
            Supported::Sha256 => Algorithm::Sha256,
        }
    }

    /// The algorithm.
    pub fn algorithm(self) -> (r: DigestAlgorithm)
        ensures
            r@ == self.named(),
            !(r@ is Other),
    {
        match self {
            Supported::Md5 => DigestAlgorithm::Md5,
            Supported::Sha1 => DigestAlgorithm::Sha1,
            Supported::Sha256 => DigestAlgorithm::Sha256,
        }
    }
}

} // verus!
