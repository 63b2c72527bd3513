//! The `labelled-digest` value carried by `WARC-Block-Digest` and `WARC-Payload-Digest`.

use crate::octets::{
    append, ascii_string, ascii_text, equal, find, is_ascii, lemma_ascii_octets,
    lemma_ascii_octets_of, lemma_ascii_text, lemma_octets_concat, lemma_position,
    lemma_position_is, lossy, lossy_text, lowered, octets, position, same_but_for_case,
    to_lowered,
};
use crate::parsing::{is_token, is_token_char, token, token_char};
use crate::text::{same_ignoring_case, same_text};
use crate::value::base::{
    all_base16, all_base32, all_base64, base16_decoded, base16_text, base16_value, base32_decoded,
    base32_text, base64_decoded, base64_text, decode16, decode32, decode64, encode16, encode32,
    encode64, lemma_base16_round_trip, lemma_base32_round_trip, lemma_base64_round_trip,
    lemma_texts_are_ascii, numbers16, numbers32, numbers64, unpadded, values16, values32, values64,
    without_padding,
};
use vstd::prelude::*;
use vstd::slice::slice_subrange;
use vstd::string::*;

verus! {

/// The rule a `labelled-digest` value did not match.
#[derive(Clone, Debug, Eq, PartialEq)]
pub enum Error {
    /// The value has no `:` separating the algorithm from the digest.
    NoSeparator {
        /// The value as it was read, with any octet that is not UTF-8 replaced.
        value: String,
    },
    /// The algorithm label is not a `token`.
    MalformedAlgorithm {
        /// The label as it was read, with any octet that is not UTF-8 replaced.
        algorithm: String,
    },
    /// The digest is not a `digest-value`.
    MalformedValue {
        /// The digest as it was read, with any octet that is not UTF-8 replaced.
        digest: String,
    },
}

/// What an [`Error`] says.
pub enum Fault {
    NoSeparator(Seq<char>),
    MalformedAlgorithm(Seq<char>),
    MalformedValue(Seq<char>),
}

impl View for Error {
    type V = Fault;

    open spec fn view(&self) -> Fault {
        match *self {
            Error::NoSeparator { value } => Fault::NoSeparator(value@),
            Error::MalformedAlgorithm { algorithm } => Fault::MalformedAlgorithm(algorithm@),
            Error::MalformedValue { digest } => Fault::MalformedValue(digest@),
        }
    }
}

/// A digest algorithm, as named by the `algorithm` half of a labelled digest.
///
/// Annotation #80 of the WARC 1.1 annotated specification lists a recommended label for each
/// algorithm and the compatibility labels that name the same algorithm. Labels are read without
/// regard to case, so `SHA-1`, `sha-1`, and `sha1` all name [`Sha1`](Self::Sha1).
#[derive(Debug, Eq, Hash, PartialEq)]
pub enum DigestAlgorithm {
    /// MD5, labelled `md5`.
    Md5,
    /// SHA-1, labelled `sha1`, or `sha-1` for compatibility.
    Sha1,
    /// SHA-256, labelled `sha256`, or `sha-256` for compatibility.
    Sha256,
    /// An algorithm this crate does not know, under its label lowercased.
    Other(String),
}

/// Which algorithm a [`DigestAlgorithm`] is.
pub enum Algorithm {
    Md5,
    Sha1,
    Sha256,
    Other(Seq<char>),
}

impl View for DigestAlgorithm {
    type V = Algorithm;

    open spec fn view(&self) -> Algorithm {
        match *self {
            DigestAlgorithm::Md5 => Algorithm::Md5,
            DigestAlgorithm::Sha1 => Algorithm::Sha1,
            DigestAlgorithm::Sha256 => Algorithm::Sha256,
            DigestAlgorithm::Other(label) => Algorithm::Other(label@),
        }
    }
}

impl Clone for DigestAlgorithm {
    fn clone(&self) -> (r: Self)
        ensures
            r@ == self@,
    {
        match self {
            DigestAlgorithm::Md5 => DigestAlgorithm::Md5,
            DigestAlgorithm::Sha1 => DigestAlgorithm::Sha1,
            DigestAlgorithm::Sha256 => DigestAlgorithm::Sha256,
            DigestAlgorithm::Other(label) => DigestAlgorithm::Other(label.clone()),
        }
    }
}

/// The recommended label of an algorithm.
pub open spec fn label_of(algorithm: Algorithm) -> Seq<char> {
    match algorithm {
        Algorithm::Md5 => "md5"@,
        Algorithm::Sha1 => "sha1"@,
        Algorithm::Sha256 => "sha256"@,
        Algorithm::Other(label) => label,
    }
}

/// The number of octets that an algorithm produces, where it is known.
pub open spec fn length_of(algorithm: Algorithm) -> Option<nat> {
    match algorithm {
        Algorithm::Md5 => Some(16),
        Algorithm::Sha1 => Some(20),
        Algorithm::Sha256 => Some(32),
        Algorithm::Other(_) => None,
    }
}

/// The algorithm that a label names.
pub open spec fn algorithm_named(label: Seq<u8>) -> Algorithm {
    if same_but_for_case(label, octets("md5"@)) {
        Algorithm::Md5
    } else if same_but_for_case(label, octets("sha1"@)) || same_but_for_case(
        label,
        octets("sha-1"@),
    ) {
        Algorithm::Sha1
    } else if same_but_for_case(label, octets("sha256"@)) || same_but_for_case(
        label,
        octets("sha-256"@),
    ) {
        Algorithm::Sha256
    } else {
        Algorithm::Other(ascii_text(lowered(label)))
    }
}

pub(crate) proof fn lemma_token_is_ascii(s: Seq<u8>)
    requires
        is_token(s),
    ensures
        is_ascii(s),
        is_ascii(lowered(s)),
{
    assert forall|i: int| 0 <= i < s.len() implies #[trigger] s[i] < 0x80 by {
        assert(is_token_char(s[i]));
    }
}

impl DigestAlgorithm {
    /// The recommended label for this algorithm.
    pub fn label(&self) -> (r: &str)
        ensures
            r@ == label_of(self@),
    {
        match self {
            DigestAlgorithm::Md5 => "md5",
            DigestAlgorithm::Sha1 => "sha1",
            DigestAlgorithm::Sha256 => "sha256",
            DigestAlgorithm::Other(label) => label.as_str(),
        }
    }

    /// The number of bytes the algorithm produces, or `None` for one this crate does not know.
    pub fn digest_length(&self) -> (r: Option<usize>)
        ensures
            match r {
                Some(length) => length_of(self@) == Some(length as nat),
                None => length_of(self@) is None,
            },
    {
        match self {
            DigestAlgorithm::Md5 => Some(16),
            DigestAlgorithm::Sha1 => Some(20),
            DigestAlgorithm::Sha256 => Some(32),
            DigestAlgorithm::Other(_) => None,
        }
    }

    /// The encoding annotation #80 asks for when writing this algorithm's digests.
    ///
    /// Base32 pads a digest whose length is not a multiple of five bytes, and the annotation asks
    /// writers to avoid that padding by using Base16 instead.
    pub fn recommended_encoding(&self) -> (r: DigestEncoding)
        ensures
            r == encoding_for(self@),
    {
        match self {
            DigestAlgorithm::Sha1 => DigestEncoding::Base32,
            _ => DigestEncoding::Base16,
        }
    }

    /// The algorithm a label names, with compatibility labels resolved and case discarded.
    fn from_label(label: &str) -> (r: Self)
        requires
            is_token(octets(label@)),
        ensures
            r@ == algorithm_named(octets(label@)),
    {
        if same_ignoring_case(label, "md5") {
            DigestAlgorithm::Md5
        } else if same_ignoring_case(label, "sha1") || same_ignoring_case(label, "sha-1") {
            DigestAlgorithm::Sha1
        } else if same_ignoring_case(label, "sha256") || same_ignoring_case(label, "sha-256") {
            DigestAlgorithm::Sha256
        } else {
            proof {
                lemma_token_is_ascii(octets(label@));
            }
            DigestAlgorithm::Other(ascii_string(to_lowered(label.as_bytes()).as_slice()))
        }
    }

    /// Read an algorithm label, which must be a `token`.
    ///
    /// # Errors
    ///
    /// Returns [`Error::MalformedAlgorithm`] where it is not.
    pub fn parse(label: &str) -> (r: Result<Self, Error>)
        ensures
            match r {
                Ok(algorithm) => is_token(octets(label@)) && algorithm@ == algorithm_named(
                    octets(label@),
                ),
                Err(e) => !is_token(octets(label@)) && e@ == Fault::MalformedAlgorithm(label@),
            },
    {
        if token(label.as_bytes()) {
            Ok(DigestAlgorithm::from_label(label))
        } else {
            Err(Error::MalformedAlgorithm { algorithm: label.to_owned() })
        }
    }

    /// The recommended label for this algorithm.
    pub fn to_string(&self) -> (r: String)
        ensures
            r@ == label_of(self@),
    {
        self.label().to_owned()
    }

    /// Whether two are the same algorithm.
    pub fn is_same(&self, other: &Self) -> (r: bool)
        ensures
            r == (self@ == other@),
    {
        match (self, other) {
            (DigestAlgorithm::Md5, DigestAlgorithm::Md5) => true,
            (DigestAlgorithm::Sha1, DigestAlgorithm::Sha1) => true,
            (DigestAlgorithm::Sha256, DigestAlgorithm::Sha256) => true,
            (DigestAlgorithm::Other(a), DigestAlgorithm::Other(b)) => same_text(
                a.as_str(),
                b.as_str(),
            ),
            _ => false,
        }
    }
}

impl std::str::FromStr for DigestAlgorithm {
    type Err = Error;

    fn from_str(label: &str) -> (r: Result<Self, Error>) {
        DigestAlgorithm::parse(label)
    }
}

/// The base encoding a digest value is written in, as defined by RFC 4648.
///
/// Annotation #80 of the WARC 1.1 annotated specification names Base16 and Base32. Base64 is here
/// because the tools that write these archives write it, which is also what annotation #48
/// relaxes the `digest-value` grammar for.
#[derive(Clone, Copy, Debug, Hash, PartialEq, Eq, Structural)]
pub enum DigestEncoding {
    /// Base16, written here in lowercase.
    Base16,
    /// Base32, written here in uppercase, padded with `=`.
    Base32,
    /// Base64, written here in the standard alphabet, padded with `=`.
    ///
    /// Values are read in the standard alphabet and in the URL-safe one, which spells the last two
    /// digits `-` and `_`.
    Base64,
}

/// The encoding that an algorithm's digests are written in.
pub open spec fn encoding_for(algorithm: Algorithm) -> DigestEncoding {
    if algorithm is Sha1 {
        DigestEncoding::Base32
    } else {
        DigestEncoding::Base16
    }
}

/// A digest in an encoding.
pub open spec fn encoded(encoding: DigestEncoding, digest: Seq<u8>) -> Seq<u8> {
    match encoding {
        DigestEncoding::Base16 => base16_text(digest),
        DigestEncoding::Base32 => base32_text(digest),
        DigestEncoding::Base64 => base64_text(digest),
    }
}

/// The digest that a value is, where it is written in an encoding.
pub open spec fn decoding(encoding: DigestEncoding, value: Seq<u8>) -> Option<Seq<u8>> {
    match encoding {
        DigestEncoding::Base16 => if value.len() % 2 == 0 && all_base16(value) {
            Some(base16_decoded(values16(value)))
        } else {
            None
        },
        DigestEncoding::Base32 => match unpadded(value, 8) {
            Some(digits) if all_base32(digits) && (digits.len() % 8 == 0 || digits.len() % 8 == 2
                || digits.len() % 8 == 4 || digits.len() % 8 == 5 || digits.len() % 8 == 7) => Some(
                base32_decoded(values32(digits)),
            ),
            _ => None,
        },
        DigestEncoding::Base64 => match unpadded(value, 4) {
            Some(digits) if all_base64(digits) && (digits.len() % 4 == 0 || digits.len() % 4 == 2
                || digits.len() % 4 == 3) => Some(base64_decoded(values64(digits))),
            _ => None,
        },
    }
}

/// A digest written in an encoding is read back as it was.
pub proof fn lemma_decoding_undoes_encoding(encoding: DigestEncoding, digest: Seq<u8>)
    ensures
        decoding(encoding, encoded(encoding, digest)) == Some(digest),
{
    lemma_base16_round_trip(digest);
    lemma_base32_round_trip(digest);
    lemma_base64_round_trip(digest);
}

impl DigestEncoding {
    /// Write a digest in this encoding, in the case annotation #80 asks for.
    pub fn encode(self, digest: &[u8], writer: &mut String)
        ensures
            final(writer)@ == old(writer)@ + ascii_text(encoded(self, digest@)),
    {
        let text = self.encode_octets(digest);
        proof {
            lemma_texts_are_ascii(digest@);
        }
        let text = ascii_string(text.as_slice());
        writer.append(text.as_str());
    }

    fn encode_octets(self, digest: &[u8]) -> (r: Vec<u8>)
        ensures
            r@ == encoded(self, digest@),
    {
        match self {
            DigestEncoding::Base16 => encode16(digest),
            DigestEncoding::Base32 => encode32(digest),
            DigestEncoding::Base64 => encode64(digest),
        }
    }

    /// Read a digest written in this encoding.
    ///
    /// Base16 and Base32 are read in either case. Base64 spells different digests with the same
    /// letters in different cases, so its case is significant.
    ///
    /// Returns `None` when the value is not written in this encoding.
    pub fn decode(self, value: &str) -> (r: Option<Vec<u8>>)
        ensures
            match r {
                Some(digest) => decoding(self, octets(value@)) == Some(digest@),
                None => decoding(self, octets(value@)) is None,
            },
    {
        let value = value.as_bytes();
        match self {
            DigestEncoding::Base16 => {
                if value.len() % 2 != 0 {
                    return None;
                }
                match numbers16(value) {
                    Some(numbers) => Some(decode16(numbers.as_slice())),
                    None => None,
                }
            },
            DigestEncoding::Base32 => {
                let digits = match without_padding(value, 8) {
                    Some(digits) => digits,
                    None => {
                        return None;
                    },
                };
                let rest: usize = digits.len() % 8;
                if rest == 1 || rest == 3 || rest == 6 {
                    return None;
                }
                match numbers32(digits) {
                    Some(numbers) => Some(decode32(numbers.as_slice())),
                    None => None,
                }
            },
            DigestEncoding::Base64 => {
                let digits = match without_padding(value, 4) {
                    Some(digits) => digits,
                    None => {
                        return None;
                    },
                };
                if digits.len() % 4 == 1 {
                    return None;
                }
                match numbers64(digits) {
                    Some(numbers) => Some(decode64(numbers.as_slice())),
                    None => None,
                }
            },
        }
    }
}

/// Whether octets are a `digest-value` as annotation #48 relaxes it: token characters, `=`, and
/// `/`.
pub open spec fn is_digest_value(s: Seq<u8>) -> bool {
    s.len() > 0 && forall|i: int|
        0 <= i < s.len() ==> is_token_char(#[trigger] s[i]) || s[i] == 0x3d || s[i] == 0x2f
}

/// A `labelled-digest`: an algorithm name and the digest it produced.
///
/// ```text
/// labelled-digest = algorithm ":" digest-value
/// algorithm       = token
/// digest-value    = token
/// ```
///
/// The published grammar makes `digest-value` a `token`, which excludes `=` and `/`, and therefore
/// rules out Base32 padding and part of the Base64 alphabet. Annotation #48 of the WARC 1.1
/// annotated specification directs readers to accept both characters, and this type follows the
/// annotation.
///
/// Both halves are kept as they were written, since a record must be able to render as it was read.
/// Equality is over that spelling; [`matches`](Self::matches) is the comparison annotation #80 asks
/// for, which is over the algorithm and the digest bytes.
#[derive(Debug, Eq, Hash, PartialEq)]
pub struct LabelledDigest {
    algorithm: DigestAlgorithm,
    /// The label as read, kept only when it is not the algorithm's recommended label.
    label_as_read: Option<String>,
    value: String,
}

/// What a [`LabelledDigest`] says.
pub struct Labelled {
    /// The algorithm.
    pub algorithm: Algorithm,
    /// The label as it was written.
    pub label: Seq<char>,
    /// The digest as it was written.
    pub value: Seq<char>,
}

impl View for LabelledDigest {
    type V = Labelled;

    closed spec fn view(&self) -> Labelled {
        Labelled {
            algorithm: self.algorithm@,
            label: match self.label_as_read {
                Some(label) => label@,
                None => label_of(self.algorithm@),
            },
            value: self.value@,
        }
    }
}

impl Clone for LabelledDigest {
    fn clone(&self) -> (r: Self)
        ensures
            r@ == self@,
    {
        LabelledDigest {
            algorithm: self.algorithm.clone(),
            label_as_read: match &self.label_as_read {
                Some(label) => Some(label.clone()),
                None => None,
            },
            value: self.value.clone(),
        }
    }
}

/// The labelled digest that octets spell.
pub open spec fn labelled_digest(s: Seq<u8>) -> Result<Labelled, Fault> {
    let colon = position(s, 0x3a, 0);
    let label = s.take(colon);
    let value = s.skip(colon + 1);
    if colon == s.len() {
        Err(Fault::NoSeparator(lossy_text(s)))
    } else if !is_token(label) {
        Err(Fault::MalformedAlgorithm(lossy_text(label)))
    } else if !is_digest_value(value) {
        Err(Fault::MalformedValue(lossy_text(value)))
    } else {
        Ok(
            Labelled {
                algorithm: algorithm_named(label),
                label: ascii_text(label),
                value: ascii_text(value),
            },
        )
    }
}

/// The octets that a labelled digest is written as.
pub open spec fn labelled_octets(digest: Labelled) -> Seq<u8> {
    octets(digest.label) + seq![0x3au8] + octets(digest.value)
}

/// Whether a labelled digest could have been read: its label is a token that names its algorithm,
/// and its value is a `digest-value`.
pub open spec fn is_readable(digest: Labelled) -> bool {
    is_token(octets(digest.label)) && is_digest_value(octets(digest.value)) && digest.algorithm
        == algorithm_named(octets(digest.label))
}

/// Whether a digest value fits an encoding: it is written in it, and where the algorithm's length
/// is known it decodes to that many octets.
pub open spec fn fits(encoding: DigestEncoding, digest: Labelled) -> bool {
    match decoding(encoding, octets(digest.value)) {
        Some(found) => match length_of(digest.algorithm) {
            Some(length) => found.len() == length,
            None => true,
        },
        None => false,
    }
}

/// The one encoding that a digest value fits.
pub open spec fn only_encoding(digest: Labelled) -> Option<DigestEncoding> {
    let a = fits(DigestEncoding::Base16, digest);
    let b = fits(DigestEncoding::Base32, digest);
    let c = fits(DigestEncoding::Base64, digest);
    if a && !b && !c {
        Some(DigestEncoding::Base16)
    } else if b && !a && !c {
        Some(DigestEncoding::Base32)
    } else if c && !a && !b {
        Some(DigestEncoding::Base64)
    } else {
        None
    }
}

/// The octets of a digest, where its encoding can be told.
pub open spec fn digest_octets(digest: Labelled) -> Option<Seq<u8>> {
    match only_encoding(digest) {
        Some(encoding) => decoding(encoding, octets(digest.value)),
        None => None,
    }
}

/// Whether two labelled digests report the same digest.
pub open spec fn same_digest(a: Labelled, b: Labelled) -> bool {
    a.algorithm == b.algorithm && match (digest_octets(a), digest_octets(b)) {
        (Some(x), Some(y)) => x == y,
        _ => a.value == b.value,
    }
}

/// A digest under an algorithm's recommended label, in the encoding that is asked for.
pub open spec fn labelled_in(
    algorithm: Algorithm,
    encoding: DigestEncoding,
    digest: Seq<u8>,
) -> Labelled {
    Labelled {
        algorithm,
        label: label_of(algorithm),
        value: ascii_text(encoded(encoding, digest)),
    }
}

/// A digest under an algorithm's recommended label, in its recommended encoding.
pub open spec fn labelled_from(algorithm: Algorithm, digest: Seq<u8>) -> Labelled {
    labelled_in(algorithm, encoding_for(algorithm), digest)
}

pub(crate) proof fn lemma_digest_value_is_ascii(s: Seq<u8>)
    requires
        is_digest_value(s),
    ensures
        is_ascii(s),
{
    assert forall|i: int| 0 <= i < s.len() implies #[trigger] s[i] < 0x80 by {
        assert(is_token_char(s[i]) || s[i] == 0x3d || s[i] == 0x2f);
    }
}

/// A labelled digest that could have been read is read back from what it is written as.
pub proof fn lemma_digest_reads_back(digest: Labelled)
    requires
        is_readable(digest),
    ensures
        labelled_digest(labelled_octets(digest)) == Ok::<Labelled, Fault>(digest),
{
    let label = octets(digest.label);
    let value = octets(digest.value);
    let whole = labelled_octets(digest);
    assert forall|i: int| 0 <= i < label.len() implies #[trigger] whole[i] != 0x3a by {
        assert(whole[i] == label[i]);
        assert(is_token_char(label[i]));
    }
    assert(whole[label.len() as int] == 0x3a);
    lemma_position_is(whole, 0x3a, 0, label.len() as int);
    assert(whole.take(label.len() as int) =~= label);
    assert(whole.skip(label.len() as int + 1) =~= value);
    lemma_token_is_ascii(label);
    lemma_digest_value_is_ascii(value);
    lemma_ascii_octets(digest.label);
    lemma_ascii_octets(digest.value);
}

/// A labelled digest that is read is written as it was read.
pub proof fn lemma_digest_is_written_as_read(s: Seq<u8>)
    requires
        labelled_digest(s) is Ok,
    ensures
        labelled_octets(labelled_digest(s)->Ok_0) == s,
        is_readable(labelled_digest(s)->Ok_0),
{
    let colon = position(s, 0x3a, 0);
    lemma_position(s, 0x3a, 0);
    let label = s.take(colon);
    let value = s.skip(colon + 1);
    lemma_token_is_ascii(label);
    lemma_digest_value_is_ascii(value);
    lemma_ascii_text(label);
    lemma_ascii_text(value);
    assert(labelled_octets(labelled_digest(s)->Ok_0) =~= s);
}

/// Two values that decode, in different encodings, to a digest of a known length are different.
proof fn lemma_encodings_differ(a: DigestEncoding, b: DigestEncoding, value: Seq<u8>, length: nat)
    requires
        a != b,
        length == 16 || length == 20 || length == 32,
        decoding(a, value) matches Some(found) && found.len() == length,
    ensures
        !(decoding(b, value) matches Some(found) && found.len() == length),
{
    lemma_lengths(a, value);
    if decoding(b, value) matches Some(found) && found.len() == length {
        lemma_lengths(b, value);
        lemma_position(value, 0x3d, 0);
        let end = position(value, 0x3d, 0);
        if end < value.len() {
            assert(value[end] == 0x3d);
            assert(base16_value(0x3d) is None);
            assert(!all_base16(value));
        }
    }
}

/// How many characters stand for how many octets.
proof fn lemma_lengths(encoding: DigestEncoding, value: Seq<u8>)
    requires
        decoding(encoding, value) is Some,
    ensures
        ({
            let length = decoding(encoding, value).unwrap().len();
            let end = position(value, 0x3d, 0);
            match encoding {
                DigestEncoding::Base16 => value.len() == 2 * length,
                DigestEncoding::Base32 => length == end * 5 / 8,
                DigestEncoding::Base64 => length == end * 6 / 8,
            }
        }),
{
    lemma_position(value, 0x3d, 0);
    match encoding {
        DigestEncoding::Base16 => {
            lemma_length16(values16(value));
        },
        DigestEncoding::Base32 => {
            lemma_length32(values32(unpadded(value, 8).unwrap()));
        },
        DigestEncoding::Base64 => {
            lemma_length64(values64(unpadded(value, 4).unwrap()));
        },
    }
}

proof fn lemma_length16(d: Seq<u8>)
    ensures
        base16_decoded(d).len() == d.len() / 2,
    decreases d.len(),
{
    if d.len() >= 2 {
        lemma_length16(d.skip(2));
    }
}

proof fn lemma_length32(d: Seq<u8>)
    ensures
        base32_decoded(d).len() == d.len() * 5 / 8,
    decreases d.len(),
{
    if d.len() > 8 {
        lemma_length32(d.skip(8));
    }
}

proof fn lemma_length64(d: Seq<u8>)
    ensures
        base64_decoded(d).len() == d.len() * 6 / 8,
    decreases d.len(),
{
    if d.len() > 4 {
        lemma_length64(d.skip(4));
    }
}

/// A digest of a known length fits the encoding that it is written in and no other, whichever that
/// is, and its octets are read back from what it is written as.
pub proof fn lemma_known_digest_decodes(
    algorithm: Algorithm,
    encoding: DigestEncoding,
    digest: Seq<u8>,
)
    requires
        length_of(algorithm) == Some(digest.len()),
    ensures
        only_encoding(labelled_in(algorithm, encoding, digest)) == Some(encoding),
        digest_octets(labelled_in(algorithm, encoding, digest)) == Some(digest),
{
    let text = encoded(encoding, digest);
    lemma_texts_are_ascii(digest);
    lemma_ascii_text(text);
    lemma_decoding_undoes_encoding(encoding, digest);
    if encoding != DigestEncoding::Base16 {
        lemma_encodings_differ(encoding, DigestEncoding::Base16, text, digest.len());
    }
    if encoding != DigestEncoding::Base32 {
        lemma_encodings_differ(encoding, DigestEncoding::Base32, text, digest.len());
    }
    if encoding != DigestEncoding::Base64 {
        lemma_encodings_differ(encoding, DigestEncoding::Base64, text, digest.len());
    }
}

/// What decodes in an encoding is a `digest-value`, unless there is none of it.
proof fn lemma_decoded_is_digest_value(encoding: DigestEncoding, value: Seq<u8>)
    requires
        decoding(encoding, value) is Some,
        value.len() > 0,
    ensures
        is_digest_value(value),
{
    lemma_position(value, 0x3d, 0);
    let end = position(value, 0x3d, 0);
    assert forall|i: int| 0 <= i < value.len() implies is_token_char(#[trigger] value[i])
        || value[i] == 0x3d || value[i] == 0x2f by {
        if i < end {
            assert(value.take(end)[i] == value[i]);
        }
    }
}

/// An algorithm that is known is named by its label, which is a token.
proof fn lemma_label(algorithm: Algorithm)
    requires
        !(algorithm is Other),
    ensures
        is_token(octets(label_of(algorithm))),
        algorithm_named(octets(label_of(algorithm))) == algorithm,
{
    reveal_strlit("md5");
    reveal_strlit("sha1");
    reveal_strlit("sha-1");
    reveal_strlit("sha256");
    reveal_strlit("sha-256");
    lemma_ascii_octets_of("md5"@);
    lemma_ascii_octets_of("sha1"@);
    lemma_ascii_octets_of("sha-1"@);
    lemma_ascii_octets_of("sha256"@);
    lemma_ascii_octets_of("sha-256"@);
    let label = octets(label_of(algorithm));
    assert forall|i: int| 0 <= i < label.len() implies is_token_char(#[trigger] label[i]) by {
        assert(label[i] == label_of(algorithm)[i] as u8);
    }
    assert(lowered(octets("md5"@)).len() == 3);
    assert(lowered(octets("sha1"@)).len() == 4);
    assert(lowered(octets("sha-1"@)).len() == 5);
    assert(lowered(octets("sha256"@)).len() == 6);
}

/// A digest of a known length could have been read, whichever encoding it is written in.
pub proof fn lemma_known_digest_is_readable(
    algorithm: Algorithm,
    encoding: DigestEncoding,
    digest: Seq<u8>,
)
    requires
        length_of(algorithm) == Some(digest.len()),
    ensures
        is_readable(labelled_in(algorithm, encoding, digest)),
{
    let text = encoded(encoding, digest);
    lemma_label(algorithm);
    lemma_texts_are_ascii(digest);
    lemma_ascii_text(text);
    lemma_decoding_undoes_encoding(encoding, digest);
    if text.len() == 0 {
        lemma_lengths(encoding, text);
        lemma_position(text, 0x3d, 0);
    }
    lemma_decoded_is_digest_value(encoding, text);
}

impl LabelledDigest {
    /// Read a labelled digest.
    ///
    /// # Errors
    ///
    /// Returns [`Error::NoSeparator`] when the colon is missing, [`Error::MalformedAlgorithm`]
    /// when the algorithm is not a token, and [`Error::MalformedValue`] when the digest is not one
    /// (with `=` and `/` also allowed there, per annotation #48).
    pub fn parse(value: &[u8]) -> (r: Result<Self, Error>)
        ensures
            match r {
                Ok(digest) => labelled_digest(value@) == Ok::<Labelled, Fault>(digest@),
                Err(e) => labelled_digest(value@) == Err::<Labelled, Fault>(e@),
            },
    {
        let colon = find(value, 0x3a, 0);
        if colon == value.len() {
            return Err(Error::NoSeparator { value: lossy(value) });
        }
        let label = slice_subrange(value, 0, colon);
        let digest = slice_subrange(value, colon + 1, value.len());
        assert(label@ =~= value@.take(colon as int));
        assert(digest@ =~= value@.skip(colon + 1));
        if !token(label) {
            return Err(Error::MalformedAlgorithm { algorithm: lossy(label) });
        }
        if !digest_value(digest) {
            return Err(Error::MalformedValue { digest: lossy(digest) });
        }
        proof {
            lemma_token_is_ascii(label@);
            lemma_digest_value_is_ascii(digest@);
        }
        let label = ascii_string(label);
        let algorithm = DigestAlgorithm::from_label(label.as_str());
        let label_as_read = if same_text(label.as_str(), algorithm.label()) {
            None
        } else {
            Some(label)
        };
        Ok(LabelledDigest { algorithm, label_as_read, value: ascii_string(digest) })
    }

    /// A labelled digest of the given algorithm and value.
    ///
    /// # Errors
    ///
    /// Returns the [`Error`] naming the half that does not match its grammar.
    pub fn new(algorithm: &str, value: &str) -> (r: Result<Self, Error>)
        ensures
            match r {
                Ok(digest) => {
                    &&& is_token(octets(algorithm@))
                    &&& is_digest_value(octets(value@))
                    &&& digest@ == (Labelled {
                        algorithm: algorithm_named(octets(algorithm@)),
                        label: algorithm@,
                        value: value@,
                    })
                },
                Err(e) => if !is_token(octets(algorithm@)) {
                    e@ == Fault::MalformedAlgorithm(algorithm@)
                } else {
                    &&& !is_digest_value(octets(value@))
                    &&& e@ == Fault::MalformedValue(value@)
                },
            },
    {
        if !token(algorithm.as_bytes()) {
            return Err(Error::MalformedAlgorithm { algorithm: algorithm.to_string() });
        }
        if !digest_value(value.as_bytes()) {
            return Err(Error::MalformedValue { digest: value.to_string() });
        }
        let named = DigestAlgorithm::from_label(algorithm);
        let label_as_read = if same_text(algorithm, named.label()) {
            None
        } else {
            Some(algorithm.to_string())
        };
        Ok(LabelledDigest { algorithm: named, label_as_read, value: value.to_string() })
    }

    /// A labelled digest reporting the given digest bytes.
    ///
    /// The value is written under the algorithm's recommended label, in the encoding and case
    /// annotation #80 asks for.
    pub fn from_digest(algorithm: DigestAlgorithm, digest: &[u8]) -> (r: Self)
        ensures
            r@ == labelled_from(algorithm@, digest@),
    {
        let mut value = String::new();
        algorithm.recommended_encoding().encode(digest, &mut value);
        assert(value@ =~= ascii_text(encoded(encoding_for(algorithm@), digest@)));
        LabelledDigest { algorithm, label_as_read: None, value }
    }

    /// A labelled digest reporting the given digest bytes in the given encoding.
    pub fn from_digest_in(algorithm: DigestAlgorithm, encoding: DigestEncoding, digest: &[u8]) -> (r:
        Self)
        ensures
            r@ == (Labelled {
                algorithm: algorithm@,
                label: label_of(algorithm@),
                value: ascii_text(encoded(encoding, digest@)),
            }),
    {
        let mut value = String::new();
        encoding.encode(digest, &mut value);
        assert(value@ =~= ascii_text(encoded(encoding, digest@)));
        LabelledDigest { algorithm, label_as_read: None, value }
    }

    /// The digest algorithm.
    pub fn algorithm(&self) -> (r: &DigestAlgorithm)
        ensures
            r@ == self@.algorithm,
    {
        &self.algorithm
    }

    /// The algorithm label, as it was written.
    pub fn algorithm_as_read(&self) -> (r: &str)
        ensures
            r@ == self@.label,
    {
        match &self.label_as_read {
            Some(label) => label.as_str(),
            None => self.algorithm.label(),
        }
    }

    /// The digest value, as it was written (the standard does not fix an encoding).
    pub fn value(&self) -> (r: &str)
        ensures
            r@ == self@.value,
    {
        self.value.as_str()
    }

    /// Whether the value fits an encoding.
    fn fits_in(&self, encoding: DigestEncoding) -> (r: bool)
        ensures
            r == fits(encoding, self@),
    {
        match encoding.decode(self.value.as_str()) {
            Some(digest) => match self.algorithm.digest_length() {
                Some(expected) => digest.len() == expected,
                None => true,
            },
            None => false,
        }
    }

    /// The encoding the value is written in, or `None` when that cannot be told.
    ///
    /// A value is in an encoding when its characters and length fit it, and, for an algorithm whose
    /// digest length is known, when it decodes to that many bytes. A value that fits more than one
    /// encoding, which a digest of a known length cannot, is in none of them here. Annotation #80
    /// gives the length of each encoding and asks for Base32 padding to be read as it is written
    /// here.
    pub fn encoding(&self) -> (r: Option<DigestEncoding>)
        ensures
            r == only_encoding(self@),
    {
        let in_16 = self.fits_in(DigestEncoding::Base16);
        let in_32 = self.fits_in(DigestEncoding::Base32);
        let in_64 = self.fits_in(DigestEncoding::Base64);
        if in_16 && !in_32 && !in_64 {
            Some(DigestEncoding::Base16)
        } else if in_32 && !in_16 && !in_64 {
            Some(DigestEncoding::Base32)
        } else if in_64 && !in_16 && !in_32 {
            Some(DigestEncoding::Base64)
        } else {
            None
        }
    }

    /// The digest bytes, or `None` when the value's encoding cannot be told.
    pub fn decoded(&self) -> (r: Option<Vec<u8>>)
        ensures
            match r {
                Some(digest) => digest_octets(self@) == Some(digest@),
                None => digest_octets(self@) is None,
            },
    {
        match self.encoding() {
            Some(encoding) => encoding.decode(self.value.as_str()),
            None => None,
        }
    }

    /// Whether two labelled digests report the same digest.
    ///
    /// Annotation #80 asks for the base encoding to be resolved before comparing, so the algorithms
    /// are compared under their recommended labels and the values under the bytes they encode. Two
    /// values whose encoding cannot be told are compared as they were written.
    pub fn matches(&self, other: &Self) -> (r: bool)
        ensures
            r == same_digest(self@, other@),
    {
        if !self.algorithm.is_same(&other.algorithm) {
            return false;
        }
        match (self.decoded(), other.decoded()) {
            (Some(a), Some(b)) => equal(a.as_slice(), b.as_slice()),
            _ => same_text(self.value.as_str(), other.value.as_str()),
        }
    }

    /// The octets that the digest is written as.
    pub fn to_octets(&self) -> (r: Vec<u8>)
        ensures
            r@ == labelled_octets(self@),
    {
        let mut out: Vec<u8> = Vec::new();
        append(&mut out, self.algorithm_as_read().as_bytes());
        out.push(0x3a);
        append(&mut out, self.value.as_str().as_bytes());
        assert(out@ =~= labelled_octets(self@));
        out
    }

    /// The text that the digest is written as.
    pub fn to_string(&self) -> (r: String)
        ensures
            r@ == self@.label + ":"@ + self@.value,
            octets(r@) == labelled_octets(self@),
    {
        let mut out = self.algorithm_as_read().to_owned();
        out.append(":");
        out.append(self.value.as_str());
        proof {
            reveal_strlit(":");
            lemma_octets_concat(self@.label, ":"@);
            lemma_octets_concat(self@.label + ":"@, self@.value);
            let colon = seq![0x3au8];
            lemma_ascii_text(colon);
            assert(ascii_text(colon) =~= ":"@);
        }
        out
    }
}

/// Whether octets are a `digest-value`.
fn digest_value(s: &[u8]) -> (r: bool)
    ensures
        r == is_digest_value(s@),
{
    let mut i: usize = 0;
    while i < s.len()
        invariant
            i <= s.len(),
            forall|j: int|
                0 <= j < i ==> is_token_char(#[trigger] s@[j]) || s@[j] == 0x3d || s@[j] == 0x2f,
        decreases s.len() - i,
    {
        if !(token_char(s[i]) || s[i] == 0x3d || s[i] == 0x2f) {
            assert(!(is_token_char(s@[i as int]) || s@[i as int] == 0x3d || s@[i as int] == 0x2f));
            return false;
        }
        i = i + 1;
    }
    s.len() > 0
}

/// What an [`Error`] says in words.
pub open spec fn message(fault: Fault) -> Seq<char> {
    match fault {
            Fault::NoSeparator(value) => {
                "not a labelled digest: no `:` separating algorithm from digest in `"@ + value + "`"@
            },
            Fault::MalformedAlgorithm(algorithm) => {
                "not a labelled digest: `"@ + algorithm + "` is not an algorithm label"@
            },
            Fault::MalformedValue(digest) => {
                "not a labelled digest: `"@ + digest + "` is not a digest value"@
            },
    }
}

impl Error {
    /// What the error says in words.
    pub fn to_string(&self) -> (r: String)
        ensures
            r@ == message(self@),
    {
        let mut out = String::new();
        match self {
            Error::NoSeparator { value } => {
                out.append("not a labelled digest: no `:` separating algorithm from digest in `");
                out.append(value.as_str());
                out.append("`");
            },
            Error::MalformedAlgorithm { algorithm } => {
                out.append("not a labelled digest: `");
                out.append(algorithm.as_str());
                out.append("` is not an algorithm label");
            },
            Error::MalformedValue { digest } => {
                out.append("not a labelled digest: `");
                out.append(digest.as_str());
                out.append("` is not a digest value");
            },
        }
        assert(out@ =~= message(self@));
        out
    }
}

/// How a digest is computed and written.
#[derive(Clone, Debug, PartialEq, Eq)]
pub struct DigestFormat {
    /// The algorithm.
    pub algorithm: DigestAlgorithm,
    /// The encoding of the value.
    pub encoding: DigestEncoding,
}

impl DigestFormat {
    /// The encoding that is asked for when writing an algorithm's digests.
    pub fn recommended(algorithm: DigestAlgorithm) -> (r: Self)
        ensures
            r.algorithm == algorithm,
            r.encoding == encoding_for(algorithm@),
    {
        let encoding = algorithm.recommended_encoding();
        DigestFormat { algorithm, encoding }
    }
}

} // verus!
