//! Which labelled digests report the same digest.

use crate::octets::{
    is_ascii, lemma_ascii_octets_of, lemma_position_is, lemma_spells_word, lower, lowered, octets,
    position, same_but_for_case, spells_word,
};
use crate::value::base::{base16_value, base32_value, base64_value, values16, values32, values64};
use crate::value::digest::{
    algorithm_named, decoding, digest_octets, encoding_for, labelled_in, length_of,
    lemma_known_digest_decodes, only_encoding, same_digest, Algorithm, Labelled,
};
use crate::value::DigestEncoding;
use vstd::prelude::*;

verus! {

proof fn lemma_labels()
    ensures
        forall|s: Seq<u8>| #[trigger]
            same_but_for_case(s, octets("md5"@)) <==> spells_word(s, octets("md5"@)),
        forall|s: Seq<u8>| #[trigger]
            same_but_for_case(s, octets("sha1"@)) <==> spells_word(s, octets("sha1"@)),
        forall|s: Seq<u8>| #[trigger]
            same_but_for_case(s, octets("sha-1"@)) <==> spells_word(s, octets("sha-1"@)),
        forall|s: Seq<u8>| #[trigger]
            same_but_for_case(s, octets("sha256"@)) <==> spells_word(s, octets("sha256"@)),
        forall|s: Seq<u8>| #[trigger]
            same_but_for_case(s, octets("sha-256"@)) <==> spells_word(s, octets("sha-256"@)),
        octets("md5"@).len() == 3,
        octets("sha1"@).len() == 4,
        octets("sha-1"@).len() == 5,
        octets("sha256"@).len() == 6,
        octets("sha-256"@).len() == 7,
{
    reveal_strlit("md5");
    reveal_strlit("sha1");
    reveal_strlit("sha-1");
    reveal_strlit("sha256");
    reveal_strlit("sha-256");
    lemma_ascii_octets_of("md5"@);
    lemma_ascii_octets_of("sha1"@);
    lemma_ascii_octets_of("sha-1"@);
    lemma_ascii_octets_of("sha256"@);
    lemma_ascii_octets_of("sha-256"@);
    assert forall|s: Seq<u8>| #[trigger]
        same_but_for_case(s, octets("md5"@)) <==> spells_word(s, octets("md5"@)) by {
        lemma_spells_word(s, octets("md5"@));
    }
    assert forall|s: Seq<u8>| #[trigger]
        same_but_for_case(s, octets("sha1"@)) <==> spells_word(s, octets("sha1"@)) by {
        lemma_spells_word(s, octets("sha1"@));
    }
    assert forall|s: Seq<u8>| #[trigger]
        same_but_for_case(s, octets("sha-1"@)) <==> spells_word(s, octets("sha-1"@)) by {
        lemma_spells_word(s, octets("sha-1"@));
    }
    assert forall|s: Seq<u8>| #[trigger]
        same_but_for_case(s, octets("sha256"@)) <==> spells_word(s, octets("sha256"@)) by {
        lemma_spells_word(s, octets("sha256"@));
    }
    assert forall|s: Seq<u8>| #[trigger]
        same_but_for_case(s, octets("sha-256"@)) <==> spells_word(s, octets("sha-256"@)) by {
        lemma_spells_word(s, octets("sha-256"@));
    }
}

/// A label names MD5, SHA-1 or SHA-256 where it spells the name of the algorithm, with or without
/// the hyphen and with its letters in either case, and another algorithm otherwise.
pub proof fn lemma_label_is_told(label: Seq<u8>)
    ensures
        algorithm_named(label) is Md5 <==> spells_word(label, octets("md5"@)),
        algorithm_named(label) is Sha1 <==> spells_word(label, octets("sha1"@)) || spells_word(
            label,
            octets("sha-1"@),
        ),
        algorithm_named(label) is Sha256 <==> spells_word(label, octets("sha256"@)) || spells_word(
            label,
            octets("sha-256"@),
        ),
{
    lemma_labels();
}

/// Labels that differ in the case of letters alone name one algorithm. Labels of algorithms that
/// are not known name one algorithm only where they differ in no more than that.
pub proof fn lemma_labels_name_one_algorithm(a: Seq<u8>, b: Seq<u8>)
    requires
        is_ascii(a),
        is_ascii(b),
    ensures
        lowered(a) == lowered(b) ==> algorithm_named(a) == algorithm_named(b),
        algorithm_named(a) == algorithm_named(b) && algorithm_named(a) is Other ==> lowered(a)
            == lowered(b),
{
    if algorithm_named(a) == algorithm_named(b) && algorithm_named(a) is Other {
        let x = algorithm_named(a)->Other_0;
        let y = algorithm_named(b)->Other_0;
        assert(lowered(a).len() == x.len() && lowered(b).len() == y.len());
        assert forall|i: int| 0 <= i < lowered(a).len() implies #[trigger] lowered(a)[i]
            == lowered(b)[i] by {
            assert(a[i] < 0x80 && b[i] < 0x80);
            assert(x[i] == lowered(a)[i] as char);
            assert(y[i] == lowered(b)[i] as char);
        }
        assert(lowered(a) =~= lowered(b));
    }
}

/// Digests of a known length match exactly where they are of one algorithm and have the same
/// octets, whatever encodings they are written in and whatever labels they stand under.
pub proof fn lemma_same_digest_in_any_encoding(
    a: Labelled,
    a_encoding: DigestEncoding,
    a_digest: Seq<u8>,
    b: Labelled,
    b_encoding: DigestEncoding,
    b_digest: Seq<u8>,
)
    requires
        length_of(a.algorithm) == Some(a_digest.len()),
        length_of(b.algorithm) == Some(b_digest.len()),
        a.value == labelled_in(a.algorithm, a_encoding, a_digest).value,
        b.value == labelled_in(b.algorithm, b_encoding, b_digest).value,
    ensures
        same_digest(a, b) <==> a.algorithm == b.algorithm && a_digest == b_digest,
        same_digest(a, b) <==> same_digest(b, a),
{
    let x = labelled_in(a.algorithm, a_encoding, a_digest);
    let y = labelled_in(b.algorithm, b_encoding, b_digest);
    lemma_known_digest_decodes(a.algorithm, a_encoding, a_digest);
    lemma_known_digest_decodes(b.algorithm, b_encoding, b_digest);
    assert(only_encoding(a) == only_encoding(x));
    assert(only_encoding(b) == only_encoding(y));
    assert(digest_octets(a) == Some(a_digest));
    assert(digest_octets(b) == Some(b_digest));
}

/// A digest matches itself, as it was written, whether or not its encoding can be told.
pub proof fn lemma_digest_matches_itself(a: Labelled, b: Labelled)
    ensures
        a.algorithm == b.algorithm && a.value == b.value ==> same_digest(a, b),
        digest_octets(a) is None && same_digest(a, b) ==> a.value == b.value,
        same_digest(a, b) ==> a.algorithm == b.algorithm,
{
    if a.algorithm == b.algorithm && a.value == b.value {
        assert(only_encoding(a) == only_encoding(b));
    }
}

proof fn lemma_padding_of(a: Seq<u8>, b: Seq<u8>)
    requires
        a.len() == b.len(),
        forall|i: int| 0 <= i < a.len() ==> (#[trigger] a[i] == 0x3d <==> b[i] == 0x3d),
    ensures
        position(a, 0x3d, 0) == position(b, 0x3d, 0),
        0 <= position(a, 0x3d, 0) <= a.len(),
{
    crate::octets::lemma_position(a, 0x3d, 0);
    let end = position(a, 0x3d, 0);
    assert forall|i: int| 0 <= i < end implies #[trigger] b[i] != 0x3d by {
        assert(a[i] != 0x3d);
    }
    lemma_position_is(b, 0x3d, 0, end);
}

/// A Base16 or Base32 value reads the same in either case.
pub proof fn lemma_case_of_a_value(encoding: DigestEncoding, a: Seq<u8>, b: Seq<u8>)
    requires
        encoding != DigestEncoding::Base64,
        same_but_for_case(a, b),
    ensures
        decoding(encoding, a) == decoding(encoding, b),
{
    assert(lowered(a).len() == a.len() && lowered(b).len() == b.len());
    assert forall|i: int| 0 <= i < a.len() implies lower(#[trigger] a[i]) == lower(b[i]) by {
        assert(lowered(a)[i] == lower(a[i]));
        assert(lowered(b)[i] == lower(b[i]));
    }
    if encoding == DigestEncoding::Base16 {
        assert forall|i: int| 0 <= i < a.len() implies base16_value(#[trigger] a[i])
            == base16_value(b[i]) by {
            assert(lower(a[i]) == lower(b[i]));
        }
        assert(values16(a) =~= values16(b));
        assert forall|i: int| 0 <= i < b.len() implies base16_value(#[trigger] b[i])
            == base16_value(a[i]) by {}
    } else {
        assert forall|i: int| 0 <= i < a.len() implies (#[trigger] a[i] == 0x3d <==> b[i]
            == 0x3d) by {
            assert(lower(a[i]) == lower(b[i]));
        }
        lemma_padding_of(a, b);
        let end = position(a, 0x3d, 0);
        let x = a.take(end);
        let y = b.take(end);
        assert forall|i: int| 0 <= i < end implies base32_value(#[trigger] x[i]) == base32_value(
            y[i],
        ) by {
            assert(lower(a[i]) == lower(b[i]));
        }
        assert forall|i: int| 0 <= i < end implies base32_value(#[trigger] y[i]) == base32_value(
            x[i],
        ) by {}
        assert(values32(x) =~= values32(y));
        assert forall|i: int| end <= i < b.len() implies (#[trigger] b[i] == 0x3d <==> a[i]
            == 0x3d) by {
            assert(a[i] == 0x3d <==> b[i] == 0x3d);
        }
    }
}

/// A Base64 value reads the same in the standard alphabet and in the URL-safe one.
pub proof fn lemma_alphabet_of_a_value(a: Seq<u8>, b: Seq<u8>)
    requires
        a.len() == b.len(),
        forall|i: int|
            0 <= i < a.len() ==> #[trigger] a[i] == b[i] || (a[i] == 0x2b && b[i] == 0x2d) || (a[i]
                == 0x2f && b[i] == 0x5f),
    ensures
        decoding(DigestEncoding::Base64, a) == decoding(DigestEncoding::Base64, b),
{
    lemma_padding_of(a, b);
    let end = position(a, 0x3d, 0);
    let x = a.take(end);
    let y = b.take(end);
    assert forall|i: int| 0 <= i < end implies base64_value(#[trigger] x[i]) == base64_value(
        y[i],
    ) by {
        assert(x[i] == a[i] && y[i] == b[i]);
    }
    assert forall|i: int| 0 <= i < end implies base64_value(#[trigger] y[i]) == base64_value(
        x[i],
    ) by {}
    assert(values64(x) =~= values64(y));
    assert forall|i: int| end <= i < b.len() implies (#[trigger] b[i] == 0x3d <==> a[i] == 0x3d) by {
        assert(a[i] == 0x3d <==> b[i] == 0x3d);
    }
}

/// A value reads the same without the padding behind it.
pub proof fn lemma_padding_can_be_left_out(
    encoding: DigestEncoding,
    digits: Seq<u8>,
    padding: Seq<u8>,
)
    requires
        encoding != DigestEncoding::Base16,
        forall|i: int| 0 <= i < digits.len() ==> #[trigger] digits[i] != 0x3d,
        forall|i: int| 0 <= i < padding.len() ==> #[trigger] padding[i] == 0x3d,
        decoding(encoding, digits + padding) is Some,
    ensures
        decoding(encoding, digits) == decoding(encoding, digits + padding),
{
    let all = digits + padding;
    let n = digits.len() as int;
    assert forall|i: int| 0 <= i < n implies #[trigger] all[i] != 0x3d by {
        assert(all[i] == digits[i]);
    }
    if padding.len() > 0 {
        assert(all[n] == padding[0]);
    }
    lemma_position_is(all, 0x3d, 0, n);
    lemma_position_is(digits, 0x3d, 0, n);
    assert(all.take(n) =~= digits);
    assert(digits.take(n) =~= digits);
}

/// The digests of a known length are written in Base32 exactly where that takes no padding.
pub proof fn lemma_recommended_encoding(algorithm: Algorithm)
    ensures
        length_of(algorithm) matches Some(length) ==> (encoding_for(algorithm)
            == DigestEncoding::Base32 <==> length % 5 == 0) && (encoding_for(algorithm)
            != DigestEncoding::Base32 ==> encoding_for(algorithm) == DigestEncoding::Base16),
{
}

} // verus!
