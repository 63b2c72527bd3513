//! The base encodings of RFC 4648 that digests are written in.

use crate::octets::{find, is_ascii, lemma_position_is, position};
use vstd::prelude::*;
use vstd::slice::slice_subrange;

verus! {

/// The octet at a position, or zero behind the end.
pub open spec fn octet_or_zero(s: Seq<u8>, i: int) -> u64 {
    if 0 <= i < s.len() {
        s[i] as u64
    } else {
        0
    }
}

/// The Base16 digit of a number below 16, in lower case.
pub open spec fn base16_char(d: u64) -> u8 {
    if d < 10 {
        (0x30 + d) as u8
    } else {
        (0x61 + (d - 10)) as u8
    }
}

/// The Base32 digit of a number below 32, in upper case.
pub open spec fn base32_char(d: u64) -> u8 {
    if d < 26 {
        (0x41 + d) as u8
    } else {
        (0x32 + (d - 26)) as u8
    }
}

/// The Base64 digit of a number below 64, in the standard alphabet.
pub open spec fn base64_char(d: u64) -> u8 {
    if d < 26 {
        (0x41 + d) as u8
    } else if d < 52 {
        (0x61 + (d - 26)) as u8
    } else if d < 62 {
        (0x30 + (d - 52)) as u8
    } else if d == 62 {
        0x2b
    } else {
        0x2f
    }
}

/// The number that a Base16 digit stands for, in either case.
pub open spec fn base16_value(b: u8) -> Option<u8> {
    if 0x30 <= b <= 0x39 {
        Some((b - 0x30) as u8)
    } else if 0x61 <= b <= 0x66 {
        Some((b - 0x61 + 10) as u8)
    } else if 0x41 <= b <= 0x46 {
        Some((b - 0x41 + 10) as u8)
    } else {
        None
    }
}

/// The number that a Base32 digit stands for, in either case.
pub open spec fn base32_value(b: u8) -> Option<u8> {
    if 0x41 <= b <= 0x5a {
        Some((b - 0x41) as u8)
    } else if 0x61 <= b <= 0x7a {
        Some((b - 0x61) as u8)
    } else if 0x32 <= b <= 0x37 {
        Some((b - 0x32 + 26) as u8)
    } else {
        None
    }
}

/// The number that a Base64 digit stands for, in the standard or the URL-safe alphabet.
pub open spec fn base64_value(b: u8) -> Option<u8> {
    if 0x41 <= b <= 0x5a {
        Some((b - 0x41) as u8)
    } else if 0x61 <= b <= 0x7a {
        Some((b - 0x61 + 26) as u8)
    } else if 0x30 <= b <= 0x39 {
        Some((b - 0x30 + 52) as u8)
    } else if b == 0x2b || b == 0x2d {
        Some(62)
    } else if b == 0x2f || b == 0x5f {
        Some(63)
    } else {
        None
    }
}

/// Octets in Base16: two digits for each.
pub open spec fn base16_text(s: Seq<u8>) -> Seq<u8>
    decreases s.len(),
{
    if s.len() == 0 {
        Seq::empty()
    } else {
        seq![base16_char((s[0] >> 4) as u64), base16_char((s[0] & 0x0f) as u64)] + base16_text(
            s.skip(1),
        )
    }
}

/// The number that up to five octets make, read as the top of 40 bits.
pub open spec fn bits40(s: Seq<u8>) -> u64 {
    (octet_or_zero(s, 0) << 32) | (octet_or_zero(s, 1) << 24) | (octet_or_zero(s, 2) << 16) | (
    octet_or_zero(s, 3) << 8) | octet_or_zero(s, 4)
}

/// How many of the eight Base32 digits of a group its octets reach.
pub open spec fn base32_digits(len: int) -> int {
    (8 * len + 4) / 5
}

/// A group of up to five octets in Base32: eight characters, those not reached being `=`.
pub open spec fn base32_group(s: Seq<u8>) -> Seq<u8> {
    Seq::new(
        8,
        |j: int|
            if j < base32_digits(s.len() as int) {
                base32_char((bits40(s) >> ((35 - 5 * j) as u64)) & 31)
            } else {
                0x3d
            },
    )
}

/// Octets in Base32, group by group.
pub open spec fn base32_text(s: Seq<u8>) -> Seq<u8>
    decreases s.len(),
{
    if s.len() == 0 {
        Seq::empty()
    } else if s.len() <= 5 {
        base32_group(s)
    } else {
        base32_group(s.take(5)) + base32_text(s.skip(5))
    }
}

/// The number that up to three octets make, read as the top of 24 bits.
pub open spec fn bits24(s: Seq<u8>) -> u64 {
    (octet_or_zero(s, 0) << 16) | (octet_or_zero(s, 1) << 8) | octet_or_zero(s, 2)
}

/// How many of the four Base64 digits of a group its octets reach.
pub open spec fn base64_digits(len: int) -> int {
    (8 * len + 5) / 6
}

/// A group of up to three octets in Base64: four characters, those not reached being `=`.
pub open spec fn base64_group(s: Seq<u8>) -> Seq<u8> {
    Seq::new(
        4,
        |j: int|
            if j < base64_digits(s.len() as int) {
                base64_char((bits24(s) >> ((18 - 6 * j) as u64)) & 63)
            } else {
                0x3d
            },
    )
}

/// Octets in Base64, group by group.
pub open spec fn base64_text(s: Seq<u8>) -> Seq<u8>
    decreases s.len(),
{
    if s.len() == 0 {
        Seq::empty()
    } else if s.len() <= 3 {
        base64_group(s)
    } else {
        base64_group(s.take(3)) + base64_text(s.skip(3))
    }
}

/// The number that up to eight Base32 digits make, read as the top of 40 bits.
pub open spec fn digits40(d: Seq<u8>) -> u64 {
    (octet_or_zero(d, 0) << 35) | (octet_or_zero(d, 1) << 30) | (octet_or_zero(d, 2) << 25) | (
    octet_or_zero(d, 3) << 20) | (octet_or_zero(d, 4) << 15) | (octet_or_zero(d, 5) << 10) | (
    octet_or_zero(d, 6) << 5) | octet_or_zero(d, 7)
}

/// The whole octets that up to eight Base32 digits hold.
pub open spec fn base32_octets(d: Seq<u8>) -> Seq<u8> {
    Seq::new(
        (d.len() * 5 / 8) as nat,
        |c: int| ((digits40(d) >> ((32 - 8 * c) as u64)) & 255) as u8,
    )
}

/// The octets that Base32 digits hold, group by group.
pub open spec fn base32_decoded(d: Seq<u8>) -> Seq<u8>
    decreases d.len(),
{
    if d.len() <= 8 {
        base32_octets(d)
    } else {
        base32_octets(d.take(8)) + base32_decoded(d.skip(8))
    }
}

/// The number that up to four Base64 digits make, read as the top of 24 bits.
pub open spec fn digits24(d: Seq<u8>) -> u64 {
    (octet_or_zero(d, 0) << 18) | (octet_or_zero(d, 1) << 12) | (octet_or_zero(d, 2) << 6)
        | octet_or_zero(d, 3)
}

/// The whole octets that up to four Base64 digits hold.
pub open spec fn base64_octets(d: Seq<u8>) -> Seq<u8> {
    Seq::new(
        (d.len() * 6 / 8) as nat,
        |c: int| ((digits24(d) >> ((16 - 8 * c) as u64)) & 255) as u8,
    )
}

/// The octets that Base64 digits hold, group by group.
pub open spec fn base64_decoded(d: Seq<u8>) -> Seq<u8>
    decreases d.len(),
{
    if d.len() <= 4 {
        base64_octets(d)
    } else {
        base64_octets(d.take(4)) + base64_decoded(d.skip(4))
    }
}

/// The octets that pairs of Base16 digits hold.
pub open spec fn base16_decoded(d: Seq<u8>) -> Seq<u8>
    decreases d.len(),
{
    if d.len() < 2 {
        Seq::empty()
    } else {
        seq![((d[0] << 4) | d[1]) as u8] + base16_decoded(d.skip(2))
    }
}

proof fn lemma_bits40(b0: u64, b1: u64, b2: u64, b3: u64, b4: u64, v: u64)
    by (bit_vector)
    requires
        b0 < 256,
        b1 < 256,
        b2 < 256,
        b3 < 256,
        b4 < 256,
        v == (b0 << 32) | (b1 << 24) | (b2 << 16) | (b3 << 8) | b4,
    ensures
        (v >> 32) & 255 == b0,
        (v >> 24) & 255 == b1,
        (v >> 16) & 255 == b2,
        (v >> 8) & 255 == b3,
        (v >> 0) & 255 == b4,
        (((v >> 35) & 31) << 35) | (((v >> 30) & 31) << 30) | (((v >> 25) & 31) << 25) | (((v >> 20)
            & 31) << 20) | (((v >> 15) & 31) << 15) | (((v >> 10) & 31) << 10) | (((v >> 5) & 31)
            << 5) | ((v >> 0) & 31) == v,
        b1 == 0 && b2 == 0 && b3 == 0 && b4 == 0 ==> (v >> 25) & 31 == 0 && (v >> 20) & 31 == 0 && (
        v >> 15) & 31 == 0 && (v >> 10) & 31 == 0 && (v >> 5) & 31 == 0 && (v >> 0) & 31 == 0,
        b2 == 0 && b3 == 0 && b4 == 0 ==> (v >> 15) & 31 == 0 && (v >> 10) & 31 == 0 && (v >> 5)
            & 31 == 0 && (v >> 0) & 31 == 0,
        b3 == 0 && b4 == 0 ==> (v >> 10) & 31 == 0 && (v >> 5) & 31 == 0 && (v >> 0) & 31 == 0,
        b4 == 0 ==> (v >> 0) & 31 == 0,
        v >> 35 <= 31,
{
}

proof fn lemma_bits24(b0: u64, b1: u64, b2: u64, v: u64)
    by (bit_vector)
    requires
        b0 < 256,
        b1 < 256,
        b2 < 256,
        v == (b0 << 16) | (b1 << 8) | b2,
    ensures
        (v >> 16) & 255 == b0,
        (v >> 8) & 255 == b1,
        (v >> 0) & 255 == b2,
        (((v >> 18) & 63) << 18) | (((v >> 12) & 63) << 12) | (((v >> 6) & 63) << 6) | ((v >> 0)
            & 63) == v,
        b1 == 0 && b2 == 0 ==> (v >> 6) & 63 == 0 && (v >> 0) & 63 == 0,
        b2 == 0 ==> (v >> 0) & 63 == 0,
{
}

proof fn lemma_mask(v: u64)
    by (bit_vector)
    ensures
        v & 31 < 32,
        v & 63 < 64,
        v & 255 < 256,
{
}

proof fn lemma_nibbles(b: u8)
    by (bit_vector)
    ensures
        b >> 4 < 16,
        b & 0x0f < 16,
        ((b >> 4) << 4) | (b & 0x0f) == b,
{
}

/// The digits that Base16 writes stand for the numbers they are written for.
pub proof fn lemma_base16_char(d: u64)
    requires
        d < 16,
    ensures
        base16_value(base16_char(d)) == Some(d as u8),
{
}

/// The digits that Base32 writes stand for the numbers they are written for.
pub proof fn lemma_base32_char(d: u64)
    requires
        d < 32,
    ensures
        base32_value(base32_char(d)) == Some(d as u8),
        base32_char(d) != 0x3d,
{
}

/// The digits that Base64 writes stand for the numbers they are written for.
pub proof fn lemma_base64_char(d: u64)
    requires
        d < 64,
    ensures
        base64_value(base64_char(d)) == Some(d as u8),
        base64_char(d) != 0x3d,
{
}

/// The numbers of the Base32 digits of a group that its octets reach.
pub open spec fn base32_numbers(s: Seq<u8>) -> Seq<u8> {
    Seq::new(
        base32_digits(s.len() as int) as nat,
        |j: int| ((bits40(s) >> ((35 - 5 * j) as u64)) & 31) as u8,
    )
}

/// The numbers of the Base64 digits of a group that its octets reach.
pub open spec fn base64_numbers(s: Seq<u8>) -> Seq<u8> {
    Seq::new(
        base64_digits(s.len() as int) as nat,
        |j: int| ((bits24(s) >> ((18 - 6 * j) as u64)) & 63) as u8,
    )
}

/// The digits of a Base32 group hold the octets that they are written for.
pub proof fn lemma_base32_group(s: Seq<u8>)
    requires
        0 < s.len() <= 5,
    ensures
        base32_octets(base32_numbers(s)) == s,
{
    let v = bits40(s);
    lemma_bits40(
        octet_or_zero(s, 0),
        octet_or_zero(s, 1),
        octet_or_zero(s, 2),
        octet_or_zero(s, 3),
        octet_or_zero(s, 4),
        v,
    );
    let d = base32_numbers(s);
    assert forall|j: int| 0 <= j < 8 implies octet_or_zero(d, j) == (v >> ((35 - 5 * j) as u64))
        & 31 by {
        lemma_mask(v >> ((35 - 5 * j) as u64));
        if j >= d.len() {
            assert(j == 1 || j == 2 || j == 3 || j == 4 || j == 5 || j == 6 || j == 7);
        }
    }
    assert(octet_or_zero(d, 0) == (v >> 35) & 31);
    assert(octet_or_zero(d, 1) == (v >> 30) & 31);
    assert(octet_or_zero(d, 2) == (v >> 25) & 31);
    assert(octet_or_zero(d, 3) == (v >> 20) & 31);
    assert(octet_or_zero(d, 4) == (v >> 15) & 31);
    assert(octet_or_zero(d, 5) == (v >> 10) & 31);
    assert(octet_or_zero(d, 6) == (v >> 5) & 31);
    assert(octet_or_zero(d, 7) == (v >> 0) & 31);
    assert(digits40(d) == v);
    let back = base32_octets(d);
    assert(back.len() == s.len());
    assert forall|c: int| 0 <= c < s.len() implies back[c] == s[c] by {
        assert(c == 0 || c == 1 || c == 2 || c == 3 || c == 4);
    }
    assert(back =~= s);
}

/// The digits of a Base64 group hold the octets that they are written for.
pub proof fn lemma_base64_group(s: Seq<u8>)
    requires
        0 < s.len() <= 3,
    ensures
        base64_octets(base64_numbers(s)) == s,
{
    let v = bits24(s);
    lemma_bits24(octet_or_zero(s, 0), octet_or_zero(s, 1), octet_or_zero(s, 2), v);
    let d = base64_numbers(s);
    assert forall|j: int| 0 <= j < 4 implies octet_or_zero(d, j) == (v >> ((18 - 6 * j) as u64))
        & 63 by {
        lemma_mask(v >> ((18 - 6 * j) as u64));
        if j >= d.len() {
            assert(j == 1 || j == 2 || j == 3);
        }
    }
    assert(octet_or_zero(d, 0) == (v >> 18) & 63);
    assert(octet_or_zero(d, 1) == (v >> 12) & 63);
    assert(octet_or_zero(d, 2) == (v >> 6) & 63);
    assert(octet_or_zero(d, 3) == (v >> 0) & 63);
    assert(digits24(d) == v);
    let back = base64_octets(d);
    assert(back.len() == s.len());
    assert forall|c: int| 0 <= c < s.len() implies back[c] == s[c] by {
        assert(c == 0 || c == 1 || c == 2);
    }
    assert(back =~= s);
}

/// The digits of a text whose encoding writes `group` characters at a time, where its padding is
/// none or what those digits call for.
pub open spec fn unpadded(s: Seq<u8>, group: int) -> Option<Seq<u8>> {
    let end = position(s, 0x3d, 0);
    let padding = s.len() - end;
    if (forall|i: int| end <= i < s.len() ==> #[trigger] s[i] == 0x3d) && (padding == 0 || padding
        == (group - end % group) % group) {
        Some(s.take(end))
    } else {
        None
    }
}

/// Whether every character is a Base16 digit.
pub open spec fn all_base16(s: Seq<u8>) -> bool {
    forall|i: int| 0 <= i < s.len() ==> base16_value(#[trigger] s[i]) is Some
}

/// Whether every character is a Base32 digit.
pub open spec fn all_base32(s: Seq<u8>) -> bool {
    forall|i: int| 0 <= i < s.len() ==> base32_value(#[trigger] s[i]) is Some
}

/// Whether every character is a Base64 digit.
pub open spec fn all_base64(s: Seq<u8>) -> bool {
    forall|i: int| 0 <= i < s.len() ==> base64_value(#[trigger] s[i]) is Some
}

/// The numbers that Base16 digits stand for.
pub open spec fn values16(s: Seq<u8>) -> Seq<u8> {
    Seq::new(s.len(), |i: int| base16_value(s[i]).unwrap())
}

/// The numbers that Base32 digits stand for.
pub open spec fn values32(s: Seq<u8>) -> Seq<u8> {
    Seq::new(s.len(), |i: int| base32_value(s[i]).unwrap())
}

/// The numbers that Base64 digits stand for.
pub open spec fn values64(s: Seq<u8>) -> Seq<u8> {
    Seq::new(s.len(), |i: int| base64_value(s[i]).unwrap())
}

/// The numbers of all Base32 digits that octets reach.
spec fn all_numbers32(s: Seq<u8>) -> Seq<u8>
    decreases s.len(),
{
    if s.len() == 0 {
        Seq::empty()
    } else if s.len() <= 5 {
        base32_numbers(s)
    } else {
        base32_numbers(s.take(5)) + all_numbers32(s.skip(5))
    }
}

/// The numbers of all Base64 digits that octets reach.
spec fn all_numbers64(s: Seq<u8>) -> Seq<u8>
    decreases s.len(),
{
    if s.len() == 0 {
        Seq::empty()
    } else if s.len() <= 3 {
        base64_numbers(s)
    } else {
        base64_numbers(s.take(3)) + all_numbers64(s.skip(3))
    }
}

#[verifier::rlimit(60)]
#[verifier::spinoff_prover]
proof fn lemma_text32(s: Seq<u8>)
    ensures
        ({
            let n = all_numbers32(s);
            let text = base32_text(s);
            &&& n.len() % 8 == 0 || n.len() % 8 == 2 || n.len() % 8 == 4 || n.len() % 8 == 5
                || n.len() % 8 == 7
            &&& text.len() == n.len() + (8 - n.len() as int % 8) % 8
            &&& forall|i: int| 0 <= i < n.len() ==> #[trigger] n[i] < 32 && text[i] == base32_char(
                n[i] as u64,
            )
            &&& forall|i: int| n.len() <= i < text.len() ==> #[trigger] text[i] == 0x3d
            &&& base32_decoded(n) == s
        }),
    decreases s.len(),
{
    let n = all_numbers32(s);
    let text = base32_text(s);
    if s.len() == 0 {
        assert(base32_decoded(n) =~= s);
    } else if s.len() <= 5 {
        lemma_base32_group(s);
        assert forall|i: int| 0 <= i < n.len() implies #[trigger] n[i] < 32 && text[i]
            == base32_char(n[i] as u64) by {
            lemma_mask(bits40(s) >> ((35 - 5 * i) as u64));
        }
    } else {
        let head = s.take(5);
        let tail = s.skip(5);
        lemma_text32(tail);
        lemma_base32_group(head);
        let first = base32_numbers(head);
        assert forall|i: int| 0 <= i < n.len() implies #[trigger] n[i] < 32 && text[i]
            == base32_char(n[i] as u64) by {
            if i < 8 {
                lemma_mask(bits40(head) >> ((35 - 5 * i) as u64));
                assert(n[i] == first[i]);
            } else {
                assert(n[i] == all_numbers32(tail)[i - 8]);
                assert(text[i] == base32_text(tail)[i - 8]);
            }
        }
        assert forall|i: int| n.len() <= i < text.len() implies #[trigger] text[i] == 0x3d by {
            assert(text[i] == base32_text(tail)[i - 8]);
        }
        assert(n.take(8) =~= first);
        assert(n.skip(8) =~= all_numbers32(tail));
        assert(base32_decoded(n) =~= head + tail);
        assert(head + tail =~= s);
    }
}

proof fn lemma_text64(s: Seq<u8>)
    ensures
        ({
            let n = all_numbers64(s);
            let text = base64_text(s);
            &&& n.len() % 4 == 0 || n.len() % 4 == 2 || n.len() % 4 == 3
            &&& text.len() == n.len() + (4 - n.len() as int % 4) % 4
            &&& forall|i: int| 0 <= i < n.len() ==> #[trigger] n[i] < 64 && text[i] == base64_char(
                n[i] as u64,
            )
            &&& forall|i: int| n.len() <= i < text.len() ==> #[trigger] text[i] == 0x3d
            &&& base64_decoded(n) == s
        }),
    decreases s.len(),
{
    let n = all_numbers64(s);
    let text = base64_text(s);
    if s.len() == 0 {
        assert(base64_decoded(n) =~= s);
    } else if s.len() <= 3 {
        lemma_base64_group(s);
        assert forall|i: int| 0 <= i < n.len() implies #[trigger] n[i] < 64 && text[i]
            == base64_char(n[i] as u64) by {
            lemma_mask(bits24(s) >> ((18 - 6 * i) as u64));
        }
    } else {
        let head = s.take(3);
        let tail = s.skip(3);
        lemma_text64(tail);
        lemma_base64_group(head);
        let first = base64_numbers(head);
        assert forall|i: int| 0 <= i < n.len() implies #[trigger] n[i] < 64 && text[i]
            == base64_char(n[i] as u64) by {
            if i < 4 {
                lemma_mask(bits24(head) >> ((18 - 6 * i) as u64));
                assert(n[i] == first[i]);
            } else {
                assert(n[i] == all_numbers64(tail)[i - 4]);
                assert(text[i] == base64_text(tail)[i - 4]);
            }
        }
        assert forall|i: int| n.len() <= i < text.len() implies #[trigger] text[i] == 0x3d by {
            assert(text[i] == base64_text(tail)[i - 4]);
        }
        assert(n.take(4) =~= first);
        assert(n.skip(4) =~= all_numbers64(tail));
        assert(base64_decoded(n) =~= head + tail);
        assert(head + tail =~= s);
    }
}

/// What Base16 writes of octets is read as those octets.
pub proof fn lemma_base16_round_trip(s: Seq<u8>)
    ensures
        base16_text(s).len() == 2 * s.len(),
        all_base16(base16_text(s)),
        base16_decoded(values16(base16_text(s))) == s,
    decreases s.len(),
{
    if s.len() == 0 {
        assert(base16_decoded(values16(base16_text(s))) =~= s);
    } else {
        let tail = s.skip(1);
        lemma_base16_round_trip(tail);
        lemma_nibbles(s[0]);
        lemma_base16_char((s[0] >> 4) as u64);
        lemma_base16_char((s[0] & 0x0f) as u64);
        let text = base16_text(s);
        assert forall|i: int| 0 <= i < text.len() implies base16_value(#[trigger] text[i]) is Some by {
            if i >= 2 {
                assert(text[i] == base16_text(tail)[i - 2]);
            }
        }
        let v = values16(text);
        assert(v.skip(2) =~= values16(base16_text(tail)));
        assert(seq![s[0]] + tail =~= s);
    }
}

/// What Base32 writes of octets is read as those octets.
pub proof fn lemma_base32_round_trip(s: Seq<u8>)
    ensures
        ({
            let text = base32_text(s);
            &&& unpadded(text, 8) matches Some(digits) && all_base32(digits) && (digits.len() % 8
                == 0 || digits.len() % 8 == 2 || digits.len() % 8 == 4 || digits.len() % 8 == 5
                || digits.len() % 8 == 7) && base32_decoded(values32(digits)) == s
        }),
{
    lemma_text32(s);
    let n = all_numbers32(s);
    let text = base32_text(s);
    assert forall|i: int| 0 <= i < n.len() implies base32_value(#[trigger] text[i]) == Some(n[i])
        && text[i] != 0x3d by {
        lemma_base32_char(n[i] as u64);
    }
    lemma_position_is(text, 0x3d, 0, n.len() as int);
    assert(values32(text.take(n.len() as int)) =~= n);
}

/// What Base64 writes of octets is read as those octets.
pub proof fn lemma_base64_round_trip(s: Seq<u8>)
    ensures
        ({
            let text = base64_text(s);
            &&& unpadded(text, 4) matches Some(digits) && all_base64(digits) && (digits.len() % 4
                == 0 || digits.len() % 4 == 2 || digits.len() % 4 == 3) && base64_decoded(
                values64(digits),
            ) == s
        }),
{
    lemma_text64(s);
    let n = all_numbers64(s);
    let text = base64_text(s);
    assert forall|i: int| 0 <= i < n.len() implies base64_value(#[trigger] text[i]) == Some(n[i])
        && text[i] != 0x3d by {
        lemma_base64_char(n[i] as u64);
    }
    lemma_position_is(text, 0x3d, 0, n.len() as int);
    assert(values64(text.take(n.len() as int)) =~= n);
}

/// Base32 and Base64 write ASCII alone.
pub proof fn lemma_texts_are_ascii(s: Seq<u8>)
    ensures
        is_ascii(base16_text(s)),
        is_ascii(base32_text(s)),
        is_ascii(base64_text(s)),
{
    lemma_text32(s);
    lemma_text64(s);
    lemma_base16_round_trip(s);
    let a = base16_text(s);
    assert forall|i: int| 0 <= i < a.len() implies #[trigger] a[i] < 0x80 by {
        assert(base16_value(a[i]) is Some);
    }
    let b = base32_text(s);
    assert forall|i: int| 0 <= i < b.len() implies #[trigger] b[i] < 0x80 by {
        if i < all_numbers32(s).len() {
            lemma_base32_char(all_numbers32(s)[i] as u64);
        }
    }
    let c = base64_text(s);
    assert forall|i: int| 0 <= i < c.len() implies #[trigger] c[i] < 0x80 by {
        if i < all_numbers64(s).len() {
            lemma_base64_char(all_numbers64(s)[i] as u64);
        }
    }
}

/// Writes octets in Base16, in lower case.
pub fn encode16(s: &[u8]) -> (r: Vec<u8>)
    ensures
        r@ == base16_text(s@),
{
    let mut out: Vec<u8> = Vec::new();
    let mut i: usize = 0;
    assert(s@.skip(0) =~= s@);
    assert(out@ + base16_text(s@) =~= base16_text(s@));
    while i < s.len()
        invariant
            i <= s.len(),
            out@ + base16_text(s@.skip(i as int)) == base16_text(s@),
        decreases s.len() - i,
    {
        let ghost before = out@;
        let ghost rest = s@.skip(i as int);
        let b = s[i];
        proof {
            lemma_nibbles(b);
            assert(rest.skip(1) =~= s@.skip(i + 1));
        }
        out.push(char16((b >> 4) as u64));
        out.push(char16((b & 0x0f) as u64));
        i = i + 1;
        assert(out@ + base16_text(s@.skip(i as int)) =~= before + base16_text(rest));
    }
    assert(out@ =~= base16_text(s@));
    out
}

fn char16(d: u64) -> (r: u8)
    requires
        d < 16,
    ensures
        r == base16_char(d),
{
    if d < 10 {
        0x30 + d as u8
    } else {
        0x61 + (d - 10) as u8
    }
}

fn char32(d: u64) -> (r: u8)
    requires
        d < 32,
    ensures
        r == base32_char(d),
{
    if d < 26 {
        0x41 + d as u8
    } else {
        0x32 + (d - 26) as u8
    }
}

fn char64(d: u64) -> (r: u8)
    requires
        d < 64,
    ensures
        r == base64_char(d),
{
    if d < 26 {
        0x41 + d as u8
    } else if d < 52 {
        0x61 + (d - 26) as u8
    } else if d < 62 {
        0x30 + (d - 52) as u8
    } else if d == 62 {
        0x2b
    } else {
        0x2f
    }
}

fn get_or_zero(s: &[u8], i: usize) -> (r: u64)
    ensures
        r == octet_or_zero(s@, i as int),
        r < 256,
{
    if i < s.len() {
        s[i] as u64
    } else {
        0
    }
}

fn encode_group32(s: &[u8], out: &mut Vec<u8>)
    requires
        0 < s.len() <= 5,
    ensures
        final(out)@ == old(out)@ + base32_group(s@),
{
    let bits: u64 = (get_or_zero(s, 0) << 32) | (get_or_zero(s, 1) << 24) | (get_or_zero(s, 2)
        << 16) | (get_or_zero(s, 3) << 8) | get_or_zero(s, 4);
    let digits: usize = (8 * s.len() + 4) / 5;
    let mut j: usize = 0;
    while j < 8
        invariant
            j <= 8,
            0 < s.len() <= 5,
            bits == bits40(s@),
            digits == base32_digits(s.len() as int),
            out@ == old(out)@ + base32_group(s@).take(j as int),
        decreases 8 - j,
    {
        if j < digits {
            let shift: u64 = (35 - 5 * j) as u64;
            proof {
                lemma_mask(bits >> shift);
            }
            out.push(char32((bits >> shift) & 31));
        } else {
            out.push(0x3d);
        }
        j = j + 1;
        assert(out@ =~= old(out)@ + base32_group(s@).take(j as int));
    }
    assert(base32_group(s@).take(8) =~= base32_group(s@));
}

fn encode_group64(s: &[u8], out: &mut Vec<u8>)
    requires
        0 < s.len() <= 3,
    ensures
        final(out)@ == old(out)@ + base64_group(s@),
{
    let bits: u64 = (get_or_zero(s, 0) << 16) | (get_or_zero(s, 1) << 8) | get_or_zero(s, 2);
    let digits: usize = (8 * s.len() + 5) / 6;
    let mut j: usize = 0;
    while j < 4
        invariant
            j <= 4,
            0 < s.len() <= 3,
            bits == bits24(s@),
            digits == base64_digits(s.len() as int),
            out@ == old(out)@ + base64_group(s@).take(j as int),
        decreases 4 - j,
    {
        if j < digits {
            let shift: u64 = (18 - 6 * j) as u64;
            proof {
                lemma_mask(bits >> shift);
            }
            out.push(char64((bits >> shift) & 63));
        } else {
            out.push(0x3d);
        }
        j = j + 1;
        assert(out@ =~= old(out)@ + base64_group(s@).take(j as int));
    }
    assert(base64_group(s@).take(4) =~= base64_group(s@));
}

/// Writes octets in Base32, padded with `=`.
pub fn encode32(s: &[u8]) -> (r: Vec<u8>)
    ensures
        r@ == base32_text(s@),
{
    let mut out: Vec<u8> = Vec::new();
    let mut from: usize = 0;
    assert(s@.skip(0) =~= s@);
    assert(out@ + base32_text(s@) =~= base32_text(s@));
    while s.len() - from > 5
        invariant
            from <= s.len(),
            out@ + base32_text(s@.skip(from as int)) == base32_text(s@),
        decreases s.len() - from,
    {
        let ghost before = out@;
        let ghost rest = s@.skip(from as int);
        let group = slice_subrange(s, from, from + 5);
        proof {
            assert(rest.take(5) =~= group@);
            assert(rest.skip(5) =~= s@.skip(from + 5));
        }
        encode_group32(group, &mut out);
        from = from + 5;
        assert(out@ + base32_text(s@.skip(from as int)) =~= before + base32_text(rest));
    }
    if from < s.len() {
        let group = slice_subrange(s, from, s.len());
        assert(group@ =~= s@.skip(from as int));
        encode_group32(group, &mut out);
    } else {
        assert(out@ + Seq::empty() =~= out@);
    }
    out
}

/// Writes octets in Base64, padded with `=`.
pub fn encode64(s: &[u8]) -> (r: Vec<u8>)
    ensures
        r@ == base64_text(s@),
{
    let mut out: Vec<u8> = Vec::new();
    let mut from: usize = 0;
    assert(s@.skip(0) =~= s@);
    assert(out@ + base64_text(s@) =~= base64_text(s@));
    while s.len() - from > 3
        invariant
            from <= s.len(),
            out@ + base64_text(s@.skip(from as int)) == base64_text(s@),
        decreases s.len() - from,
    {
        let ghost before = out@;
        let ghost rest = s@.skip(from as int);
        let group = slice_subrange(s, from, from + 3);
        proof {
            assert(rest.take(3) =~= group@);
            assert(rest.skip(3) =~= s@.skip(from + 3));
        }
        encode_group64(group, &mut out);
        from = from + 3;
        assert(out@ + base64_text(s@.skip(from as int)) =~= before + base64_text(rest));
    }
    if from < s.len() {
        let group = slice_subrange(s, from, s.len());
        assert(group@ =~= s@.skip(from as int));
        encode_group64(group, &mut out);
    } else {
        assert(out@ + Seq::empty() =~= out@);
    }
    out
}

/// The number that a Base16 digit stands for.
pub fn digit16(b: u8) -> (r: Option<u8>)
    ensures
        r == base16_value(b),
{
    if 0x30 <= b && b <= 0x39 {
        Some(b - 0x30)
    } else if 0x61 <= b && b <= 0x66 {
        Some(b - 0x61 + 10)
    } else if 0x41 <= b && b <= 0x46 {
        Some(b - 0x41 + 10)
    } else {
        None
    }
}

/// The numbers that Base16 digits stand for, where every character is one.
pub fn numbers16(s: &[u8]) -> (r: Option<Vec<u8>>)
    ensures
        match r {
            Some(numbers) => all_base16(s@) && numbers@ == values16(s@),
            None => !all_base16(s@),
        },
{
    let mut out: Vec<u8> = Vec::new();
    let mut i: usize = 0;
    while i < s.len()
        invariant
            i <= s.len(),
            out@ == values16(s@.take(i as int)),
            forall|j: int| 0 <= j < i ==> base16_value(#[trigger] s@[j]) is Some,
        decreases s.len() - i,
    {
        match digit16(s[i]) {
            Some(d) => {
                out.push(d);
            },
            None => {
                assert(base16_value(s@[i as int]) is None);
                return None;
            },
        }
        i = i + 1;
        assert(out@ =~= values16(s@.take(i as int)));
    }
    assert(s@.take(s.len() as int) =~= s@);
    Some(out)
}

/// The number that a Base32 digit stands for.
pub fn digit32(b: u8) -> (r: Option<u8>)
    ensures
        r == base32_value(b),
{
    if 0x41 <= b && b <= 0x5a {
        Some(b - 0x41)
    } else if 0x61 <= b && b <= 0x7a {
        Some(b - 0x61)
    } else if 0x32 <= b && b <= 0x37 {
        Some(b - 0x32 + 26)
    } else {
        None
    }
}

/// The numbers that Base32 digits stand for, where every character is one.
pub fn numbers32(s: &[u8]) -> (r: Option<Vec<u8>>)
    ensures
        match r {
            Some(numbers) => all_base32(s@) && numbers@ == values32(s@),
            None => !all_base32(s@),
        },
{
    let mut out: Vec<u8> = Vec::new();
    let mut i: usize = 0;
    while i < s.len()
        invariant
            i <= s.len(),
            out@ == values32(s@.take(i as int)),
            forall|j: int| 0 <= j < i ==> base32_value(#[trigger] s@[j]) is Some,
        decreases s.len() - i,
    {
        match digit32(s[i]) {
            Some(d) => {
                out.push(d);
            },
            None => {
                assert(base32_value(s@[i as int]) is None);
                return None;
            },
        }
        i = i + 1;
        assert(out@ =~= values32(s@.take(i as int)));
    }
    assert(s@.take(s.len() as int) =~= s@);
    Some(out)
}

/// The number that a Base64 digit stands for.
pub fn digit64(b: u8) -> (r: Option<u8>)
    ensures
        r == base64_value(b),
{
    if 0x41 <= b && b <= 0x5a {
        Some(b - 0x41)
    } else if 0x61 <= b && b <= 0x7a {
        Some(b - 0x61 + 26)
    } else if 0x30 <= b && b <= 0x39 {
        Some(b - 0x30 + 52)
    } else if b == 0x2b || b == 0x2d {
        Some(62)
    } else if b == 0x2f || b == 0x5f {
        Some(63)
    } else {
        None
    }
}

/// The numbers that Base64 digits stand for, where every character is one.
pub fn numbers64(s: &[u8]) -> (r: Option<Vec<u8>>)
    ensures
        match r {
            Some(numbers) => all_base64(s@) && numbers@ == values64(s@),
            None => !all_base64(s@),
        },
{
    let mut out: Vec<u8> = Vec::new();
    let mut i: usize = 0;
    while i < s.len()
        invariant
            i <= s.len(),
            out@ == values64(s@.take(i as int)),
            forall|j: int| 0 <= j < i ==> base64_value(#[trigger] s@[j]) is Some,
        decreases s.len() - i,
    {
        match digit64(s[i]) {
            Some(d) => {
                out.push(d);
            },
            None => {
                assert(base64_value(s@[i as int]) is None);
                return None;
            },
        }
        i = i + 1;
        assert(out@ =~= values64(s@.take(i as int)));
    }
    assert(s@.take(s.len() as int) =~= s@);
    Some(out)
}

/// Finds the digits of a text whose encoding writes `group` characters at a time.
pub fn without_padding<'a>(s: &'a [u8], group: usize) -> (r: Option<&'a [u8]>)
    requires
        0 < group,
    ensures
        match r {
            Some(digits) => unpadded(s@, group as int) == Some(digits@),
            None => unpadded(s@, group as int) is None,
        },
{
    let end = find(s, 0x3d, 0);
    let mut i: usize = end;
    while i < s.len()
        invariant
            end <= i <= s.len(),
            end == position(s@, 0x3d, 0),
            forall|j: int| end <= j < i ==> #[trigger] s@[j] == 0x3d,
        decreases s.len() - i,
    {
        if s[i] != 0x3d {
            assert(s@[i as int] != 0x3d);
            return None;
        }
        i = i + 1;
    }
    let padding: usize = s.len() - end;
    if padding == 0 || padding == (group - end % group) % group {
        let digits = slice_subrange(s, 0, end);
        assert(digits@ =~= s@.take(end as int));
        Some(digits)
    } else {
        None
    }
}

/// The octets that pairs of Base16 digits hold.
pub fn decode16(d: &[u8]) -> (r: Vec<u8>)
    ensures
        r@ == base16_decoded(d@),
{
    let mut out: Vec<u8> = Vec::new();
    let mut from: usize = 0;
    assert(d@.skip(0) =~= d@);
    assert(out@ + base16_decoded(d@) =~= base16_decoded(d@));
    while d.len() - from >= 2
        invariant
            from <= d.len(),
            out@ + base16_decoded(d@.skip(from as int)) == base16_decoded(d@),
        decreases d.len() - from,
    {
        let ghost before = out@;
        let ghost rest = d@.skip(from as int);
        assert(rest.skip(2) =~= d@.skip(from + 2));
        out.push((d[from] << 4) | d[from + 1]);
        from = from + 2;
        assert(out@ + base16_decoded(d@.skip(from as int)) =~= before + base16_decoded(rest));
    }
    assert(out@ + Seq::empty() =~= out@);
    out
}

fn decode_group32(d: &[u8], out: &mut Vec<u8>)
    requires
        d.len() <= 8,
    ensures
        final(out)@ == old(out)@ + base32_octets(d@),
{
    let bits: u64 = (get_or_zero(d, 0) << 35) | (get_or_zero(d, 1) << 30) | (get_or_zero(d, 2)
        << 25) | (get_or_zero(d, 3) << 20) | (get_or_zero(d, 4) << 15) | (get_or_zero(d, 5) << 10)
        | (get_or_zero(d, 6) << 5) | get_or_zero(d, 7);
    let count: usize = d.len() * 5 / 8;
    let mut c: usize = 0;
    while c < count
        invariant
            c <= count <= 5,
            bits == digits40(d@),
            count == d.len() * 5 / 8,
            out@ == old(out)@ + base32_octets(d@).take(c as int),
        decreases count - c,
    {
        let shift: u64 = (32 - 8 * c) as u64;
        proof {
            lemma_mask(bits >> shift);
        }
        out.push(((bits >> shift) & 255) as u8);
        c = c + 1;
        assert(out@ =~= old(out)@ + base32_octets(d@).take(c as int));
    }
    assert(base32_octets(d@).take(count as int) =~= base32_octets(d@));
}

/// The octets that the numbers of Base32 digits hold.
pub fn decode32(d: &[u8]) -> (r: Vec<u8>)
    ensures
        r@ == base32_decoded(d@),
{
    let mut out: Vec<u8> = Vec::new();
    let mut from: usize = 0;
    assert(d@.skip(0) =~= d@);
    assert(out@ + base32_decoded(d@) =~= base32_decoded(d@));
    while d.len() - from > 8
        invariant
            from <= d.len(),
            out@ + base32_decoded(d@.skip(from as int)) == base32_decoded(d@),
        decreases d.len() - from,
    {
        let ghost before = out@;
        let ghost rest = d@.skip(from as int);
        let group = slice_subrange(d, from, from + 8);
        proof {
            assert(rest.take(8) =~= group@);
            assert(rest.skip(8) =~= d@.skip(from + 8));
        }
        decode_group32(group, &mut out);
        from = from + 8;
        assert(out@ + base32_decoded(d@.skip(from as int)) =~= before + base32_decoded(rest));
    }
    let group = slice_subrange(d, from, d.len());
    assert(group@ =~= d@.skip(from as int));
    decode_group32(group, &mut out);
    out
}

fn decode_group64(d: &[u8], out: &mut Vec<u8>)
    requires
        d.len() <= 4,
    ensures
        final(out)@ == old(out)@ + base64_octets(d@),
{
    let bits: u64 = (get_or_zero(d, 0) << 18) | (get_or_zero(d, 1) << 12) | (get_or_zero(d, 2)
        << 6) | get_or_zero(d, 3);
    let count: usize = d.len() * 6 / 8;
    let mut c: usize = 0;
    while c < count
        invariant
            c <= count <= 3,
            bits == digits24(d@),
            count == d.len() * 6 / 8,
            out@ == old(out)@ + base64_octets(d@).take(c as int),
        decreases count - c,
    {
        let shift: u64 = (16 - 8 * c) as u64;
        proof {
            lemma_mask(bits >> shift);
        }
        out.push(((bits >> shift) & 255) as u8);
        c = c + 1;
        assert(out@ =~= old(out)@ + base64_octets(d@).take(c as int));
    }
    assert(base64_octets(d@).take(count as int) =~= base64_octets(d@));
}

/// The octets that the numbers of Base64 digits hold.
pub fn decode64(d: &[u8]) -> (r: Vec<u8>)
    ensures
        r@ == base64_decoded(d@),
{
    let mut out: Vec<u8> = Vec::new();
    let mut from: usize = 0;
    assert(d@.skip(0) =~= d@);
    assert(out@ + base64_decoded(d@) =~= base64_decoded(d@));
    while d.len() - from > 4
        invariant
            from <= d.len(),
            out@ + base64_decoded(d@.skip(from as int)) == base64_decoded(d@),
        decreases d.len() - from,
    {
        let ghost before = out@;
        let ghost rest = d@.skip(from as int);
        let group = slice_subrange(d, from, from + 4);
        proof {
            assert(rest.take(4) =~= group@);
            assert(rest.skip(4) =~= d@.skip(from + 4));
        }
        decode_group64(group, &mut out);
        from = from + 4;
        assert(out@ + base64_decoded(d@.skip(from as int)) =~= before + base64_decoded(rest));
    }
    let group = slice_subrange(d, from, d.len());
    assert(group@ =~= d@.skip(from as int));
    decode_group64(group, &mut out);
    out
}

} // verus!
