//! Internet addresses.

use crate::octets::{
    append, ascii_string, decimal, decimal_octets, decimal_value, find, hex_value, is_decimal,
    is_digit, is_hex, is_hex_digit, lemma_ascii_text, lemma_decimal, lemma_position,
    lemma_position_is, lower, lowered, octets, parse_decimal, parse_hex, position,
    same_but_for_case,
};
use vstd::prelude::*;
use vstd::slice::slice_subrange;

verus! {

/// An IPv4 or IPv6 address.
#[derive(Clone, Copy, Debug, Hash, PartialEq, Eq, Structural)]
pub enum IpAddress {
    /// An IPv4 address, as its four octets.
    V4(u8, u8, u8, u8),
    /// An IPv6 address, as its eight groups of 16 bits.
    V6(u16, u16, u16, u16, u16, u16, u16, u16),
}

/// The number that a part of a dotted IPv4 address stands for: up to three digits, without a
/// leading zero.
pub open spec fn octet_of(s: Seq<u8>) -> Option<u8> {
    if is_decimal(s) && s.len() <= 3 && (s.len() == 1 || s[0] != 0x30) && decimal_value(s) <= 255 {
        Some(decimal_value(s) as u8)
    } else {
        None
    }
}

/// The octets that a dotted IPv4 address stands for.
pub open spec fn dotted(s: Seq<u8>) -> Option<(u8, u8, u8, u8)> {
    let a = position(s, 0x2e, 0);
    let b = position(s, 0x2e, a + 1);
    let c = position(s, 0x2e, b + 1);
    if a < s.len() && b < s.len() && c < s.len() {
        match (
            octet_of(s.subrange(0, a)),
            octet_of(s.subrange(a + 1, b)),
            octet_of(s.subrange(b + 1, c)),
            octet_of(s.subrange(c + 1, s.len() as int)),
        ) {
            (Some(w), Some(x), Some(y), Some(z)) => Some((w, x, y, z)),
            _ => None,
        }
    } else {
        None
    }
}

/// The number that a group of an IPv6 address stands for: up to four hexadecimal digits.
pub open spec fn group_of(s: Seq<u8>) -> Option<u16> {
    if is_hex(s) && s.len() <= 4 && hex_value(s) <= 0xffff {
        Some(hex_value(s) as u16)
    } else {
        None
    }
}

/// Two octets as a group.
pub open spec fn pair(a: u8, b: u8) -> u16 {
    (a * 256 + b) as u16
}

/// The groups that stand between colons from position `from` on. The last two may be written as a
/// dotted IPv4 address where that is allowed.
pub open spec fn groups_from(s: Seq<u8>, from: int, v4: bool) -> Option<Seq<u16>>
    decreases s.len() - from,
{
    let end = position(s, 0x3a, from);
    if from < 0 || !(from <= end <= s.len()) {
        None
    } else {
        let part = s.subrange(from, end);
        if end == s.len() {
            match group_of(part) {
                Some(group) => Some(seq![group]),
                None => match dotted(part) {
                    Some((a, b, c, d)) => if v4 {
                        Some(seq![pair(a, b), pair(c, d)])
                    } else {
                        None
                    },
                    None => None,
                },
            }
        } else {
            match (group_of(part), groups_from(s, end + 1, v4)) {
                (Some(group), Some(rest)) => Some(seq![group] + rest),
                _ => None,
            }
        }
    }
}

/// The groups of a side of an ellipsis, which may have none.
pub open spec fn side(s: Seq<u8>, v4: bool) -> Option<Seq<u16>> {
    if s.len() == 0 {
        Some(Seq::empty())
    } else {
        groups_from(s, 0, v4)
    }
}

/// Where the first `::` from `from` on stands, or the length.
pub open spec fn ellipsis(s: Seq<u8>, from: int) -> int
    decreases s.len() - from,
{
    if from < 0 || from >= s.len() {
        s.len() as int
    } else if from + 1 < s.len() && s[from] == 0x3a && s[from + 1] == 0x3a {
        from
    } else {
        ellipsis(s, from + 1)
    }
}

/// Zeros.
pub open spec fn zeros(n: nat) -> Seq<u16> {
    Seq::new(n, |i: int| 0u16)
}

/// The eight groups that the text of an IPv6 address stands for. An ellipsis stands for at least
/// one group.
pub open spec fn groups_of(s: Seq<u8>) -> Option<Seq<u16>> {
    let at = ellipsis(s, 0);
    if at >= s.len() {
        match groups_from(s, 0, true) {
            Some(groups) => if groups.len() == 8 {
                Some(groups)
            } else {
                None
            },
            None => None,
        }
    } else {
        match (side(s.take(at), false), side(s.skip(at + 2), true)) {
            (Some(left), Some(right)) => if left.len() + right.len() <= 7 {
                Some(left + zeros((8 - left.len() - right.len()) as nat) + right)
            } else {
                None
            },
            _ => None,
        }
    }
}

/// The address of eight groups.
pub open spec fn of_groups(g: Seq<u16>) -> IpAddress {
    IpAddress::V6(g[0], g[1], g[2], g[3], g[4], g[5], g[6], g[7])
}

/// The address that a text spells.
pub open spec fn address_of(s: Seq<u8>) -> Option<IpAddress> {
    match dotted(s) {
        Some((a, b, c, d)) => Some(IpAddress::V4(a, b, c, d)),
        None => match groups_of(s) {
            Some(groups) => Some(of_groups(groups)),
            None => None,
        },
    }
}

/// The lower-case hexadecimal digit of a number.
pub open spec fn hex_digit(n: nat) -> u8 {
    if n < 10 {
        (0x30 + n) as u8
    } else {
        (0x57 + n) as u8
    }
}

/// The shortest hexadecimal spelling of a number.
pub open spec fn hex(n: nat) -> Seq<u8>
    decreases n,
{
    if n < 16 {
        seq![hex_digit(n)]
    } else {
        hex(n / 16).push(hex_digit(n % 16))
    }
}

/// Groups with a colon between each two.
pub open spec fn colon_separated(g: Seq<u16>) -> Seq<u8>
    decreases g.len(),
{
    if g.len() == 0 {
        Seq::empty()
    } else if g.len() == 1 {
        hex(g[0] as nat)
    } else {
        hex(g[0] as nat) + seq![0x3au8] + colon_separated(g.skip(1))
    }
}

/// Four octets with a dot between each two.
pub open spec fn dot_separated(a: u8, b: u8, c: u8, d: u8) -> Seq<u8> {
    decimal(a as nat) + seq![0x2eu8] + decimal(b as nat) + seq![0x2eu8] + decimal(c as nat) + seq![
        0x2eu8,
    ] + decimal(d as nat)
}

/// How many groups in a row are zero from `i` on.
pub open spec fn zero_run(g: Seq<u16>, i: int) -> nat
    decreases g.len() - i,
{
    if 0 <= i < g.len() && g[i] == 0 {
        1 + zero_run(g, i + 1)
    } else {
        0
    }
}

/// Where the longest run of zeros starts and how long it is, looking from `i` on and keeping what
/// is known. Of two runs of the same length the first counts.
pub open spec fn longest_run(g: Seq<u16>, i: int, start: int, len: nat) -> (int, nat)
    decreases g.len() - i,
{
    if i < 0 || i >= g.len() {
        (start, len)
    } else if zero_run(g, i) > len {
        longest_run(g, i + 1, i, zero_run(g, i))
    } else {
        longest_run(g, i + 1, start, len)
    }
}

/// Whether groups are those of an IPv4 address mapped into IPv6.
pub open spec fn is_mapped(g: Seq<u16>) -> bool {
    g[0] == 0 && g[1] == 0 && g[2] == 0 && g[3] == 0 && g[4] == 0 && g[5] == 0xffff
}

/// The text of an IPv6 address: an ellipsis for the longest run of two or more zeros, and a dotted
/// address behind the prefix of a mapped one.
pub open spec fn groups_text(g: Seq<u16>) -> Seq<u8> {
    if is_mapped(g) {
        seq![0x3au8, 0x3a, 0x66, 0x66, 0x66, 0x66, 0x3a] + dot_separated(
            (g[6] / 256) as u8,
            (g[6] % 256) as u8,
            (g[7] / 256) as u8,
            (g[7] % 256) as u8,
        )
    } else {
        let (start, len) = longest_run(g, 0, 0, 0);
        if len > 1 {
            colon_separated(g.take(start)) + seq![0x3au8, 0x3au8] + colon_separated(
                g.skip(start + len),
            )
        } else {
            colon_separated(g)
        }
    }
}

/// The text of an address.
pub open spec fn address_text(ip: IpAddress) -> Seq<u8> {
    match ip {
        IpAddress::V4(a, b, c, d) => dot_separated(a, b, c, d),
        IpAddress::V6(a, b, c, d, e, f, g, h) => groups_text(seq![a, b, c, d, e, f, g, h]),
    }
}

proof fn lemma_octet(n: u8)
    ensures
        octet_of(decimal(n as nat)) == Some(n),
        forall|i: int|
            0 <= i < decimal(n as nat).len() ==> is_digit(#[trigger] decimal(n as nat)[i]),
{
    lemma_decimal(n as nat);
    reveal_with_fuel(decimal, 4);
    let m = n as nat;
    if m >= 100 {
        assert(decimal(m) == decimal(m / 10 / 10).push((0x30 + m / 10 % 10) as u8).push(
            (0x30 + m % 10) as u8,
        ));
        assert(m / 10 / 10 < 10);
    } else if m >= 10 {
        assert(m / 10 < 10);
    }
}

proof fn lemma_dotted(a: u8, b: u8, c: u8, d: u8)
    ensures
        dotted(dot_separated(a, b, c, d)) == Some((a, b, c, d)),
        forall|i: int|
            0 <= i < dot_separated(a, b, c, d).len() ==> is_digit(
                #[trigger] dot_separated(a, b, c, d)[i],
            ) || dot_separated(a, b, c, d)[i] == 0x2e,
        0 < position(dot_separated(a, b, c, d), 0x2e, 0) < dot_separated(a, b, c, d).len(),
{
    lemma_octet(a);
    lemma_octet(b);
    lemma_octet(c);
    lemma_octet(d);
    let s = dot_separated(a, b, c, d);
    let w = decimal(a as nat);
    let x = decimal(b as nat);
    let y = decimal(c as nat);
    let z = decimal(d as nat);
    let i = w.len() as int;
    let j = i + 1 + x.len();
    let k = j + 1 + y.len();
    assert forall|n: int| 0 <= n < s.len() && n != i && n != j && n != k implies is_digit(
        #[trigger] s[n],
    ) by {
        if n < i {
            assert(s[n] == w[n]);
        } else if n < j {
            assert(s[n] == x[n - i - 1]);
        } else if n < k {
            assert(s[n] == y[n - j - 1]);
        } else {
            assert(s[n] == z[n - k - 1]);
        }
    }
    assert(s[i] == 0x2e && s[j] == 0x2e && s[k] == 0x2e);
    lemma_position_is(s, 0x2e, 0, i);
    lemma_position_is(s, 0x2e, i + 1, j);
    lemma_position_is(s, 0x2e, j + 1, k);
    assert(s.subrange(0, i) =~= w);
    assert(s.subrange(i + 1, j) =~= x);
    assert(s.subrange(j + 1, k) =~= y);
    assert(s.subrange(k + 1, s.len() as int) =~= z);
}

proof fn lemma_hex(n: nat)
    ensures
        is_hex(hex(n)),
        hex_value(hex(n)) == n,
        n < 16 ==> hex(n).len() == 1,
        n < 256 ==> hex(n).len() <= 2,
        n < 4096 ==> hex(n).len() <= 3,
        n < 65536 ==> hex(n).len() <= 4,
    decreases n,
{
    if n >= 16 {
        lemma_hex(n / 16);
        let s = hex(n);
        assert(s.drop_last() =~= hex(n / 16));
        assert forall|i: int| 0 <= i < s.len() implies is_hex_digit(#[trigger] s[i]) by {
            if i < s.len() - 1 {
                assert(s[i] == hex(n / 16)[i]);
            }
        }
    } else {
        let s = hex(n);
        assert(s.drop_last() =~= Seq::<u8>::empty());
        assert(hex_value(s.drop_last()) == 0);
    }
}

proof fn lemma_colon_separated(g: Seq<u16>)
    ensures
        ({
            let s = colon_separated(g);
            &&& forall|i: int|
                0 <= i < s.len() ==> is_hex_digit(#[trigger] s[i]) || s[i] == 0x3a
            &&& forall|i: int|
                0 <= i < s.len() - 1 && #[trigger] s[i] == 0x3a ==> s[i + 1] != 0x3a
            &&& g.len() > 0 ==> s.len() > 0 && s[0] != 0x3a && s.last() != 0x3a
            &&& g.len() == 0 ==> s.len() == 0
        }),
    decreases g.len(),
{
    if g.len() > 0 {
        lemma_hex(g[0] as nat);
        let first = hex(g[0] as nat);
        assert(is_hex_digit(first[0]));
        assert(is_hex_digit(first.last()));
        if g.len() > 1 {
            lemma_colon_separated(g.skip(1));
            let s = colon_separated(g);
            let rest = colon_separated(g.skip(1));
            let n = first.len() as int;
            assert forall|i: int| 0 <= i < s.len() implies is_hex_digit(#[trigger] s[i]) || s[i]
                == 0x3a by {
                if i < n {
                    assert(s[i] == first[i]);
                } else if i > n {
                    assert(s[i] == rest[i - n - 1]);
                }
            }
            assert forall|i: int| 0 <= i < s.len() - 1 && #[trigger] s[i] == 0x3a implies s[i + 1]
                != 0x3a by {
                if i < n {
                    assert(s[i] == first[i]);
                    assert(is_hex_digit(first[i]));
                } else if i == n {
                    assert(s[i + 1] == rest[0]);
                } else {
                    assert(s[i] == rest[i - n - 1]);
                    assert(s[i + 1] == rest[i - n]);
                }
            }
            assert(s.last() == rest.last());
        }
    }
}

/// Groups are read back from where they are written behind other octets.
proof fn lemma_groups_read_back(before: Seq<u8>, g: Seq<u16>, v4: bool)
    requires
        g.len() > 0,
    ensures
        groups_from(before + colon_separated(g), before.len() as int, v4) == Some(g),
    decreases g.len(),
{
    let s = before + colon_separated(g);
    let from = before.len() as int;
    let first = hex(g[0] as nat);
    lemma_hex(g[0] as nat);
    assert forall|i: int| from <= i < from + first.len() implies #[trigger] s[i] != 0x3a by {
        assert(s[i] == first[i - from]);
        assert(is_hex_digit(first[i - from]));
    }
    if g.len() == 1 {
        lemma_position_is(s, 0x3a, from, s.len() as int);
        assert(s.subrange(from, s.len() as int) =~= first);
        assert(seq![g[0]] =~= g);
    } else {
        let end = from + first.len();
        assert(s[end] == 0x3a);
        lemma_position_is(s, 0x3a, from, end);
        assert(s.subrange(from, end) =~= first);
        let longer = before + first + seq![0x3au8];
        lemma_groups_read_back(longer, g.skip(1), v4);
        assert(longer + colon_separated(g.skip(1)) =~= s);
        assert(seq![g[0]] + g.skip(1) =~= g);
    }
}

proof fn lemma_ellipsis_is(s: Seq<u8>, from: int, at: int)
    requires
        0 <= from <= at <= s.len(),
        forall|i: int| from <= i < at && i + 1 < s.len() && #[trigger] s[i] == 0x3a
            ==> s[i + 1] != 0x3a,
        at < s.len() ==> at + 1 < s.len() && s[at] == 0x3a && s[at + 1] == 0x3a,
    ensures
        ellipsis(s, from) == at,
    decreases at - from,
{
    if from < at {
        lemma_ellipsis_is(s, from + 1, at);
    }
}

proof fn lemma_zero_run(g: Seq<u16>, i: int)
    requires
        0 <= i <= g.len(),
    ensures
        i + zero_run(g, i) <= g.len(),
        forall|j: int| i <= j < i + zero_run(g, i) ==> #[trigger] g[j] == 0,
    decreases g.len() - i,
{
    if i < g.len() && g[i] == 0 {
        lemma_zero_run(g, i + 1);
    }
}

proof fn lemma_longest_run(g: Seq<u16>, i: int, start: int, len: nat)
    requires
        0 <= i <= g.len(),
        0 <= start,
        start + len <= g.len(),
        forall|j: int| start <= j < start + len ==> #[trigger] g[j] == 0,
    ensures
        ({
            let (s, n) = longest_run(g, i, start, len);
            &&& 0 <= s
            &&& s + n <= g.len()
            &&& forall|j: int| s <= j < s + n ==> #[trigger] g[j] == 0
        }),
    decreases g.len() - i,
{
    if i < g.len() {
        lemma_zero_run(g, i);
        if zero_run(g, i) > len {
            lemma_longest_run(g, i + 1, i, zero_run(g, i));
        } else {
            lemma_longest_run(g, i + 1, start, len);
        }
    }
}

#[verifier::rlimit(40)]
#[verifier::spinoff_prover]
proof fn lemma_mapped_text(g: Seq<u16>)
    requires
        g.len() == 8,
        is_mapped(g),
    ensures
        groups_of(groups_text(g)) == Some(g),
        dotted(groups_text(g)) is None,
        forall|i: int|
            0 <= i < groups_text(g).len() ==> is_hex_digit(#[trigger] groups_text(g)[i])
                || groups_text(g)[i] == 0x3a || groups_text(g)[i] == 0x2e,
        groups_text(g).len() > 0,
{
    let s = groups_text(g);
    let (a, b, c, d) = (
        (g[6] / 256) as u8,
        (g[6] % 256) as u8,
        (g[7] / 256) as u8,
        (g[7] % 256) as u8,
    );
    let head = seq![0x3au8, 0x3a, 0x66, 0x66, 0x66, 0x66, 0x3a];
    let tail = dot_separated(a, b, c, d);
    lemma_dotted(a, b, c, d);
    assert forall|i: int| 0 <= i < s.len() implies is_hex_digit(#[trigger] s[i]) || s[i]
        == 0x3a || s[i] == 0x2e by {
        if i >= 7 {
            assert(s[i] == tail[i - 7]);
        }
    }
    lemma_ellipsis_is(s, 0, 0);
    assert(s.take(0) =~= Seq::empty());
    let right = s.skip(2);
    assert(right =~= seq![0x66u8, 0x66, 0x66, 0x66, 0x3a] + tail);
    lemma_position_is(right, 0x3a, 0, 4);
    assert forall|i: int| 5 <= i < right.len() implies #[trigger] right[i] != 0x3a by {
        assert(right[i] == tail[i - 5]);
    }
    lemma_position_is(right, 0x3a, 5, right.len() as int);
    assert(right.subrange(5, right.len() as int) =~= tail);
    let part = right.subrange(0, 4);
    assert(part =~= seq![0x66u8, 0x66, 0x66, 0x66]);
    assert(hex_value(part) == 0xffff) by {
        reveal_with_fuel(hex_value, 5);
        assert(part.drop_last() =~= seq![0x66u8, 0x66, 0x66]);
        assert(part.drop_last().drop_last() =~= seq![0x66u8, 0x66]);
        assert(part.drop_last().drop_last().drop_last() =~= seq![0x66u8]);
        assert(part.drop_last().drop_last().drop_last().drop_last() =~= Seq::<u8>::empty());
    }
    assert(group_of(part) == Some(0xffffu16));
    let dot = position(tail, 0x2e, 0);
    lemma_position(tail, 0x2e, 0);
    assert(tail[dot] == 0x2e);
    assert(!is_hex_digit(tail[dot]));
    assert(group_of(tail) is None);
    assert(groups_from(right, 5, true) == Some(seq![pair(a, b), pair(c, d)]));
    assert(groups_from(right, 0, true) == Some(seq![0xffffu16] + seq![pair(a, b), pair(c, d)]));
    assert(Seq::<u16>::empty() + zeros(5) + (seq![0xffffu16] + seq![pair(a, b), pair(c, d)])
        =~= g);
    lemma_colon_first(s);
}

#[verifier::rlimit(40)]
#[verifier::spinoff_prover]
proof fn lemma_shortened_text(g: Seq<u16>, start: int, len: nat)
    requires
        g.len() == 8,
        !is_mapped(g),
        (start, len) == longest_run(g, 0, 0, 0),
        len > 1,
    ensures
        groups_of(groups_text(g)) == Some(g),
        dotted(groups_text(g)) is None,
        forall|i: int|
            0 <= i < groups_text(g).len() ==> is_hex_digit(#[trigger] groups_text(g)[i])
                || groups_text(g)[i] == 0x3a || groups_text(g)[i] == 0x2e,
        groups_text(g).len() > 0,
{
    lemma_longest_run(g, 0, 0, 0);
    let s = groups_text(g);
    let left = colon_separated(g.take(start));
    let right = colon_separated(g.skip(start + len));
    lemma_colon_separated(g.take(start));
    lemma_colon_separated(g.skip(start + len));
    let at = left.len() as int;
    assert forall|i: int| 0 <= i < s.len() implies is_hex_digit(#[trigger] s[i]) || s[i]
        == 0x3a || s[i] == 0x2e by {
        if i < at {
            assert(s[i] == left[i]);
        } else if i >= at + 2 {
            assert(s[i] == right[i - at - 2]);
        }
    }
    assert forall|i: int|
        0 <= i < at && i + 1 < s.len() && #[trigger] s[i] == 0x3a implies s[i + 1]
        != 0x3a by {
        assert(s[i] == left[i]);
        if i + 1 < at {
            assert(s[i + 1] == left[i + 1]);
        } else {
            assert(left[i] == left.last());
        }
    }
    assert(s[at] == 0x3a && s[at + 1] == 0x3a);
    lemma_ellipsis_is(s, 0, at);
    assert(s.take(at) =~= left);
    assert(s.skip(at + 2) =~= right);
    if start > 0 {
        lemma_groups_read_back(Seq::empty(), g.take(start), false);
        assert(Seq::<u8>::empty() + left =~= left);
    } else {
        assert(g.take(0) =~= Seq::empty());
    }
    if start + len < 8 {
        lemma_groups_read_back(Seq::empty(), g.skip(start + len), true);
        assert(Seq::<u8>::empty() + right =~= right);
    } else {
        assert(g.skip(start + len) =~= Seq::empty());
    }
    assert(side(left, false) == Some(g.take(start)));
    assert(side(right, true) == Some(g.skip(start + len)));
    assert(g.take(start) + zeros(len) + g.skip(start + len) =~= g);
    if at == 0 {
        lemma_colon_first(s);
    } else {
        lemma_colon_inside(s, at);
    }
}

#[verifier::rlimit(40)]
#[verifier::spinoff_prover]
proof fn lemma_full_text(g: Seq<u16>)
    requires
        g.len() == 8,
        !is_mapped(g),
        longest_run(g, 0, 0, 0).1 <= 1,
    ensures
        groups_of(groups_text(g)) == Some(g),
        dotted(groups_text(g)) is None,
        forall|i: int|
            0 <= i < groups_text(g).len() ==> is_hex_digit(#[trigger] groups_text(g)[i])
                || groups_text(g)[i] == 0x3a || groups_text(g)[i] == 0x2e,
        groups_text(g).len() > 0,
{
    let s = groups_text(g);
    lemma_colon_separated(g);
    lemma_ellipsis_is(s, 0, s.len() as int);
    lemma_groups_read_back(Seq::empty(), g, true);
    assert(Seq::<u8>::empty() + s =~= s);
    let first = hex(g[0] as nat);
    assert(s[first.len() as int] == 0x3a);
    lemma_colon_inside(s, first.len() as int);
}

proof fn lemma_groups_text(g: Seq<u16>)
    requires
        g.len() == 8,
    ensures
        groups_of(groups_text(g)) == Some(g),
        dotted(groups_text(g)) is None,
        forall|i: int|
            0 <= i < groups_text(g).len() ==> is_hex_digit(#[trigger] groups_text(g)[i])
                || groups_text(g)[i] == 0x3a || groups_text(g)[i] == 0x2e,
        groups_text(g).len() > 0,
{
    let (start, len) = longest_run(g, 0, 0, 0);
    if is_mapped(g) {
        lemma_mapped_text(g);
    } else if len > 1 {
        lemma_shortened_text(g, start, len);
    } else {
        lemma_full_text(g);
    }
}

/// A text with a colon in it is no dotted address.
proof fn lemma_colon_inside(s: Seq<u8>, at: int)
    requires
        0 <= at < s.len(),
        s[at] == 0x3a,
    ensures
        dotted(s) is None,
{
    let a = position(s, 0x2e, 0);
    lemma_position(s, 0x2e, 0);
    if a < s.len() {
        let b = position(s, 0x2e, a + 1);
        lemma_position(s, 0x2e, a + 1);
        if b < s.len() {
            let c = position(s, 0x2e, b + 1);
            lemma_position(s, 0x2e, b + 1);
            if c < s.len() {
                if at < a {
                    assert(s.subrange(0, a)[at] == 0x3a);
                    assert(!is_digit(s.subrange(0, a)[at]));
                } else if at < b {
                    assert(s.subrange(a + 1, b)[at - a - 1] == 0x3a);
                    assert(!is_digit(s.subrange(a + 1, b)[at - a - 1]));
                } else if at < c {
                    assert(s.subrange(b + 1, c)[at - b - 1] == 0x3a);
                    assert(!is_digit(s.subrange(b + 1, c)[at - b - 1]));
                } else {
                    let last = s.subrange(c + 1, s.len() as int);
                    assert(last[at - c - 1] == 0x3a);
                    assert(!is_digit(last[at - c - 1]));
                }
            }
        }
    }
}

proof fn lemma_colon_first(s: Seq<u8>)
    requires
        s.len() > 0,
        s[0] == 0x3a,
    ensures
        dotted(s) is None,
{
    lemma_colon_inside(s, 0);
}

/// An address is read back from its text, which holds hexadecimal digits, colons, and dots alone.
pub proof fn lemma_address_reads_back(ip: IpAddress)
    ensures
        address_of(address_text(ip)) == Some(ip),
        address_text(ip).len() > 0,
        forall|i: int|
            0 <= i < address_text(ip).len() ==> is_hex_digit(#[trigger] address_text(ip)[i])
                || address_text(ip)[i] == 0x3a || address_text(ip)[i] == 0x2e,
{
    match ip {
        IpAddress::V4(a, b, c, d) => {
            lemma_dotted(a, b, c, d);
        },
        IpAddress::V6(a, b, c, d, e, f, g, h) => {
            lemma_groups_text(seq![a, b, c, d, e, f, g, h]);
        },
    }
}

fn parse_octet(s: &[u8]) -> (r: Option<u8>)
    ensures
        r == octet_of(s@),
{
    if s.len() > 3 || (s.len() > 1 && s[0] == 0x30) {
        return None;
    }
    match parse_decimal(s) {
        Some(n) => if n <= 255 {
            Some(n as u8)
        } else {
            None
        },
        None => None,
    }
}

fn parse_dotted(s: &[u8]) -> (r: Option<(u8, u8, u8, u8)>)
    ensures
        r == dotted(s@),
{
    proof {
        lemma_position(s@, 0x2e, 0);
    }
    let a = find(s, 0x2e, 0);
    if a == s.len() {
        return None;
    }
    proof {
        lemma_position(s@, 0x2e, a + 1);
    }
    let b = find(s, 0x2e, a + 1);
    if b == s.len() {
        return None;
    }
    proof {
        lemma_position(s@, 0x2e, b + 1);
    }
    let c = find(s, 0x2e, b + 1);
    if c == s.len() {
        return None;
    }
    let w = parse_octet(slice_subrange(s, 0, a));
    let x = parse_octet(slice_subrange(s, a + 1, b));
    let y = parse_octet(slice_subrange(s, b + 1, c));
    let z = parse_octet(slice_subrange(s, c + 1, s.len()));
    match (w, x, y, z) {
        (Some(w), Some(x), Some(y), Some(z)) => Some((w, x, y, z)),
        _ => None,
    }
}

fn parse_group(s: &[u8]) -> (r: Option<u16>)
    ensures
        r == group_of(s@),
{
    if s.len() > 4 {
        return None;
    }
    match parse_hex(s, 0xffff) {
        Some(n) => Some(n as u16),
        None => None,
    }
}

fn parse_groups(s: &[u8], v4: bool) -> (r: Option<Vec<u16>>)
    ensures
        match r {
            Some(groups) => side(s@, v4) == Some(groups@),
            None => side(s@, v4) is None,
        },
{
    let mut groups: Vec<u16> = Vec::new();
    if s.len() == 0 {
        assert(groups@ =~= Seq::empty());
        return Some(groups);
    }
    let mut from: usize = 0;
    loop
        invariant
            from <= s.len(),
            s.len() > 0,
            groups_from(s@, 0, v4) == (match groups_from(s@, from as int, v4) {
                Some(rest) => Some(groups@ + rest),
                None => None,
            }),
        decreases s.len() - from,
    {
        proof {
            lemma_position(s@, 0x3a, from as int);
        }
        let end = find(s, 0x3a, from);
        let part = slice_subrange(s, from, end);
        let group = parse_group(part);
        if end == s.len() {
            match group {
                Some(group) => {
                    groups.push(group);
                    return Some(groups);
                },
                None => {
                    match parse_dotted(part) {
                        Some((a, b, c, d)) => {
                            if !v4 {
                                return None;
                            }
                            let ghost before = groups@;
                            groups.push(a as u16 * 256 + b as u16);
                            groups.push(c as u16 * 256 + d as u16);
                            assert(groups@ =~= before + seq![pair(a, b), pair(c, d)]);
                            return Some(groups);
                        },
                        None => {
                            return None;
                        },
                    }
                },
            }
        }
        match group {
            Some(group) => {
                let ghost before = groups@;
                groups.push(group);
                from = end + 1;
                proof {
                    match groups_from(s@, from as int, v4) {
                        Some(rest) => {
                            assert(before + (seq![group] + rest) =~= groups@ + rest);
                        },
                        None => {},
                    }
                }
            },
            None => {
                return None;
            },
        }
    }
}

proof fn lemma_ellipsis(s: Seq<u8>, from: int)
    requires
        0 <= from <= s.len(),
    ensures
        from <= ellipsis(s, from) <= s.len(),
        ellipsis(s, from) < s.len() ==> ellipsis(s, from) + 2 <= s.len(),
    decreases s.len() - from,
{
    if from < s.len() {
        lemma_ellipsis(s, from + 1);
    }
}

fn find_ellipsis(s: &[u8]) -> (r: usize)
    ensures
        r == ellipsis(s@, 0),
        r <= s.len(),
        r < s.len() ==> r + 2 <= s.len(),
{
    let mut i: usize = 0;
    while i < s.len()
        invariant
            i <= s.len(),
            ellipsis(s@, 0) == ellipsis(s@, i as int),
        decreases s.len() - i,
    {
        if s.len() - i > 1 && s[i] == 0x3a && s[i + 1] == 0x3a {
            return i;
        }
        i = i + 1;
    }
    i
}

fn parse_v6(s: &[u8]) -> (r: Option<Vec<u16>>)
    ensures
        match r {
            Some(groups) => groups_of(s@) == Some(groups@) && groups.len() == 8,
            None => groups_of(s@) is None,
        },
{
    let at = find_ellipsis(s);
    if at == s.len() {
        if s.len() == 0 {
            assert(group_of(s@.subrange(0, 0)) is None);
            assert(groups_from(s@, 0, true) is None || groups_from(s@, 0, true)->0.len() < 8);
            return None;
        }
        match parse_groups(s, true) {
            Some(groups) => if groups.len() == 8 {
                Some(groups)
            } else {
                None
            },
            None => None,
        }
    } else {
        let left = slice_subrange(s, 0, at);
        let right = slice_subrange(s, at + 2, s.len());
        assert(left@ =~= s@.take(at as int));
        assert(right@ =~= s@.skip(at + 2));
        let left_groups = parse_groups(left, false);
        let right_groups = parse_groups(right, true);
        match (left_groups, right_groups) {
            (Some(mut groups), Some(mut rest)) => {
                if groups.len() > 7 || rest.len() > 7 - groups.len() {
                    return None;
                }
                let ghost head = groups@;
                let count: usize = 8 - groups.len() - rest.len();
                let mut i: usize = 0;
                while i < count
                    invariant
                        i <= count,
                        groups@ =~= head + zeros(i as nat),
                    decreases count - i,
                {
                    groups.push(0);
                    i = i + 1;
                }
                groups.append(&mut rest);
                Some(groups)
            },
            _ => None,
        }
    }
}

fn append_hex(out: &mut Vec<u8>, n: u16)
    ensures
        final(out)@ == old(out)@ + hex(n as nat),
    decreases n,
{
    let digit: u8 = if n % 16 < 10 {
        0x30 + (n % 16) as u8
    } else {
        0x57 + (n % 16) as u8
    };
    if n >= 16 {
        append_hex(out, n / 16);
    }
    let ghost before = out@;
    out.push(digit);
    proof {
        if n >= 16 {
            assert(hex(n as nat) == hex((n / 16) as nat).push(digit));
        }
        assert(out@ =~= old(out)@ + hex(n as nat));
    }
}

fn append_groups(out: &mut Vec<u8>, groups: &Vec<u16>, from: usize, to: usize)
    requires
        from <= to <= groups.len(),
    ensures
        final(out)@ == old(out)@ + colon_separated(groups@.subrange(from as int, to as int)),
{
    let mut i: usize = from;
    let ghost start = out@;
    while i < to
        invariant
            from <= i <= to <= groups.len(),
            out@ + colon_separated(groups@.subrange(i as int, to as int)) == start
                + colon_separated(groups@.subrange(from as int, to as int)),
        decreases to - i,
    {
        let ghost before = out@;
        let ghost rest = groups@.subrange(i as int, to as int);
        assert(rest.skip(1) =~= groups@.subrange(i + 1, to as int));
        append_hex(out, groups[i]);
        if i + 1 < to {
            out.push(0x3a);
            assert(out@ + colon_separated(rest.skip(1)) =~= before + colon_separated(rest));
        } else {
            assert(rest.skip(1) =~= Seq::empty());
            assert(out@ + colon_separated(rest.skip(1)) =~= before + colon_separated(rest));
        }
        i = i + 1;
    }
    assert(groups@.subrange(i as int, to as int) =~= Seq::empty());
    assert(out@ + colon_separated(groups@.subrange(i as int, to as int)) =~= out@);
}

fn append_dotted(out: &mut Vec<u8>, a: u8, b: u8, c: u8, d: u8)
    ensures
        final(out)@ == old(out)@ + dot_separated(a, b, c, d),
{
    append(out, decimal_octets(a as u64).as_slice());
    out.push(0x2e);
    append(out, decimal_octets(b as u64).as_slice());
    out.push(0x2e);
    append(out, decimal_octets(c as u64).as_slice());
    out.push(0x2e);
    append(out, decimal_octets(d as u64).as_slice());
    assert(out@ =~= old(out)@ + dot_separated(a, b, c, d));
}

fn count_zeros(groups: &Vec<u16>, from: usize) -> (r: usize)
    requires
        from <= groups.len(),
    ensures
        r == zero_run(groups@, from as int),
        from + r <= groups.len(),
    decreases groups.len() - from,
{
    if from < groups.len() && groups[from] == 0 {
        1 + count_zeros(groups, from + 1)
    } else {
        0
    }
}

impl IpAddress {
    /// Read an IPv4 address in dotted decimal or an IPv6 address in colon-separated groups.
    pub fn parse(s: &[u8]) -> (r: Option<IpAddress>)
        ensures
            r == address_of(s@),
    {
        match parse_dotted(s) {
            Some((a, b, c, d)) => Some(IpAddress::V4(a, b, c, d)),
            None => match parse_v6(s) {
                Some(g) => Some(IpAddress::V6(g[0], g[1], g[2], g[3], g[4], g[5], g[6], g[7])),
                None => None,
            },
        }
    }

    /// The text of the address.
    pub fn to_octets(&self) -> (r: Vec<u8>)
        ensures
            r@ == address_text(*self),
    {
        let mut out: Vec<u8> = Vec::new();
        match *self {
            IpAddress::V4(a, b, c, d) => {
                append_dotted(&mut out, a, b, c, d);
                assert(out@ =~= address_text(*self));
            },
            IpAddress::V6(a, b, c, d, e, f, g, h) => {
                let groups: Vec<u16> = vec![a, b, c, d, e, f, g, h];
                let ghost all = seq![a, b, c, d, e, f, g, h];
                assert(groups@ =~= all);
                if a == 0 && b == 0 && c == 0 && d == 0 && e == 0 && f == 0xffff {
                    out.push(0x3a);
                    out.push(0x3a);
                    out.push(0x66);
                    out.push(0x66);
                    out.push(0x66);
                    out.push(0x66);
                    out.push(0x3a);
                    assert(out@ =~= seq![0x3au8, 0x3a, 0x66, 0x66, 0x66, 0x66, 0x3a]);
                    append_dotted(
                        &mut out,
                        (g / 256) as u8,
                        (g % 256) as u8,
                        (h / 256) as u8,
                        (h % 256) as u8,
                    );
                } else {
                    let mut start: usize = 0;
                    let mut len: usize = 0;
                    let mut i: usize = 0;
                    while i < groups.len()
                        invariant
                            i <= groups.len(),
                            start + len <= groups.len(),
                            groups@ == all,
                            longest_run(all, 0, 0, 0) == longest_run(
                                all,
                                i as int,
                                start as int,
                                len as nat,
                            ),
                        decreases groups.len() - i,
                    {
                        let run = count_zeros(&groups, i);
                        if run > len {
                            start = i;
                            len = run;
                        }
                        i = i + 1;
                    }
                    if len > 1 {
                        append_groups(&mut out, &groups, 0, start);
                        out.push(0x3a);
                        out.push(0x3a);
                        append_groups(&mut out, &groups, start + len, groups.len());
                        assert(all.subrange(0, start as int) =~= all.take(start as int));
                        assert(all.subrange(start + len, 8) =~= all.skip(start + len));
                        assert(out@ =~= groups_text(all));
                    } else {
                        append_groups(&mut out, &groups, 0, groups.len());
                        assert(all.subrange(0, 8) =~= all);
                        assert(out@ =~= groups_text(all));
                    }
                }
            },
        }
        out
    }

    /// The text of the address.
    pub fn to_string(&self) -> (r: String)
        ensures
            octets(r@) == address_text(*self),
    {
        let out = self.to_octets();
        proof {
            lemma_address_reads_back(*self);
            assert forall|i: int| 0 <= i < out.len() implies #[trigger] out@[i] < 128 by {
                assert(is_hex_digit(address_text(*self)[i]) || address_text(*self)[i] == 0x3a
                    || address_text(*self)[i] == 0x2e);
            }
            lemma_ascii_text(out@);
        }
        ascii_string(out.as_slice())
    }
}

/// Eight groups with colons between them are read as they are, whichever of them are zero.
pub proof fn lemma_whole_address_is_read(g: Seq<u16>)
    requires
        g.len() == 8,
    ensures
        address_of(colon_separated(g)) == Some(of_groups(g)),
{
    let s = colon_separated(g);
    lemma_colon_separated(g);
    lemma_ellipsis_is(s, 0, s.len() as int);
    lemma_groups_read_back(Seq::empty(), g, true);
    assert(Seq::<u8>::empty() + s =~= s);
    let first = hex(g[0] as nat);
    lemma_hex(g[0] as nat);
    assert(s[first.len() as int] == 0x3a);
    lemma_colon_inside(s, first.len() as int);
}

/// An ellipsis stands for the groups that are missing, which are zero: at least one is.
pub proof fn lemma_ellipsis_is_zeros(left: Seq<u16>, right: Seq<u16>)
    ensures
        address_of(colon_separated(left) + seq![0x3au8, 0x3au8] + colon_separated(right))
            == if left.len() + right.len() <= 7 {
            Some(of_groups(left + zeros((8 - left.len() - right.len()) as nat) + right))
        } else {
            None
        },
{
    let a = colon_separated(left);
    let b = colon_separated(right);
    let s = a + seq![0x3au8, 0x3au8] + b;
    let at = a.len() as int;
    lemma_colon_separated(left);
    lemma_colon_separated(right);
    assert forall|i: int|
        0 <= i < at && i + 1 < s.len() && #[trigger] s[i] == 0x3a implies s[i + 1]
        != 0x3a by {
        assert(s[i] == a[i]);
        if i + 1 < at {
            assert(s[i + 1] == a[i + 1]);
        } else {
            assert(a[i] == a.last());
        }
    }
    assert(s[at] == 0x3a && s[at + 1] == 0x3a);
    lemma_ellipsis_is(s, 0, at);
    assert(s.take(at) =~= a);
    assert(s.skip(at + 2) =~= b);
    if left.len() > 0 {
        lemma_groups_read_back(Seq::empty(), left, false);
        assert(Seq::<u8>::empty() + a =~= a);
    } else {
        assert(left =~= Seq::empty());
    }
    if right.len() > 0 {
        lemma_groups_read_back(Seq::empty(), right, true);
        assert(Seq::<u8>::empty() + b =~= b);
    } else {
        assert(right =~= Seq::empty());
    }
    assert(side(a, false) == Some(left));
    assert(side(b, true) == Some(right));
    lemma_colon_inside(s, at);
}

proof fn lemma_zero_run_is_longest(g: Seq<u16>, i: int, n: int)
    requires
        0 <= i <= i + n <= g.len(),
        forall|j: int| i <= j < i + n ==> #[trigger] g[j] == 0,
    ensures
        n <= zero_run(g, i),
    decreases n,
{
    if n > 0 {
        assert(g[i] == 0);
        lemma_zero_run_is_longest(g, i + 1, n - 1);
    }
}

proof fn lemma_longest_run_from(g: Seq<u16>, i: int, start: int, len: nat, at: int, n: int)
    requires
        0 <= i <= g.len(),
        start < i || (start == 0 && len == 0),
        0 <= at <= at + n <= g.len(),
        forall|j: int| at <= j < at + n ==> #[trigger] g[j] == 0,
        at < i ==> n <= len && (n == len && n > 0 ==> start <= at),
    ensures
        ({
            let (s, l) = longest_run(g, i, start, len);
            n <= l && (n == l && n > 0 ==> s <= at)
        }),
    decreases g.len() - i,
{
    lemma_zero_run_is_longest(g, at, n);
    if i < g.len() {
        if zero_run(g, i) > len {
            lemma_longest_run_from(g, i + 1, i, zero_run(g, i), at, n);
        } else {
            lemma_longest_run_from(g, i + 1, start, len, at, n);
        }
    }
}

/// The ellipsis stands in place of the longest run of zeros, and of the first of those: no run is
/// longer, and none as long starts before it.
pub proof fn lemma_ellipsis_is_longest(g: Seq<u16>, at: int, n: int)
    requires
        0 <= at <= at + n <= g.len(),
        forall|j: int| at <= j < at + n ==> #[trigger] g[j] == 0,
    ensures
        ({
            let (start, len) = longest_run(g, 0, 0, 0);
            n <= len && (n == len && n > 0 ==> start <= at)
        }),
{
    lemma_longest_run_from(g, 0, 0, 0, at, n);
}

proof fn lemma_alike(a: Seq<u8>, b: Seq<u8>, i: int)
    requires
        same_but_for_case(a, b),
        0 <= i < a.len(),
    ensures
        a.len() == b.len(),
        lower(a[i]) == lower(b[i]),
{
    assert(lowered(a).len() == a.len() && lowered(b).len() == b.len());
    assert(lowered(a)[i] == lower(a[i]));
    assert(lowered(b)[i] == lower(b[i]));
}

proof fn lemma_parts_alike(a: Seq<u8>, b: Seq<u8>, from: int, to: int)
    requires
        same_but_for_case(a, b),
        0 <= from <= to <= a.len(),
    ensures
        a.len() == b.len(),
        same_but_for_case(a.subrange(from, to), b.subrange(from, to)),
{
    assert(lowered(a).len() == a.len() && lowered(b).len() == b.len());
    let x = a.subrange(from, to);
    let y = b.subrange(from, to);
    assert forall|i: int| 0 <= i < to - from implies #[trigger] lowered(x)[i] == lowered(y)[i] by {
        lemma_alike(a, b, from + i);
    }
    assert(lowered(x) =~= lowered(y));
}

proof fn lemma_position_alike(a: Seq<u8>, b: Seq<u8>, c: u8, from: int)
    requires
        same_but_for_case(a, b),
        c == 0x2e || c == 0x3a,
    ensures
        position(a, c, from) == position(b, c, from),
    decreases a.len() - from,
{
    assert(lowered(a).len() == a.len() && lowered(b).len() == b.len());
    if 0 <= from < a.len() {
        lemma_alike(a, b, from);
        lemma_position_alike(a, b, c, from + 1);
    }
}

proof fn lemma_group_alike(a: Seq<u8>, b: Seq<u8>)
    requires
        same_but_for_case(a, b),
    ensures
        group_of(a) == group_of(b),
        octet_of(a) == octet_of(b),
{
    assert(lowered(a).len() == a.len() && lowered(b).len() == b.len());
    assert forall|i: int| 0 <= i < a.len() implies is_hex_digit(#[trigger] a[i]) == is_hex_digit(b[i])
        && is_digit(a[i]) == is_digit(b[i]) by {
        lemma_alike(a, b, i);
    }
    assert forall|i: int| 0 <= i < b.len() implies is_hex_digit(#[trigger] b[i]) == is_hex_digit(a[i])
        && is_digit(a[i]) == is_digit(b[i]) by {
        lemma_alike(a, b, i);
    }
    if is_hex(a) {
        lemma_hex_alike(a, b);
    }
    if is_decimal(a) {
        assert forall|i: int| 0 <= i < a.len() implies #[trigger] a[i] == b[i] by {
            assert(is_digit(a[i]));
            lemma_alike(a, b, i);
        }
        assert(a =~= b);
    }
}

proof fn lemma_hex_alike(a: Seq<u8>, b: Seq<u8>)
    requires
        same_but_for_case(a, b),
        forall|i: int| 0 <= i < a.len() ==> is_hex_digit(#[trigger] a[i]),
    ensures
        hex_value(a) == hex_value(b),
    decreases a.len(),
{
    assert(lowered(a).len() == a.len() && lowered(b).len() == b.len());
    if a.len() > 0 {
        let n = a.len() - 1;
        lemma_parts_alike(a, b, 0, n);
        assert(a.drop_last() =~= a.subrange(0, n));
        assert(b.drop_last() =~= b.subrange(0, n));
        assert forall|i: int| 0 <= i < n implies is_hex_digit(#[trigger] a.drop_last()[i]) by {
            assert(is_hex_digit(a[i]));
        }
        lemma_hex_alike(a.drop_last(), b.drop_last());
        lemma_alike(a, b, n);
        assert(is_hex_digit(a[n]));
    }
}

proof fn lemma_dotted_alike(a: Seq<u8>, b: Seq<u8>)
    requires
        same_but_for_case(a, b),
    ensures
        dotted(a) == dotted(b),
{
    assert(lowered(a).len() == a.len() && lowered(b).len() == b.len());
    let n = a.len() as int;
    lemma_position_alike(a, b, 0x2e, 0);
    let i = position(a, 0x2e, 0);
    lemma_position(a, 0x2e, 0);
    if i < n {
        lemma_position_alike(a, b, 0x2e, i + 1);
        let j = position(a, 0x2e, i + 1);
        lemma_position(a, 0x2e, i + 1);
        if j < n {
            lemma_position_alike(a, b, 0x2e, j + 1);
            let k = position(a, 0x2e, j + 1);
            lemma_position(a, 0x2e, j + 1);
            if k < n {
                lemma_parts_alike(a, b, 0, i);
                lemma_parts_alike(a, b, i + 1, j);
                lemma_parts_alike(a, b, j + 1, k);
                lemma_parts_alike(a, b, k + 1, n);
                lemma_group_alike(a.subrange(0, i), b.subrange(0, i));
                lemma_group_alike(a.subrange(i + 1, j), b.subrange(i + 1, j));
                lemma_group_alike(a.subrange(j + 1, k), b.subrange(j + 1, k));
                lemma_group_alike(a.subrange(k + 1, n), b.subrange(k + 1, n));
            }
        }
    }
}

proof fn lemma_groups_alike(a: Seq<u8>, b: Seq<u8>, from: int, v4: bool)
    requires
        same_but_for_case(a, b),
    ensures
        groups_from(a, from, v4) == groups_from(b, from, v4),
    decreases a.len() - from,
{
    assert(lowered(a).len() == a.len() && lowered(b).len() == b.len());
    lemma_position_alike(a, b, 0x3a, from);
    let end = position(a, 0x3a, from);
    if 0 <= from <= end <= a.len() {
        lemma_parts_alike(a, b, from, end);
        lemma_group_alike(a.subrange(from, end), b.subrange(from, end));
        lemma_dotted_alike(a.subrange(from, end), b.subrange(from, end));
        if end < a.len() {
            lemma_groups_alike(a, b, end + 1, v4);
        }
    }
}

proof fn lemma_ellipsis_alike(a: Seq<u8>, b: Seq<u8>, from: int)
    requires
        same_but_for_case(a, b),
    ensures
        ellipsis(a, from) == ellipsis(b, from),
    decreases a.len() - from,
{
    assert(lowered(a).len() == a.len() && lowered(b).len() == b.len());
    if 0 <= from < a.len() {
        lemma_alike(a, b, from);
        if from + 1 < a.len() {
            lemma_alike(a, b, from + 1);
        }
        lemma_ellipsis_alike(a, b, from + 1);
    }
}

proof fn lemma_ellipsis_stands(s: Seq<u8>, from: int)
    requires
        0 <= from <= s.len(),
    ensures
        from <= ellipsis(s, from) <= s.len(),
        ellipsis(s, from) < s.len() ==> ellipsis(s, from) + 1 < s.len(),
    decreases s.len() - from,
{
    if from < s.len() && !(from + 1 < s.len() && s[from] == 0x3a && s[from + 1] == 0x3a) {
        lemma_ellipsis_stands(s, from + 1);
    }
}

/// An address reads the same in either case.
pub proof fn lemma_case_of_an_address(a: Seq<u8>, b: Seq<u8>)
    requires
        same_but_for_case(a, b),
    ensures
        address_of(a) == address_of(b),
{
    assert(lowered(a).len() == a.len() && lowered(b).len() == b.len());
    let n = a.len() as int;
    lemma_dotted_alike(a, b);
    lemma_ellipsis_alike(a, b, 0);
    lemma_groups_alike(a, b, 0, true);
    let at = ellipsis(a, 0);
    lemma_ellipsis_stands(a, 0);
    if at < n {
        assert(a.take(at) =~= a.subrange(0, at));
        assert(b.take(at) =~= b.subrange(0, at));
        assert(a.skip(at + 2) =~= a.subrange(at + 2, n));
        assert(b.skip(at + 2) =~= b.subrange(at + 2, n));
        lemma_parts_alike(a, b, 0, at);
        lemma_parts_alike(a, b, at + 2, n);
        lemma_groups_alike(a.take(at), b.take(at), 0, false);
        lemma_groups_alike(a.skip(at + 2), b.skip(at + 2), 0, true);
    }
}

proof fn lemma_decimal_is_spelling(s: Seq<u8>)
    requires
        is_decimal(s),
        s.len() == 1 || s[0] != 0x30,
    ensures
        decimal(decimal_value(s)) == s,
        s.len() > 1 ==> decimal_value(s) >= 10,
    decreases s.len(),
{
    let last = s.last();
    assert(is_digit(s[s.len() - 1]));
    let shorter = s.drop_last();
    if s.len() == 1 {
        assert(shorter.len() == 0);
        assert(decimal_value(shorter) == 0);
        assert(decimal(decimal_value(s)) =~= s);
    } else {
        assert forall|i: int| 0 <= i < shorter.len() implies is_digit(#[trigger] shorter[i]) by {
            assert(is_digit(s[i]));
        }
        assert(shorter[0] == s[0]);
        if shorter.len() == 1 {
            assert(decimal_value(shorter.drop_last()) == 0);
            assert(is_digit(shorter[0]));
        }
        lemma_decimal_is_spelling(shorter);
        assert(decimal_value(shorter) >= 1);
        assert(decimal(decimal_value(s)) =~= shorter.push(last));
        assert(shorter.push(last) =~= s);
    }
}

/// A part of a dotted address is the number that it spells without a leading zero, and none above
/// 255.
pub proof fn lemma_part_of_dotted_address(s: Seq<u8>)
    ensures
        octet_of(s) matches Some(n) ==> s == decimal(n as nat),
        forall|n: u8| s == decimal(n as nat) ==> #[trigger] octet_of(decimal(n as nat)) == Some(n),
{
    if octet_of(s) is Some {
        lemma_decimal_is_spelling(s);
    }
    assert forall|n: u8| s == decimal(n as nat) implies #[trigger] octet_of(decimal(n as nat))
        == Some(n) by {
        lemma_octet(n);
    }
}

proof fn lemma_four_parts(s: Seq<u8>, i: int, j: int, k: int)
    requires
        0 <= i < j < k < s.len(),
        s[i] == 0x2e,
        s[j] == 0x2e,
        s[k] == 0x2e,
    ensures
        s == s.subrange(0, i) + seq![0x2eu8] + s.subrange(i + 1, j) + seq![0x2eu8] + s.subrange(
            j + 1,
            k,
        ) + seq![0x2eu8] + s.subrange(k + 1, s.len() as int),
{
    let n = s.len() as int;
    let w = s.subrange(0, i) + seq![0x2eu8];
    let x = w + s.subrange(i + 1, j) + seq![0x2eu8];
    let y = x + s.subrange(j + 1, k) + seq![0x2eu8];
    assert(w =~= s.take(i + 1));
    assert(x =~= s.take(j + 1));
    assert(y =~= s.take(k + 1));
    assert(y + s.subrange(k + 1, n) =~= s);
}

/// The parts of a dotted address are its numbers.
#[verifier::spinoff_prover]
proof fn lemma_parts_of_dotted_address(s: Seq<u8>, a: u8, b: u8, c: u8, d: u8)
    requires
        dotted(s) == Some((a, b, c, d)),
    ensures
        s == dot_separated(a, b, c, d),
{
    let n = s.len() as int;
    let i = position(s, 0x2e, 0);
    lemma_position(s, 0x2e, 0);
    let j = position(s, 0x2e, i + 1);
    lemma_position(s, 0x2e, i + 1);
    let k = position(s, 0x2e, j + 1);
    lemma_position(s, 0x2e, j + 1);
    lemma_four_parts(s, i, j, k);
    lemma_part_of_dotted_address(s.subrange(0, i));
    lemma_part_of_dotted_address(s.subrange(i + 1, j));
    lemma_part_of_dotted_address(s.subrange(j + 1, k));
    lemma_part_of_dotted_address(s.subrange(k + 1, n));
}

/// A dotted address is read exactly from its four numbers with dots between them.
pub proof fn lemma_dotted_address_is_told(s: Seq<u8>, a: u8, b: u8, c: u8, d: u8)
    ensures
        dotted(s) == Some((a, b, c, d)) <==> s == dot_separated(a, b, c, d),
{
    if dotted(s) == Some((a, b, c, d)) {
        lemma_parts_of_dotted_address(s, a, b, c, d);
    }
    if s == dot_separated(a, b, c, d) {
        lemma_dotted(a, b, c, d);
    }
}

/// A group of an address is its number in hexadecimal digits, whatever zeros stand before them, up
/// to four digits in all.
pub proof fn lemma_group_is_told(zeros: nat, n: u16)
    ensures
        ({
            let s = Seq::new(zeros, |i: int| 0x30u8) + hex(n as nat);
            group_of(s) == if s.len() <= 4 {
                Some(n)
            } else {
                None
            }
        }),
{
    let digits = hex(n as nat);
    let s = Seq::new(zeros, |i: int| 0x30u8) + digits;
    lemma_hex(n as nat);
    lemma_value_behind_zeros(zeros, digits);
    assert forall|i: int| 0 <= i < s.len() implies is_hex_digit(#[trigger] s[i]) by {
        if i >= zeros {
            assert(is_hex_digit(digits[i - zeros]));
        }
    }
}

proof fn lemma_value_behind_zeros(zeros: nat, digits: Seq<u8>)
    ensures
        hex_value(Seq::new(zeros, |i: int| 0x30u8) + digits) == hex_value(digits),
    decreases zeros, digits.len(),
{
    let all = Seq::new(zeros, |i: int| 0x30u8) + digits;
    if digits.len() > 0 {
        lemma_value_behind_zeros(zeros, digits.drop_last());
        assert(all.drop_last() =~= Seq::new(zeros, |i: int| 0x30u8) + digits.drop_last());
    } else if zeros > 0 {
        let fewer = (zeros - 1) as nat;
        lemma_value_behind_zeros(fewer, digits);
        assert(all.drop_last() =~= Seq::new(fewer, |i: int| 0x30u8) + digits);
        assert(all.last() == 0x30);
    } else {
        assert(all =~= digits);
    }
}

} // verus!
