//! IP address literals.

use vstd::prelude::*;
use crate::bytes::{
    ByteClass, all_bytes_in, all_in, first_in, is_digit, is_hex, lemma_first_in, lemma_split_all,
    lemma_split_length, slices_of, split, split_on,
};
use crate::decimal::{
    decimal, digits_of, is_decimal, lemma_digits_of, parse_decimal, render_decimal,
};
use crate::hex::{hex_digit_value, hexadecimal};
use crate::text::{append, lemma_ascii_literal, utf8};

verus! {

/// Whether a byte string is an octet of a dotted quad: up to three digits, no superfluous
/// leading zero, at most 255.
pub open spec fn is_octet(s: Seq<u8>) -> bool {
    &&& is_decimal(s, 255)
    &&& s.len() <= 3
    &&& s.len() > 1 ==> s[0] != '0' as u8
}

/// Whether a byte string is an IPv4 address.
pub open spec fn is_ipv4(s: Seq<u8>) -> bool {
    let octets = split(s, '.' as u8);
    &&& octets.len() == 4
    &&& forall|i: int| 0 <= i < octets.len() ==> is_octet(#[trigger] octets[i])
}

/// The octets of an IPv4 address.
pub open spec fn ipv4_octets(s: Seq<u8>) -> Seq<u8> {
    Seq::new(4, |i: int| decimal(split(s, '.' as u8)[i]) as u8)
}

/// Whether a byte string is a group of an IPv6 address.
pub open spec fn is_group(s: Seq<u8>) -> bool {
    1 <= s.len() <= 4 && all_in(s, ByteClass::Hex)
}

/// The segments that two octets each make up.
pub open spec fn quad_segments(octets: Seq<u8>) -> Seq<u16> {
    seq![(octets[0] * 256 + octets[1]) as u16, (octets[2] * 256 + octets[3]) as u16]
}

/// The segments of the groups from `from` on. The last one may be an IPv4 address, which makes up
/// two, where that is allowed.
pub open spec fn group_segments(groups: Seq<Seq<u8>>, from: int, quad: bool) -> Option<Seq<u16>>
    decreases groups.len() - from,
{
    if from >= groups.len() {
        Some(Seq::empty())
    } else if is_group(groups[from]) {
        match group_segments(groups, from + 1, quad) {
            Some(rest) => Some(seq![hexadecimal(groups[from]) as u16] + rest),
            None => None,
        }
    } else if quad && from + 1 == groups.len() && is_ipv4(groups[from]) {
        Some(quad_segments(ipv4_octets(groups[from])))
    } else {
        None
    }
}

/// The segments of a list of groups; the empty text has none.
pub open spec fn list_segments(s: Seq<u8>, quad: bool) -> Option<Seq<u16>> {
    if s.len() == 0 {
        Some(Seq::empty())
    } else {
        group_segments(split(s, ':' as u8), 0, quad)
    }
}

/// The index of the first pair of colons from `from` on, or the length.
pub open spec fn double_colon(s: Seq<u8>, from: int) -> int
    decreases s.len() - from,
{
    if from + 1 >= s.len() {
        s.len() as int
    } else if s[from] == ':' as u8 && s[from + 1] == ':' as u8 {
        from
    } else {
        double_colon(s, from + 1)
    }
}

/// The eight segments of an IPv6 address. One pair of colons may stand for the segments that are
/// left out, one at least, which are zero.
pub open spec fn ipv6_segments(s: Seq<u8>) -> Option<Seq<u16>> {
    let gap = double_colon(s, 0);
    if gap >= s.len() {
        match list_segments(s, true) {
            Some(segments) => if segments.len() == 8 {
                Some(segments)
            } else {
                None
            },
            None => None,
        }
    } else {
        match (list_segments(s.take(gap), false), list_segments(s.skip(gap + 2), true)) {
            (Some(head), Some(tail)) => if head.len() + tail.len() <= 7 {
                Some(
                    head + Seq::new((8 - head.len() - tail.len()) as nat, |i: int| 0u16) + tail,
                )
            } else {
                None
            },
            _ => None,
        }
    }
}

/// Whether a byte string is an IPv6 address.
pub open spec fn is_ipv6(s: Seq<u8>) -> bool {
    ipv6_segments(s) is Some
}

/// An IPv4 address is digits and dots.
pub proof fn lemma_ipv4_bytes(s: Seq<u8>)
    requires
        is_ipv4(s),
    ensures
        forall|j: int| 0 <= j < s.len() ==> is_digit(#[trigger] s[j]) || s[j] == '.' as u8,
{
    let octets = split(s, '.' as u8);
    assert forall|i: int| 0 <= i < octets.len() implies all_in(
        #[trigger] octets[i],
        ByteClass::Digit,
    ) by {
        assert(is_octet(octets[i]));
    }
    lemma_split_all(s, '.' as u8, ByteClass::Digit);
}

/// A byte of an IPv6 address.
pub open spec fn is_ipv6_byte(b: u8) -> bool {
    is_hex(b) || b == ':' as u8 || b == '.' as u8
}

proof fn lemma_group_bytes(groups: Seq<Seq<u8>>, from: int, quad: bool)
    requires
        0 <= from,
        group_segments(groups, from, quad) is Some,
    ensures
        forall|i: int| from <= i < groups.len() ==> all_in(#[trigger] groups[i], ByteClass::Authority)
            && forall|j: int| 0 <= j < groups[i].len() ==> is_ipv6_byte(#[trigger] groups[i][j]),
    decreases groups.len() - from,
{
    if from < groups.len() {
        if is_group(groups[from]) {
            lemma_group_bytes(groups, from + 1, quad);
            assert forall|j: int| 0 <= j < groups[from].len() implies is_ipv6_byte(
                #[trigger] groups[from][j],
            ) && ByteClass::Authority.has(groups[from][j]) by {
                assert(ByteClass::Hex.has(groups[from][j]));
            }
        } else {
            lemma_ipv4_bytes(groups[from]);
        }
    }
}

proof fn lemma_list_bytes(s: Seq<u8>, quad: bool)
    requires
        list_segments(s, quad) is Some,
    ensures
        forall|j: int| 0 <= j < s.len() ==> is_ipv6_byte(#[trigger] s[j]),
{
    if s.len() > 0 {
        let groups = split(s, ':' as u8);
        lemma_group_bytes(groups, 0, quad);
        lemma_split_bytes(s);
    }
}

proof fn lemma_split_bytes(s: Seq<u8>)
    requires
        forall|i: int, j: int|
            0 <= i < split(s, ':' as u8).len() && 0 <= j < split(s, ':' as u8)[i].len()
                ==> is_ipv6_byte(#[trigger] split(s, ':' as u8)[i][j]),
    ensures
        forall|j: int| 0 <= j < s.len() ==> is_ipv6_byte(#[trigger] s[j]),
    decreases s.len(),
{
    let only = ByteClass::Only(':' as u8);
    lemma_first_in(s, only);
    let i = first_in(s, only);
    let pieces = split(s, ':' as u8);
    if i < s.len() {
        let rest = s.skip(i + 1);
        assert(pieces =~= seq![s.take(i)] + split(rest, ':' as u8));
        assert forall|a: int, j: int|
            0 <= a < split(rest, ':' as u8).len() && 0 <= j < split(rest, ':' as u8)[a].len() implies
            is_ipv6_byte(#[trigger] split(rest, ':' as u8)[a][j]) by {
            assert(pieces[a + 1][j] == split(rest, ':' as u8)[a][j]);
        }
        lemma_split_bytes(rest);
        assert forall|j: int| 0 <= j < s.len() implies is_ipv6_byte(#[trigger] s[j]) by {
            if j < i {
                assert(pieces[0][j] == s[j]);
            } else if j > i {
                assert(rest[j - i - 1] == s[j]);
            }
        }
    } else {
        assert forall|j: int| 0 <= j < s.len() implies is_ipv6_byte(#[trigger] s[j]) by {
            assert(pieces[0][j] == s[j]);
        }
    }
}

proof fn lemma_double_colon(s: Seq<u8>, from: int)
    requires
        0 <= from <= s.len(),
    ensures
        from <= double_colon(s, from) <= s.len(),
        double_colon(s, from) < s.len() ==> double_colon(s, from) + 1 < s.len() && s[double_colon(
            s,
            from,
        )] == ':' as u8 && s[double_colon(s, from) + 1] == ':' as u8,
    decreases s.len() - from,
{
    if from + 1 < s.len() && !(s[from] == ':' as u8 && s[from + 1] == ':' as u8) {
        lemma_double_colon(s, from + 1);
    }
}

/// An IPv6 address is hexadecimal digits, colons and dots, and holds a colon.
pub proof fn lemma_ipv6_bytes(s: Seq<u8>)
    requires
        is_ipv6(s),
    ensures
        s.len() > 0,
        forall|j: int| 0 <= j < s.len() ==> is_ipv6_byte(#[trigger] s[j]),
{
    let gap = double_colon(s, 0);
    lemma_double_colon(s, 0);
    if gap >= s.len() {
        lemma_list_bytes(s, true);
    } else {
        lemma_list_bytes(s.take(gap), false);
        lemma_list_bytes(s.skip(gap + 2), true);
        assert forall|j: int| 0 <= j < s.len() implies is_ipv6_byte(#[trigger] s[j]) by {
            if j < gap {
                assert(s.take(gap)[j] == s[j]);
            } else if j >= gap + 2 {
                assert(s.skip(gap + 2)[j - gap - 2] == s[j]);
            }
        }
    }
}

proof fn lemma_group_lengths(groups: Seq<Seq<u8>>, from: int, quad: bool)
    requires
        0 <= from <= groups.len(),
        group_segments(groups, from, quad) is Some,
    ensures
        groups.len() - from <= group_segments(groups, from, quad).unwrap().len(),
        forall|i: int| from <= i < groups.len() ==> (#[trigger] groups[i]).len() <= 15,
    decreases groups.len() - from,
{
    if from < groups.len() {
        if is_group(groups[from]) {
            lemma_group_lengths(groups, from + 1, quad);
        } else {
            let octets = split(groups[from], '.' as u8);
            assert forall|k: int| 0 <= k < octets.len() implies (#[trigger] octets[k]).len() <= 3 by {
                assert(is_octet(octets[k]));
            }
            lemma_split_length(groups[from], '.' as u8, 3);
        }
    }
}

proof fn lemma_list_length(s: Seq<u8>, quad: bool)
    requires
        list_segments(s, quad) is Some,
        list_segments(s, quad).unwrap().len() <= 8,
    ensures
        s.len() < 128,
{
    if s.len() > 0 {
        lemma_group_lengths(split(s, ':' as u8), 0, quad);
        lemma_split_length(s, ':' as u8, 15);
        let n = split(s, ':' as u8).len();
        assert((15nat + 1) * n <= 128) by (nonlinear_arith)
            requires
                n <= 8,
        ;
    }
}

/// An IPv6 address is short.
pub proof fn lemma_ipv6_length(s: Seq<u8>)
    requires
        is_ipv6(s),
    ensures
        s.len() < 300,
{
    let gap = double_colon(s, 0);
    lemma_double_colon(s, 0);
    if gap >= s.len() {
        assert(list_segments(s, true).unwrap().len() == 8);
        lemma_list_length(s, true);
    } else {
        let head = s.take(gap);
        let tail = s.skip(gap + 2);
        assert(list_segments(head, false).unwrap().len() + list_segments(tail, true).unwrap().len()
            <= 7);
        lemma_list_length(head, false);
        lemma_list_length(tail, true);
        assert(s.len() == head.len() + 2 + tail.len());
    }
}

/// Hexadecimal digits stand for a number below the power of sixteen that they have room for.
proof fn lemma_hexadecimal_bound(digits: Seq<u8>)
    requires
        digits.len() <= 4,
    ensures
        digits.len() == 0 ==> hexadecimal(digits) < 1,
        digits.len() == 1 ==> hexadecimal(digits) < 0x10,
        digits.len() == 2 ==> hexadecimal(digits) < 0x100,
        digits.len() == 3 ==> hexadecimal(digits) < 0x1000,
        digits.len() == 4 ==> hexadecimal(digits) < 0x1_0000,
    decreases digits.len(),
{
    if digits.len() > 0 {
        lemma_hexadecimal_bound(digits.drop_last());
    }
}

/// The number of a group.
fn parse_group(s: &[u8]) -> (value: Option<u16>)
    ensures
        match value {
            Some(v) => is_group(s@) && v == hexadecimal(s@),
            None => !is_group(s@),
        },
{
    if s.len() == 0 || s.len() > 4 || !all_bytes_in(s, ByteClass::Hex) {
        return None;
    }
    let mut value: u16 = 0;
    let mut i: usize = 0;
    assert(s@.take(0) =~= Seq::<u8>::empty());
    while i < s.len()
        invariant
            i <= s@.len() <= 4,
            value == hexadecimal(s@.take(i as int)),
        decreases s@.len() - i,
    {
        proof {
            assert(s@.take(i + 1).drop_last() =~= s@.take(i as int));
            lemma_hexadecimal_bound(s@.take(i as int));
            lemma_hexadecimal_bound(s@.take(i + 1));
        }
        value = value * 16 + hex_digit_value(s[i]) as u16;
        i += 1;
    }
    assert(s@.take(i as int) =~= s@);
    Some(value)
}

/// The number of an octet.
fn parse_octet(s: &[u8]) -> (value: Option<u8>)
    ensures
        match value {
            Some(v) => is_octet(s@) && v == decimal(s@),
            None => !is_octet(s@),
        },
{
    if s.len() == 0 || s.len() > 3 || (s.len() > 1 && s[0] == '0' as u8) {
        return None;
    }
    match parse_decimal(s) {
        Some(value) if value <= 255 => Some(value as u8),
        _ => None,
    }
}

/// The octets of an IPv4 address.
pub fn parse_ipv4(s: &[u8]) -> (octets: Option<Vec<u8>>)
    ensures
        match octets {
            Some(o) => is_ipv4(s@) && o@ == ipv4_octets(s@),
            None => !is_ipv4(s@),
        },
{
    let pieces: Vec<&[u8]> = split_on(s, '.' as u8);
    let ghost parts = split(s@, '.' as u8);
    assert(slices_of(pieces@).len() == pieces@.len());
    if pieces.len() != 4 {
        return None;
    }
    let mut octets: Vec<u8> = Vec::new();
    let mut i: usize = 0;
    while i < 4
        invariant
            i <= 4,
            pieces@.len() == 4,
            parts == slices_of(pieces@),
            parts == split(s@, '.' as u8),
            octets@.len() == i,
            forall|j: int|
                0 <= j < i ==> is_octet(#[trigger] parts[j]) && octets@[j] == decimal(parts[j]),
        decreases 4 - i,
    {
        assert(parts[i as int] == pieces@[i as int]@);
        match parse_octet(pieces[i]) {
            Some(octet) => octets.push(octet),
            None => return None,
        }
        i += 1;
    }
    assert(octets@ =~= ipv4_octets(s@));
    Some(octets)
}

/// The segments of the groups.
fn parse_groups(groups: &Vec<&[u8]>, quad: bool) -> (segments: Option<Vec<u16>>)
    ensures
        match segments {
            Some(v) => group_segments(slices_of(groups@), 0, quad) == Some(v@),
            None => group_segments(slices_of(groups@), 0, quad) is None,
        },
{
    let ghost parts = slices_of(groups@);
    let mut segments: Vec<u16> = Vec::new();
    let mut i: usize = 0;
    while i < groups.len()
        invariant
            i <= groups@.len(),
            parts == slices_of(groups@),
            match group_segments(parts, i as int, quad) {
                Some(rest) => group_segments(parts, 0, quad) == Some(segments@ + rest),
                None => group_segments(parts, 0, quad) is None,
            },
        decreases groups@.len() - i,
    {
        let group: &[u8] = groups[i];
        assert(parts[i as int] == group@);
        let ghost before = segments@;
        match parse_group(group) {
            Some(value) => {
                segments.push(value);
                proof {
                    if let Some(rest) = group_segments(parts, i + 1, quad) {
                        assert(before + (seq![value] + rest) =~= before.push(value) + rest);
                    }
                }
            },
            None => {
                if quad && i + 1 == groups.len() {
                    match parse_ipv4(group) {
                        Some(octets) => {
                            let high: u16 = octets[0] as u16 * 256 + octets[1] as u16;
                            let low: u16 = octets[2] as u16 * 256 + octets[3] as u16;
                            segments.push(high);
                            segments.push(low);
                            assert(segments@ =~= before + quad_segments(octets@));
                            return Some(segments);
                        },
                        None => return None,
                    }
                }
                return None;
            },
        }
        i += 1;
    }
    assert(segments@ + Seq::<u16>::empty() =~= segments@);
    Some(segments)
}

fn parse_list(s: &[u8], quad: bool) -> (segments: Option<Vec<u16>>)
    ensures
        match segments {
            Some(v) => list_segments(s@, quad) == Some(v@),
            None => list_segments(s@, quad) is None,
        },
{
    if s.len() == 0 {
        return Some(Vec::new());
    }
    let groups: Vec<&[u8]> = split_on(s, ':' as u8);
    parse_groups(&groups, quad)
}

/// The index of the first pair of colons, or the length.
fn find_double_colon(s: &[u8]) -> (gap: usize)
    ensures
        gap == double_colon(s@, 0),
        gap <= s@.len(),
        gap < s@.len() ==> gap + 1 < s@.len(),
{
    let mut i: usize = 0;
    while i < s.len() && i + 1 < s.len()
        invariant
            i <= s@.len(),
            double_colon(s@, 0) == double_colon(s@, i as int),
        decreases s@.len() - i,
    {
        if s[i] == ':' as u8 && s[i + 1] == ':' as u8 {
            return i;
        }
        i += 1;
    }
    s.len()
}

/// The segments of an IPv6 address.
pub fn parse_ipv6(s: &[u8]) -> (segments: Option<Vec<u16>>)
    ensures
        match segments {
            Some(v) => ipv6_segments(s@) == Some(v@) && v@.len() == 8,
            None => ipv6_segments(s@) is None,
        },
{
    let gap: usize = find_double_colon(s);
    if gap == s.len() {
        return match parse_list(s, true) {
            Some(segments) => {
                if segments.len() == 8 {
                    Some(segments)
                } else {
                    None
                }
            },
            None => None,
        };
    }
    let head_text: &[u8] = &s[0..gap];
    let tail_text: &[u8] = &s[gap + 2..s.len()];
    assert(s@.take(gap as int) =~= head_text@);
    assert(s@.skip(gap + 2) =~= tail_text@);
    let head: Vec<u16> = match parse_list(head_text, false) {
        Some(head) => head,
        None => return None,
    };
    let tail: Vec<u16> = match parse_list(tail_text, true) {
        Some(tail) => tail,
        None => return None,
    };
    if head.len() > 7 || tail.len() > 7 || head.len() + tail.len() > 7 {
        return None;
    }
    let ghost zeros = (8 - head@.len() - tail@.len()) as nat;
    let mut segments: Vec<u16> = head;
    let ghost front = segments@;
    let missing: usize = 8 - segments.len() - tail.len();
    let mut i: usize = 0;
    while i < missing
        invariant
            i <= missing,
            segments@ =~= front + Seq::new(i as nat, |k: int| 0u16),
        decreases missing - i,
    {
        segments.push(0);
        i += 1;
    }
    let ghost middle = segments@;
    let mut j: usize = 0;
    while j < tail.len()
        invariant
            j <= tail@.len(),
            segments@ =~= middle + tail@.take(j as int),
        decreases tail@.len() - j,
    {
        segments.push(tail[j]);
        j += 1;
    }
    assert(tail@.take(j as int) =~= tail@);
    Some(segments)
}

/// Whether the text is an IPv4 address.
pub fn is_ipv4_text(s: &[u8]) -> (valid: bool)
    ensures
        valid == is_ipv4(s@),
{
    parse_ipv4(s).is_some()
}

/// Whether the text is an IPv6 address.
pub fn is_ipv6_text(s: &[u8]) -> (valid: bool)
    ensures
        valid == is_ipv6(s@),
{
    parse_ipv6(s).is_some()
}

/// A lower-case hexadecimal digit.
pub open spec fn lower_digit(value: int) -> u8 {
    if value < 10 {
        ('0' as u8 + value) as u8
    } else {
        ('a' as u8 + value - 10) as u8
    }
}

/// A segment of an address in lower-case hexadecimal digits, without leading zeros.
pub open spec fn segment_text(segment: nat) -> Seq<u8>
    decreases segment,
{
    if segment < 16 {
        seq![lower_digit(segment as int)]
    } else {
        segment_text(segment / 16).push(lower_digit(segment as int % 16))
    }
}

/// Segments with colons between them.
pub open spec fn segments_text(segments: Seq<u16>) -> Seq<u8>
    decreases segments.len(),
{
    if segments.len() == 0 {
        Seq::empty()
    } else if segments.len() == 1 {
        segment_text(segments[0] as nat)
    } else {
        segments_text(segments.drop_last()) + seq![':' as u8] + segment_text(
            segments.last() as nat,
        )
    }
}

/// How many zeros stand at `i` and after it.
pub open spec fn zeros_at(segments: Seq<u16>, i: int) -> int
    decreases segments.len() - i,
{
    if i >= segments.len() || segments[i] != 0 {
        0
    } else {
        1 + zeros_at(segments, i + 1)
    }
}

/// Where the longest run of zeros at `i` or later begins; of equal ones, the first.
pub open spec fn longest_zeros(segments: Seq<u16>, i: int) -> int
    decreases segments.len() - i,
{
    if i >= segments.len() {
        segments.len() as int
    } else {
        let later = longest_zeros(segments, i + 1);
        if zeros_at(segments, i) >= zeros_at(segments, later) {
            i
        } else {
            later
        }
    }
}

/// Whether an address stands for an IPv4 address.
pub open spec fn is_mapped(segments: Seq<u16>) -> bool {
    &&& segments.len() == 8
    &&& segments[0] == 0
    &&& segments[1] == 0
    &&& segments[2] == 0
    &&& segments[3] == 0
    &&& segments[4] == 0
    &&& segments[5] == 0xffff
}

/// A dotted quad of the two halves of two segments.
pub open spec fn quad_text(high: u16, low: u16) -> Seq<u8> {
    digits_of(high as nat / 256) + seq!['.' as u8] + digits_of(high as nat % 256) + seq!['.' as u8]
        + digits_of(low as nat / 256) + seq!['.' as u8] + digits_of(low as nat % 256)
}

/// The canonical text of an IPv6 address: lower-case digits without leading zeros, the longest run
/// of two or more zero segments left out, an IPv4 address that it stands for as a dotted quad.
pub open spec fn ipv6_text(segments: Seq<u16>) -> Seq<u8> {
    let start = longest_zeros(segments, 0);
    let len = zeros_at(segments, start);
    if is_mapped(segments) {
        utf8("::ffff:"@) + quad_text(segments[6], segments[7])
    } else if len > 1 {
        segments_text(segments.take(start)) + utf8("::"@) + segments_text(
            segments.skip(start + len),
        )
    } else {
        segments_text(segments)
    }
}

proof fn lemma_segment_text_bytes(segment: nat)
    ensures
        forall|j: int|
            0 <= j < segment_text(segment).len() ==> is_ipv6_byte(
                #[trigger] segment_text(segment)[j],
            ),
    decreases segment,
{
    let text = segment_text(segment);
    if segment >= 16 {
        lemma_segment_text_bytes(segment / 16);
        let shorter = segment_text(segment / 16);
        assert forall|j: int| 0 <= j < text.len() implies is_ipv6_byte(#[trigger] text[j]) by {
            if j < shorter.len() {
                assert(is_ipv6_byte(shorter[j]));
            }
        }
    }
}

proof fn lemma_segments_text_bytes(segments: Seq<u16>)
    ensures
        forall|j: int|
            0 <= j < segments_text(segments).len() ==> is_ipv6_byte(
                #[trigger] segments_text(segments)[j],
            ),
    decreases segments.len(),
{
    if segments.len() == 1 {
        lemma_segment_text_bytes(segments[0] as nat);
    } else if segments.len() > 1 {
        lemma_segments_text_bytes(segments.drop_last());
        lemma_segment_text_bytes(segments.last() as nat);
        let text = segments_text(segments);
        let shorter = segments_text(segments.drop_last());
        let group = segment_text(segments.last() as nat);
        assert forall|j: int| 0 <= j < text.len() implies is_ipv6_byte(#[trigger] text[j]) by {
            if j < shorter.len() {
                assert(is_ipv6_byte(shorter[j]));
            } else if j > shorter.len() {
                assert(is_ipv6_byte(group[j - shorter.len() - 1]));
            }
        }
    }
}

/// The canonical text of an address is hexadecimal digits, colons and dots.
pub proof fn lemma_ipv6_text_bytes(segments: Seq<u16>)
    ensures
        forall|j: int|
            0 <= j < ipv6_text(segments).len() ==> is_ipv6_byte(#[trigger] ipv6_text(segments)[j]),
{
    reveal_strlit("::");
    reveal_strlit("::ffff:");
    lemma_ascii_literal("::"@);
    lemma_ascii_literal("::ffff:"@);
    let start = longest_zeros(segments, 0);
    lemma_segments_text_bytes(segments);
    lemma_segments_text_bytes(segments.take(start));
    lemma_segments_text_bytes(segments.skip(start + zeros_at(segments, start)));
    if is_mapped(segments) {
        let parts = seq![
            segments[6] as nat / 256,
            segments[6] as nat % 256,
            segments[7] as nat / 256,
            segments[7] as nat % 256,
        ];
        assert forall|k: int, j: int|
            #![trigger digits_of(parts[k])[j]]
            0 <= k < 4 && 0 <= j < digits_of(parts[k]).len() implies is_ipv6_byte(
            digits_of(parts[k])[j],
        ) by {
            lemma_digits_of(parts[k]);
            assert(ByteClass::Digit.has(digits_of(parts[k])[j]));
        }
        assert(parts[0] == segments[6] as nat / 256);
        assert(parts[1] == segments[6] as nat % 256);
        assert(parts[2] == segments[7] as nat / 256);
        assert(parts[3] == segments[7] as nat % 256);
    }
}

fn render_segment(segment: u16) -> (text: Vec<u8>)
    ensures
        text@ == segment_text(segment as nat),
    decreases segment,
{
    let digit: u8 = (segment % 16) as u8;
    let byte: u8 = if digit < 10 {
        '0' as u8 + digit
    } else {
        'a' as u8 + (digit - 10)
    };
    if segment < 16 {
        let mut text: Vec<u8> = Vec::new();
        text.push(byte);
        assert(text@ =~= segment_text(segment as nat));
        text
    } else {
        let mut text: Vec<u8> = render_segment(segment / 16);
        text.push(byte);
        text
    }
}

fn render_segments(segments: &[u16]) -> (text: Vec<u8>)
    ensures
        text@ == segments_text(segments@),
{
    let mut text: Vec<u8> = Vec::new();
    let mut index: usize = 0;
    assert(segments@.take(0) =~= Seq::<u16>::empty());
    while index < segments.len()
        invariant
            index <= segments@.len(),
            text@ == segments_text(segments@.take(index as int)),
        decreases segments@.len() - index,
    {
        if index > 0 {
            text.push(':' as u8);
        }
        let piece: Vec<u8> = render_segment(segments[index]);
        append(&mut text, piece.as_slice());
        proof {
            let longer = segments@.take(index + 1);
            assert(longer.drop_last() =~= segments@.take(index as int));
            assert(longer.last() == segments@[index as int]);
            assert(text@ =~= segments_text(longer));
        }
        index += 1;
    }
    assert(segments@.take(index as int) =~= segments@);
    text
}

fn append_octet(text: &mut Vec<u8>, octet: u16)
    ensures
        final(text)@ == old(text)@ + digits_of(octet as nat),
{
    let digits: Vec<u8> = render_decimal(octet as u64);
    append(text, digits.as_slice());
}

/// The run of zeros that is left out, where it begins and how long it is.
fn longest_zero_run(segments: &[u16]) -> (run: (usize, usize))
    ensures
        run.0 == longest_zeros(segments@, 0),
        run.1 == zeros_at(segments@, run.0 as int),
        run.0 + run.1 <= segments@.len(),
{
    let mut index: usize = segments.len();
    let mut start: usize = index;
    let mut longest: usize = 0;
    let mut current: usize = 0;
    while index > 0
        invariant
            index <= start <= segments@.len(),
            start == longest_zeros(segments@, index as int),
            longest == zeros_at(segments@, start as int),
            current == zeros_at(segments@, index as int),
            start + longest <= segments@.len(),
            index + current <= segments@.len(),
        decreases index,
    {
        index -= 1;
        current = if segments[index] == 0 {
            current + 1
        } else {
            0
        };
        if current >= longest {
            start = index;
            longest = current;
        }
    }
    (start, longest)
}

/// The canonical text of an IPv6 address.
pub fn render_ipv6(segments: &[u16]) -> (text: Vec<u8>)
    ensures
        text@ == ipv6_text(segments@),
{
    if segments.len() == 8 && segments[0] == 0 && segments[1] == 0 && segments[2] == 0
        && segments[3] == 0 && segments[4] == 0 && segments[5] == 0xffff {
        let mut text: Vec<u8> = Vec::new();
        append(&mut text, "::ffff:".as_bytes());
        append_octet(&mut text, segments[6] / 256);
        text.push('.' as u8);
        append_octet(&mut text, segments[6] % 256);
        text.push('.' as u8);
        append_octet(&mut text, segments[7] / 256);
        text.push('.' as u8);
        append_octet(&mut text, segments[7] % 256);
        assert(text@ =~= ipv6_text(segments@));
        return text;
    }
    let (start, len) = longest_zero_run(segments);
    if len > 1 {
        let head: &[u16] = &segments[0..start];
        let tail: &[u16] = &segments[start + len..segments.len()];
        assert(head@ =~= segments@.take(start as int));
        assert(tail@ =~= segments@.skip(start + len));
        let mut text: Vec<u8> = render_segments(head);
        append(&mut text, "::".as_bytes());
        let rest: Vec<u8> = render_segments(tail);
        append(&mut text, rest.as_slice());
        text
    } else {
        render_segments(segments)
    }
}

} // verus!
