//! Reading the canonical text of an IPv6 address gives the address back.

use vstd::prelude::*;
use crate::bytes::{
    ByteClass, all_in, any_in, first_in, is_digit, lemma_first_in, lemma_first_in_unique, split,
};
use crate::decimal::{decimal, digits_of, lemma_digits_of};
use crate::hex::hexadecimal;
use crate::ip::{
    double_colon, group_segments, ipv4_octets, ipv6_segments, ipv6_text, is_group, is_ipv4,
    is_ipv6, is_mapped, is_octet, lemma_ipv4_bytes, lemma_ipv6_bytes, list_segments,
    longest_zeros, quad_segments, quad_text, segment_text, segments_text, zeros_at,
};
use crate::text::{lemma_ascii_literal, utf8};

verus! {

/// One more piece at the end of a text.
pub proof fn lemma_split_push(s: Seq<u8>, separator: u8, piece: Seq<u8>)
    requires
        !any_in(piece, ByteClass::Only(separator)),
    ensures
        split(s + seq![separator] + piece, separator) == split(s, separator).push(piece),
    decreases s.len(),
{
    let only = ByteClass::Only(separator);
    let whole = s + seq![separator] + piece;
    lemma_first_in(s, only);
    let i = first_in(s, only);
    if i < s.len() {
        assert forall|j: int| 0 <= j < i implies !only.has(#[trigger] whole[j]) by {
            assert(whole[j] == s[j]);
        }
        assert(whole[i] == s[i]);
        lemma_first_in_unique(whole, only, i);
        let rest = s.skip(i + 1);
        lemma_split_push(rest, separator, piece);
        assert(whole.skip(i + 1) =~= rest + seq![separator] + piece);
        assert(whole.take(i) =~= s.take(i));
        assert(split(whole, separator) =~= split(s, separator).push(piece));
    } else {
        assert forall|j: int| 0 <= j < s.len() implies !only.has(#[trigger] whole[j]) by {
            assert(whole[j] == s[j]);
        }
        assert(whole[s.len() as int] == separator);
        lemma_first_in_unique(whole, only, s.len() as int);
        assert(whole.take(s.len() as int) =~= s);
        assert(whole.skip(s.len() as int + 1) =~= piece);
        lemma_split_whole(piece, separator);
        lemma_split_whole(s, separator);
        assert(split(whole, separator) =~= seq![s].push(piece));
    }
}

/// A text without the separator is one piece.
pub proof fn lemma_split_whole(s: Seq<u8>, separator: u8)
    requires
        !any_in(s, ByteClass::Only(separator)),
    ensures
        split(s, separator) == seq![s],
{
    let only = ByteClass::Only(separator);
    lemma_first_in(s, only);
    let i = first_in(s, only);
    if i < s.len() {
        assert(only.has(s[i]));
    }
}

/// The digits of a segment are a group that stands for it.
proof fn lemma_segment_group(segment: nat)
    ensures
        hexadecimal(segment_text(segment)) == segment,
        segment_text(segment).len() >= 1,
        all_in(segment_text(segment), ByteClass::Hex),
        segment < 16 ==> segment_text(segment).len() == 1,
        segment >= 16 ==> segment_text(segment).len() == segment_text(segment / 16).len() + 1,
    decreases segment,
{
    let text = segment_text(segment);
    if segment < 16 {
        assert(text.drop_last() =~= Seq::<u8>::empty());
        assert(hexadecimal(text.drop_last()) == 0);
    } else {
        lemma_segment_group(segment / 16);
        let shorter = segment_text(segment / 16);
        assert(text.drop_last() =~= shorter);
        assert forall|i: int| 0 <= i < text.len() implies ByteClass::Hex.has(#[trigger] text[i]) by {
            if i < shorter.len() {
                assert(ByteClass::Hex.has(shorter[i]));
            }
        }
    }
}

proof fn lemma_is_group(segment: u16)
    ensures
        is_group(segment_text(segment as nat)),
        hexadecimal(segment_text(segment as nat)) == segment,
        !any_in(segment_text(segment as nat), ByteClass::Only(':' as u8)),
        !any_in(segment_text(segment as nat), ByteClass::Only('.' as u8)),
{
    let n = segment as nat;
    lemma_segment_group(n);
    lemma_segment_group(n / 16);
    lemma_segment_group(n / 256);
    lemma_segment_group(n / 4096);
    let text = segment_text(n);
    assert forall|i: int| 0 <= i < text.len() implies #[trigger] text[i] != ':' as u8 && text[i]
        != '.' as u8 by {
        assert(ByteClass::Hex.has(text[i]));
    }
}

/// The groups of segments.
spec fn groups_of(segments: Seq<u16>) -> Seq<Seq<u8>> {
    segments.map_values(|segment: u16| segment_text(segment as nat))
}

proof fn lemma_split_segments(segments: Seq<u16>)
    requires
        segments.len() > 0,
    ensures
        split(segments_text(segments), ':' as u8) == groups_of(segments),
    decreases segments.len(),
{
    lemma_is_group(segments.last());
    let group = segment_text(segments.last() as nat);
    if segments.len() == 1 {
        lemma_split_whole(group, ':' as u8);
        assert(groups_of(segments) =~= seq![group]);
    } else {
        let shorter = segments.drop_last();
        lemma_split_segments(shorter);
        lemma_split_push(segments_text(shorter), ':' as u8, group);
        assert(groups_of(segments) =~= groups_of(shorter).push(group));
    }
}

proof fn lemma_groups_read(segments: Seq<u16>, from: int, quad: bool)
    requires
        0 <= from <= segments.len(),
    ensures
        group_segments(groups_of(segments), from, quad) == Some(segments.skip(from)),
    decreases segments.len() - from,
{
    let groups = groups_of(segments);
    if from < segments.len() {
        lemma_groups_read(segments, from + 1, quad);
        lemma_is_group(segments[from]);
        assert(groups[from] == segment_text(segments[from] as nat));
        assert(seq![segments[from]] + segments.skip(from + 1) =~= segments.skip(from));
    } else {
        assert(segments.skip(from) =~= Seq::<u16>::empty());
    }
}

/// A list of segments is read back.
proof fn lemma_list_read(segments: Seq<u16>, quad: bool)
    ensures
        list_segments(segments_text(segments), quad) == Some(segments),
{
    if segments.len() > 0 {
        lemma_split_segments(segments);
        lemma_groups_read(segments, 0, quad);
        lemma_tidy(segments);
        assert(segments.skip(0) =~= segments);
    } else {
        assert(segments =~= Seq::<u16>::empty());
    }
}

/// Whether every colon of a text stands between two bytes that are none.
spec fn is_tidy(s: Seq<u8>) -> bool {
    forall|i: int|
        0 <= i < s.len() && #[trigger] s[i] == ':' as u8 ==> 0 < i < s.len() - 1 && s[i + 1]
            != ':' as u8
}

proof fn lemma_tidy(segments: Seq<u16>)
    ensures
        is_tidy(segments_text(segments)),
        segments.len() > 0 ==> segments_text(segments).len() > 0,
    decreases segments.len(),
{
    if segments.len() > 0 {
        lemma_is_group(segments.last());
        let group = segment_text(segments.last() as nat);
        assert forall|i: int| 0 <= i < group.len() implies #[trigger] group[i] != ':' as u8 by {
            assert(ByteClass::Hex.has(group[i]));
        }
        if segments.len() > 1 {
            let shorter = segments_text(segments.drop_last());
            lemma_tidy(segments.drop_last());
            let text = segments_text(segments);
            assert forall|i: int| 0 <= i < text.len() && #[trigger] text[i] == ':' as u8 implies 0 < i
                < text.len() - 1 && text[i + 1] != ':' as u8 by {
                if i < shorter.len() {
                    assert(shorter[i] == text[i]);
                    assert(shorter[i + 1] == text[i + 1]);
                } else if i == shorter.len() {
                    assert(text[i + 1] == group[0]);
                } else {
                    assert(group[i - shorter.len() - 1] == text[i]);
                }
            }
        }
    }
}

/// A tidy text has no pair of colons.
proof fn lemma_tidy_has_no_pair(s: Seq<u8>, from: int)
    requires
        0 <= from,
        is_tidy(s),
    ensures
        double_colon(s, from) == s.len(),
    decreases s.len() - from,
{
    if from + 1 < s.len() {
        assert(!(s[from] == ':' as u8 && s[from + 1] == ':' as u8));
        lemma_tidy_has_no_pair(s, from + 1);
    }
}

/// The first pair of colons after a tidy text.
proof fn lemma_pair_after(head: Seq<u8>, tail: Seq<u8>, from: int)
    requires
        0 <= from <= head.len(),
        is_tidy(head),
    ensures
        double_colon(head + seq![':' as u8, ':' as u8] + tail, from) == head.len(),
    decreases head.len() - from,
{
    let s = head + seq![':' as u8, ':' as u8] + tail;
    if from < head.len() {
        if s[from] == ':' as u8 {
            assert(head[from] == ':' as u8);
            assert(s[from + 1] == head[from + 1]);
        }
        lemma_pair_after(head, tail, from + 1);
    } else {
        assert(s[from] == ':' as u8 && s[from + 1] == ':' as u8);
    }
}

proof fn lemma_zeros(segments: Seq<u16>, i: int)
    requires
        0 <= i <= segments.len(),
    ensures
        0 <= zeros_at(segments, i),
        i + zeros_at(segments, i) <= segments.len(),
        forall|k: int| i <= k < i + zeros_at(segments, i) ==> segments[k] == 0,
    decreases segments.len() - i,
{
    if i < segments.len() && segments[i] == 0 {
        lemma_zeros(segments, i + 1);
    }
}

proof fn lemma_longest_within(segments: Seq<u16>, i: int)
    requires
        0 <= i <= segments.len(),
    ensures
        i <= longest_zeros(segments, i) <= segments.len(),
    decreases segments.len() - i,
{
    if i < segments.len() {
        lemma_longest_within(segments, i + 1);
    }
}

/// An octet in digits is read back.
proof fn lemma_octet_text(n: nat)
    requires
        n < 256,
    ensures
        is_octet(digits_of(n)),
        decimal(digits_of(n)) == n,
        !any_in(digits_of(n), ByteClass::Only('.' as u8)),
        !any_in(digits_of(n), ByteClass::Only(':' as u8)),
{
    lemma_digits_of(n);
    lemma_digits_of(n / 10);
    lemma_digits_of(n / 100);
    let text = digits_of(n);
    assert forall|i: int| 0 <= i < text.len() implies #[trigger] text[i] != '.' as u8 && text[i]
        != ':' as u8 by {
        assert(ByteClass::Digit.has(text[i]));
    }
    if n >= 100 {
        assert(text[0] == digits_of(n / 100)[0]);
    } else if n >= 10 {
        assert(text[0] == digits_of(n / 10)[0]);
    }
}

/// A dotted quad is read back.
proof fn lemma_quad_read(high: u16, low: u16)
    ensures
        is_ipv4(quad_text(high, low)),
        quad_segments(ipv4_octets(quad_text(high, low))) == seq![high, low],
        !is_group(quad_text(high, low)),
        !any_in(quad_text(high, low), ByteClass::Only(':' as u8)),
        quad_text(high, low).len() > 0,
{
    let a = high as nat / 256;
    let b = high as nat % 256;
    let c = low as nat / 256;
    let d = low as nat % 256;
    lemma_octet_text(a);
    lemma_octet_text(b);
    lemma_octet_text(c);
    lemma_octet_text(d);
    let dot = '.' as u8;
    let one = digits_of(a);
    let two = one + seq![dot] + digits_of(b);
    let three = two + seq![dot] + digits_of(c);
    let text = quad_text(high, low);
    assert(text =~= three + seq![dot] + digits_of(d));
    lemma_split_whole(one, dot);
    lemma_split_push(one, dot, digits_of(b));
    lemma_split_push(two, dot, digits_of(c));
    lemma_split_push(three, dot, digits_of(d));
    let octets = split(text, dot);
    assert(octets =~= seq![digits_of(a), digits_of(b), digits_of(c), digits_of(d)]);
    let read = ipv4_octets(text);
    assert(read[0] == a && read[1] == b && read[2] == c && read[3] == d);
    assert(quad_segments(read) =~= seq![high, low]);
    assert(text[one.len() as int] == dot);
    assert(!ByteClass::Hex.has(text[one.len() as int]));
    assert forall|i: int| 0 <= i < text.len() implies #[trigger] text[i] != ':' as u8 by {
        if i < one.len() {
            assert(text[i] == digits_of(a)[i]);
            assert(!ByteClass::Only(':' as u8).has(digits_of(a)[i]));
        } else if one.len() < i < two.len() {
            let k = i - one.len() - 1;
            assert(text[i] == digits_of(b)[k]);
            assert(!ByteClass::Only(':' as u8).has(digits_of(b)[k]));
        } else if two.len() < i < three.len() {
            let k = i - two.len() - 1;
            assert(text[i] == digits_of(c)[k]);
            assert(!ByteClass::Only(':' as u8).has(digits_of(c)[k]));
        } else if i > three.len() {
            let k = i - three.len() - 1;
            assert(text[i] == digits_of(d)[k]);
            assert(!ByteClass::Only(':' as u8).has(digits_of(d)[k]));
        }
    }
}

proof fn lemma_mapped_read(segments: Seq<u16>)
    requires
        is_mapped(segments),
    ensures
        ipv6_segments(ipv6_text(segments)) == Some(segments),
{
    let quad = quad_text(segments[6], segments[7]);
    let text = ipv6_text(segments);
    reveal_strlit("::ffff:");
    lemma_ascii_literal("::ffff:"@);
    lemma_quad_read(segments[6], segments[7]);
    assert(text[0] == ':' as u8 && text[1] == ':' as u8);
    assert(double_colon(text, 0) == 0);
    assert(text.take(0) =~= Seq::<u8>::empty());
    let f = 'f' as u8;
    let ffff = seq![f, f, f, f];
    let tail = ffff + seq![':' as u8] + quad;
    assert(text.skip(2) =~= tail);
    assert(!any_in(ffff, ByteClass::Only(':' as u8)));
    lemma_split_whole(ffff, ':' as u8);
    lemma_split_push(ffff, ':' as u8, quad);
    let groups = split(tail, ':' as u8);
    assert(groups =~= seq![ffff, quad]);
    assert(is_group(ffff));
    assert(hexadecimal(ffff) == 0xffff) by {
        reveal_with_fuel(hexadecimal, 5);
        assert(ffff.drop_last() =~= seq![f, f, f]);
        assert(seq![f, f, f].drop_last() =~= seq![f, f]);
        assert(seq![f, f].drop_last() =~= seq![f]);
        assert(seq![f].drop_last() =~= Seq::<u8>::empty());
    }
    assert(group_segments(groups, 1, true) == Some(seq![segments[6], segments[7]]));
    assert(group_segments(groups, 0, true) == Some(
        seq![0xffffu16] + seq![segments[6], segments[7]],
    ));
    let read = seq![0xffffu16] + seq![segments[6], segments[7]];
    assert(list_segments(tail, true) == Some(read));
    assert(list_segments(text.take(0), false) == Some(Seq::<u16>::empty()));
    assert(Seq::<u16>::empty() + Seq::new(5, |i: int| 0u16) + read =~= segments);
}

proof fn lemma_plain_read(segments: Seq<u16>)
    requires
        segments.len() == 8,
    ensures
        ipv6_segments(segments_text(segments)) == Some(segments),
{
    lemma_tidy(segments);
    lemma_tidy_has_no_pair(segments_text(segments), 0);
    lemma_list_read(segments, true);
}

proof fn lemma_shortened_read(segments: Seq<u16>, start: int, len: int)
    requires
        segments.len() == 8,
        0 <= start,
        1 < len,
        start + len <= 8,
        forall|k: int| start <= k < start + len ==> segments[k] == 0,
    ensures
        ipv6_segments(
            segments_text(segments.take(start)) + utf8("::"@) + segments_text(
                segments.skip(start + len),
            ),
        ) == Some(segments),
{
    reveal_strlit("::");
    lemma_ascii_literal("::"@);
    assert(utf8("::"@) =~= seq![':' as u8, ':' as u8]);
    let before = segments.take(start);
    let after = segments.skip(start + len);
    let head = segments_text(before);
    let tail = segments_text(after);
    let text = head + utf8("::"@) + tail;
    lemma_tidy(before);
    lemma_pair_after(head, tail, 0);
    lemma_list_read(before, false);
    lemma_list_read(after, true);
    assert(text.take(head.len() as int) =~= head);
    assert(text.skip(head.len() as int + 2) =~= tail);
    assert(before + Seq::new(len as nat, |i: int| 0u16) + after =~= segments);
}

/// Reading the canonical text of an address gives the address back.
pub proof fn lemma_ipv6_round_trip(segments: Seq<u16>)
    requires
        segments.len() == 8,
    ensures
        ipv6_segments(ipv6_text(segments)) == Some(segments),
{
    let start = longest_zeros(segments, 0);
    lemma_longest_within(segments, 0);
    lemma_zeros(segments, start);
    if is_mapped(segments) {
        lemma_mapped_read(segments);
    } else if zeros_at(segments, start) > 1 {
        lemma_shortened_read(segments, start, zeros_at(segments, start));
    } else {
        lemma_plain_read(segments);
    }
}

proof fn lemma_segments_len(s: Seq<u8>)
    requires
        is_ipv6(s),
    ensures
        ipv6_segments(s).unwrap().len() == 8,
{
}

/// To render an address again changes nothing: there is one canonical text of each address.
pub proof fn lemma_rendering_is_idempotent(s: Seq<u8>)
    requires
        is_ipv6(s),
    ensures
        is_ipv6(ipv6_text(ipv6_segments(s).unwrap())),
        ipv6_text(ipv6_segments(ipv6_text(ipv6_segments(s).unwrap())).unwrap()) == ipv6_text(
            ipv6_segments(s).unwrap(),
        ),
{
    lemma_segments_len(s);
    lemma_ipv6_round_trip(ipv6_segments(s).unwrap());
}

/// No text is both an IPv4 address and an IPv6 address.
pub proof fn lemma_families_differ(s: Seq<u8>)
    ensures
        !(is_ipv4(s) && is_ipv6(s)),
{
    if is_ipv4(s) && is_ipv6(s) {
        lemma_ipv4_bytes(s);
        lemma_ipv6_bytes(s);
        assert forall|i: int| 0 <= i < s.len() implies #[trigger] s[i] != ':' as u8 by {
            assert(is_digit(s[i]) || s[i] == '.' as u8);
        }
        lemma_tidy_has_no_pair(s, 0);
        lemma_split_whole(s, ':' as u8);
        let groups = seq![s];
        assert(group_segments(groups, 1, true) == Some(Seq::<u16>::empty()));
        assert(group_segments(groups, 0, true).unwrap().len() <= 2);
    }
}

} // verus!
