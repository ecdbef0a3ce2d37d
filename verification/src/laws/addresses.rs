//! IPv6 addresses, in every spelling.

use vstd::prelude::*;
use crate::bytes::ByteClass;
use crate::decimal::digits_of;
use crate::hex::hexadecimal;
use crate::ip::{
    double_colon, group_segments, ipv4_octets, ipv6_segments, ipv6_text, is_group, list_segments,
    longest_zeros, quad_segments, segment_text, segments_text, zeros_at,
};
use crate::laws::byte_text::{lemma_joined_splits, with_between};
use crate::laws::hosts::{lemma_quads_are_hosts, quad};
use crate::text::{lemma_ascii_literal, utf8};

verus! {

/// Whether a text is a group of an address: one to four hexadecimal digits.
pub open spec fn is_hex_group(s: Seq<u8>) -> bool {
    &&& 1 <= s.len() <= 4
    &&& forall|i: int|
        0 <= i < s.len() ==> 0x30 <= #[trigger] s[i] <= 0x39 || 0x41 <= s[i] <= 0x46 || 0x61 <= s[i]
            <= 0x66
}

/// Whether all texts are groups.
pub open spec fn are_groups(groups: Seq<Seq<u8>>) -> bool {
    forall|i: int| 0 <= i < groups.len() ==> is_hex_group(#[trigger] groups[i])
}

/// The numbers of groups.
pub open spec fn group_values(groups: Seq<Seq<u8>>) -> Seq<u16> {
    Seq::new(groups.len(), |i: int| hexadecimal(groups[i]) as u16)
}

proof fn lemma_group(s: Seq<u8>)
    requires
        is_hex_group(s),
    ensures
        is_group(s),
        forall|i: int| 0 <= i < s.len() ==> #[trigger] s[i] != 0x3a && s[i] != 0x2e,
{
    assert forall|i: int| 0 <= i < s.len() implies ByteClass::Hex.has(#[trigger] s[i]) by {}
}

proof fn lemma_groups_read(groups: Seq<Seq<u8>>, from: int, quad: bool)
    requires
        0 <= from <= groups.len(),
        are_groups(groups),
    ensures
        group_segments(groups, from, quad) == Some(group_values(groups).skip(from)),
    decreases groups.len() - from,
{
    let values = group_values(groups);
    if from < groups.len() {
        assert(is_hex_group(groups[from]));
        lemma_group(groups[from]);
        lemma_groups_read(groups, from + 1, quad);
        assert(values.skip(from) =~= seq![hexadecimal(groups[from]) as u16] + values.skip(from + 1));
    } else {
        assert(values.skip(from) =~= Seq::<u16>::empty());
    }
}

proof fn lemma_groups_then_quad(groups: Seq<Seq<u8>>, from: int, a: u8, b: u8, c: u8, d: u8)
    requires
        0 <= from <= groups.len(),
        are_groups(groups),
    ensures
        group_segments(groups.push(quad(a, b, c, d)), from, true) == Some(
            group_values(groups).skip(from) + seq![
                (256 * a + b) as u16,
                (256 * c + d) as u16,
            ],
        ),
    decreases groups.len() - from,
{
    let all = groups.push(quad(a, b, c, d));
    let values = group_values(groups);
    let ending = seq![(256 * a + b) as u16, (256 * c + d) as u16];
    if from < groups.len() {
        assert(is_hex_group(groups[from]));
        lemma_group(groups[from]);
        assert(all[from] == groups[from]);
        lemma_groups_then_quad(groups, from + 1, a, b, c, d);
        assert(values.skip(from) + ending =~= seq![hexadecimal(groups[from]) as u16] + (values.skip(
            from + 1,
        ) + ending));
    } else {
        let s = quad(a, b, c, d);
        let none = Seq::<u8>::empty();
        lemma_quads_are_hosts(a, b, c, d, none);
        assert(!is_group(s)) by {
            let p = digits_of(a as nat).len() as int;
            assert(s[p] == 0x2e);
            assert(!ByteClass::Hex.has(s[p]));
        }
        assert(all[from] == s);
        assert(values.skip(from) =~= Seq::<u16>::empty());
        assert(values.skip(from) + ending =~= quad_segments(ipv4_octets(s)));
    }
}


proof fn lemma_pair_found(s: Seq<u8>, from: int, gap: int)
    requires
        0 <= from <= gap,
        gap + 1 < s.len(),
        s[gap] == 0x3a,
        s[gap + 1] == 0x3a,
        forall|i: int, j: int|
            0 <= i && j == i + 1 && j <= gap && #[trigger] s[i] == 0x3a && #[trigger] s[j] == 0x3a
                ==> false,
    ensures
        double_colon(s, from) == gap,
    decreases gap - from,
{
    if from < gap {
        if s[from] == 0x3a && s[from + 1] == 0x3a {
            assert(false);
        }
        lemma_pair_found(s, from + 1, gap);
    }
}

proof fn lemma_no_pair(s: Seq<u8>, from: int)
    requires
        0 <= from,
        forall|i: int, j: int|
            0 <= i && j == i + 1 && j < s.len() && #[trigger] s[i] == 0x3a && #[trigger] s[j]
                == 0x3a ==> false,
    ensures
        double_colon(s, from) == s.len(),
    decreases s.len() - from,
{
    if from + 1 < s.len() {
        if s[from] == 0x3a && s[from + 1] == 0x3a {
            assert(false);
        }
        lemma_no_pair(s, from + 1);
    }
}

/// Texts that are not empty and hold no colon, with colons between them, hold no two colons side
/// by side and none at an end.
proof fn lemma_colons_apart(texts: Seq<Seq<u8>>)
    requires
        forall|k: int| 0 <= k < texts.len() ==> (#[trigger] texts[k]).len() > 0,
        forall|k: int, j: int|
            0 <= k < texts.len() && 0 <= j < texts[k].len() ==> #[trigger] texts[k][j] != 0x3a,
    ensures
        ({
            let s = with_between(texts, 0x3a);
            &&& forall|i: int, j: int|
                0 <= i && j == i + 1 && j < s.len() && #[trigger] s[i] == 0x3a && #[trigger] s[j]
                    == 0x3a ==> false
            &&& texts.len() > 0 ==> s.len() > 0 && s[0] != 0x3a && s[s.len() - 1] != 0x3a
            &&& texts.len() == 0 ==> s.len() == 0
        }),
    decreases texts.len(),
{
    let s = with_between(texts, 0x3a);
    if texts.len() == 1 {
        assert(texts[0].len() > 0);
        assert(texts[0][0] != 0x3a);
        assert(texts[0][texts[0].len() - 1] != 0x3a);
        assert forall|i: int, j: int|
            0 <= i && j == i + 1 && j < s.len() && #[trigger] s[i] == 0x3a && #[trigger] s[j]
                == 0x3a implies false by {
            assert(texts[0][i] != 0x3a);
        }
    } else if texts.len() > 1 {
        let later = texts.skip(1);
        assert forall|k: int| 0 <= k < later.len() implies (#[trigger] later[k]).len() > 0 by {
            assert(later[k] == texts[k + 1]);
        }
        assert forall|k: int, j: int|
            0 <= k < later.len() && 0 <= j < later[k].len() implies #[trigger] later[k][j]
            != 0x3a by {
            assert(later[k][j] == texts[k + 1][j]);
        }
        lemma_colons_apart(later);
        let t = with_between(later, 0x3a);
        let n = texts[0].len() as int;
        assert(n > 0);
        assert(s[0] == texts[0][0]);
        assert(s[s.len() - 1] == t[t.len() - 1]);
        assert forall|i: int, j: int|
            0 <= i && j == i + 1 && j < s.len() && #[trigger] s[i] == 0x3a && #[trigger] s[j]
                == 0x3a implies false by {
            if i < n {
                assert(s[i] == texts[0][i]);
            } else if i == n {
                assert(s[j] == t[0]);
            } else {
                assert(s[i] == t[i - n - 1]);
                assert(s[j] == t[j - n - 1]);
            }
        }
    }
}

/// What a list of groups is read as, at the end of an address with a dotted quad behind them or
/// without.
proof fn lemma_list_read(groups: Seq<Seq<u8>>, quad: bool)
    requires
        are_groups(groups),
    ensures
        list_segments(with_between(groups, 0x3a), quad) == Some(group_values(groups)),
        ({
            let s = with_between(groups, 0x3a);
            &&& forall|i: int, j: int|
                0 <= i && j == i + 1 && j < s.len() && #[trigger] s[i] == 0x3a && #[trigger] s[j]
                    == 0x3a ==> false
            &&& groups.len() > 0 ==> s.len() > 0 && s[0] != 0x3a && s[s.len() - 1] != 0x3a
            &&& groups.len() == 0 ==> s.len() == 0
        }),
{
    assert forall|k: int, j: int|
        0 <= k < groups.len() && 0 <= j < groups[k].len() implies #[trigger] groups[k][j]
        != 0x3a by {
        assert(is_hex_group(groups[k]));
        lemma_group(groups[k]);
    }
    assert forall|k: int| 0 <= k < groups.len() implies (#[trigger] groups[k]).len() > 0 by {
        assert(is_hex_group(groups[k]));
    }
    lemma_colons_apart(groups);
    if groups.len() > 0 {
        lemma_joined_splits(groups, 0x3a);
        lemma_groups_read(groups, 0, quad);
        assert(group_values(groups).skip(0) =~= group_values(groups));
    } else {
        assert(group_values(groups) =~= Seq::<u16>::empty());
    }
}

proof fn lemma_quad_list_read(groups: Seq<Seq<u8>>, a: u8, b: u8, c: u8, d: u8)
    requires
        are_groups(groups),
    ensures
        ({
            let s = with_between(groups.push(quad(a, b, c, d)), 0x3a);
            &&& list_segments(s, true) == Some(
                group_values(groups) + seq![(256 * a + b) as u16, (256 * c + d) as u16],
            )
            &&& forall|i: int, j: int|
                0 <= i && j == i + 1 && j < s.len() && #[trigger] s[i] == 0x3a && #[trigger] s[j]
                    == 0x3a ==> false
            &&& s.len() > 0
            &&& s[0] != 0x3a
        }),
{
    let q = quad(a, b, c, d);
    let all = groups.push(q);
    let none = Seq::<u8>::empty();
    lemma_quads_are_hosts(a, b, c, d, none);
    assert forall|k: int, j: int| 0 <= k < all.len() && 0 <= j < all[k].len() implies #[trigger] all[k][j]
        != 0x3a by {
        if k < groups.len() {
            assert(is_hex_group(groups[k]));
            lemma_group(groups[k]);
            assert(all[k] == groups[k]);
        } else {
            assert(all[k] == q);
            assert(0x2d <= q[j] <= 0x2e || 0x30 <= q[j] <= 0x39 || 0x41 <= q[j] <= 0x5a || 0x61
                <= q[j] <= 0x7a);
        }
    }
    assert forall|k: int| 0 <= k < all.len() implies (#[trigger] all[k]).len() > 0 by {
        if k < groups.len() {
            assert(is_hex_group(groups[k]));
        }
    }
    lemma_colons_apart(all);
    lemma_joined_splits(all, 0x3a);
    lemma_groups_then_quad(groups, 0, a, b, c, d);
    assert(group_values(groups).skip(0) =~= group_values(groups));
}

/// Eight groups with colons between them are an address, and so are six and a dotted quad, which
/// stands for the last two.
pub proof fn lemma_full_address(groups: Seq<Seq<u8>>, a: u8, b: u8, c: u8, d: u8)
    requires
        are_groups(groups),
    ensures
        groups.len() == 8 ==> ipv6_segments(with_between(groups, 0x3a)) == Some(
            group_values(groups),
        ),
        groups.len() == 6 ==> ipv6_segments(with_between(groups.push(quad(a, b, c, d)), 0x3a))
            == Some(group_values(groups) + seq![(256 * a + b) as u16, (256 * c + d) as u16]),
{
    lemma_list_read(groups, true);
    lemma_quad_list_read(groups, a, b, c, d);
    lemma_no_pair(with_between(groups, 0x3a), 0);
    lemma_no_pair(with_between(groups.push(quad(a, b, c, d)), 0x3a), 0);
}

/// Two colons stand for the zeros that are missing to eight groups, one at least, wherever they
/// are, whether the address ends with groups or with a dotted quad.
pub proof fn lemma_short_address(
    head: Seq<Seq<u8>>,
    tail: Seq<Seq<u8>>,
    a: u8,
    b: u8,
    c: u8,
    d: u8,
)
    requires
        are_groups(head),
        are_groups(tail),
    ensures
        head.len() + tail.len() <= 7 ==> ipv6_segments(
            with_between(head, 0x3a) + seq![0x3au8, 0x3au8] + with_between(tail, 0x3a),
        ) == Some(
            group_values(head) + Seq::new(
                (8 - head.len() - tail.len()) as nat,
                |i: int| 0u16,
            ) + group_values(tail),
        ),
        head.len() + tail.len() <= 5 ==> ipv6_segments(
            with_between(head, 0x3a) + seq![0x3au8, 0x3au8] + with_between(
                tail.push(quad(a, b, c, d)),
                0x3a,
            ),
        ) == Some(
            group_values(head) + Seq::new(
                (6 - head.len() - tail.len()) as nat,
                |i: int| 0u16,
            ) + (group_values(tail) + seq![(256 * a + b) as u16, (256 * c + d) as u16]),
        ),
{
    lemma_list_read(head, false);
    lemma_list_read(tail, true);
    lemma_quad_list_read(tail, a, b, c, d);
    let front = with_between(head, 0x3a);
    let one = with_between(tail, 0x3a);
    let two = with_between(tail.push(quad(a, b, c, d)), 0x3a);
    lemma_gap_found(front, one);
    lemma_gap_found(front, two);
    if head.len() + tail.len() <= 5 {
        assert(Seq::new((8 - head.len() - (tail.len() + 2)) as nat, |i: int| 0u16) =~= Seq::new(
            (6 - head.len() - tail.len()) as nat,
            |i: int| 0u16,
        ));
    }
}

proof fn lemma_gap_found(front: Seq<u8>, back: Seq<u8>)
    requires
        forall|i: int, j: int|
            0 <= i && j == i + 1 && j < front.len() && #[trigger] front[i] == 0x3a
                && #[trigger] front[j] == 0x3a ==> false,
        front.len() > 0 ==> front[front.len() - 1] != 0x3a,
    ensures
        ({
            let s = front + seq![0x3au8, 0x3au8] + back;
            let n = front.len() as int;
            double_colon(s, 0) == n && s.take(n) == front && s.skip(n + 2) == back && n < s.len()
        }),
{
    let s = front + seq![0x3au8, 0x3au8] + back;
    let n = front.len() as int;
    assert forall|i: int, j: int|
        0 <= i && j == i + 1 && j <= n && #[trigger] s[i] == 0x3a && #[trigger] s[j]
            == 0x3a implies false by {
        assert(s[i] == front[i]);
        if j < n {
            assert(s[j] == front[j]);
        }
    }
    lemma_pair_found(s, 0, n);
    assert(s.take(n) =~= front);
    assert(s.skip(n + 2) =~= back);
}

/// A segment is written in lower-case hexadecimal digits that stand for it, without a zero in
/// front.
pub proof fn lemma_segment_writes(n: nat)
    ensures
        hexadecimal(segment_text(n)) == n,
        segment_text(n).len() >= 1,
        forall|i: int|
            0 <= i < segment_text(n).len() ==> 0x30 <= #[trigger] segment_text(n)[i] <= 0x39 || 0x61
                <= segment_text(n)[i] <= 0x66,
        segment_text(n).len() > 1 ==> segment_text(n)[0] != 0x30,
        n > 0 ==> segment_text(n)[0] != 0x30,
    decreases n,
{
    let text = segment_text(n);
    if n < 16 {
        assert(text.drop_last() =~= Seq::<u8>::empty());
        assert(hexadecimal(text.drop_last()) == 0);
    } else {
        lemma_segment_writes(n / 16);
        let shorter = segment_text(n / 16);
        assert(text.drop_last() =~= shorter);
        assert(text[0] == shorter[0]);
        assert forall|i: int| 0 <= i < text.len() implies 0x30 <= #[trigger] text[i] <= 0x39 || 0x61
            <= text[i] <= 0x66 by {
            if i < shorter.len() {
                assert(text[i] == shorter[i]);
            }
        }
    }
}

/// The texts of segments with colons between them.
pub open spec fn colon_text(segments: Seq<u16>) -> Seq<u8> {
    with_between(Seq::new(segments.len(), |i: int| segment_text(segments[i] as nat)), 0x3a)
}

proof fn lemma_between_push(texts: Seq<Seq<u8>>, last: Seq<u8>)
    requires
        texts.len() >= 1,
    ensures
        with_between(texts.push(last), 0x3a) == with_between(texts, 0x3a) + seq![0x3au8] + last,
    decreases texts.len(),
{
    let all = texts.push(last);
    if texts.len() == 1 {
        assert(all.skip(1) =~= seq![last]);
        assert(with_between(all.skip(1), 0x3a) == last);
    } else {
        assert(all.skip(1) =~= texts.skip(1).push(last));
        lemma_between_push(texts.skip(1), last);
        assert(with_between(all, 0x3a) =~= with_between(texts, 0x3a) + seq![0x3au8] + last);
    }
}

proof fn lemma_colon_text(segments: Seq<u16>)
    ensures
        segments_text(segments) == colon_text(segments),
    decreases segments.len(),
{
    let texts = Seq::new(segments.len(), |i: int| segment_text(segments[i] as nat));
    if segments.len() > 1 {
        let shorter = segments.drop_last();
        let fewer = Seq::new(shorter.len(), |i: int| segment_text(shorter[i] as nat));
        lemma_colon_text(shorter);
        assert(texts =~= fewer.push(segment_text(segments.last() as nat)));
        lemma_between_push(fewer, segment_text(segments.last() as nat));
    }
}

/// Whether the segments from `from` up to `to` are zero.
pub open spec fn is_zero_run(segments: Seq<u16>, from: int, to: int) -> bool {
    0 <= from <= to <= segments.len() && forall|k: int| from <= k < to ==> #[trigger] segments[k]
        == 0
}

proof fn lemma_run_counted(segments: Seq<u16>, from: int, to: int)
    requires
        is_zero_run(segments, from, to),
    ensures
        to - from <= zeros_at(segments, from),
        is_zero_run(segments, from, from + zeros_at(segments, from)),
    decreases segments.len() - from,
{
    if from < segments.len() && segments[from] == 0 {
        let next = if to > from {
            to
        } else {
            from + 1
        };
        lemma_run_counted(segments, from + 1, next);
    } else if from < to {
        assert(segments[from] == 0);
    }
}

proof fn lemma_longest_first(segments: Seq<u16>, i: int)
    requires
        0 <= i <= segments.len(),
    ensures
        i <= longest_zeros(segments, i) <= segments.len(),
        forall|j: int|
            i <= j < segments.len() ==> #[trigger] zeros_at(segments, j) <= zeros_at(
                segments,
                longest_zeros(segments, i),
            ),
        forall|j: int|
            i <= j < longest_zeros(segments, i) ==> #[trigger] zeros_at(segments, j) < zeros_at(
                segments,
                longest_zeros(segments, i),
            ),
    decreases segments.len() - i,
{
    if i < segments.len() {
        lemma_longest_first(segments, i + 1);
    }
}

/// An address is written in its canonical text: of its runs of zeros the longest, and of those
/// the first, is left out for two colons if it has two segments at least; every other segment is
/// written as it is. An address that maps an IPv4 address ends with that as a dotted quad.
pub proof fn lemma_address_is_written(segments: Seq<u16>, start: int, end: int)
    requires
        segments.len() == 8,
        is_zero_run(segments, start, end),
        forall|from: int, to: int|
            #[trigger] is_zero_run(segments, from, to) ==> to - from < end - start || to - from
                == end - start && start <= from,
    ensures
        ({
            let mapped = segments[0] == 0 && segments[1] == 0 && segments[2] == 0 && segments[3] == 0
                && segments[4] == 0 && segments[5] == 0xffff;
            &&& mapped ==> ipv6_text(segments) == utf8("::ffff:"@) + quad(
                (segments[6] / 256) as u8,
                (segments[6] % 256) as u8,
                (segments[7] / 256) as u8,
                (segments[7] % 256) as u8,
            )
            &&& !mapped && end - start >= 2 ==> ipv6_text(segments) == colon_text(
                segments.take(start),
            ) + seq![0x3au8, 0x3au8] + colon_text(segments.skip(end))
            &&& !mapped && end - start < 2 ==> ipv6_text(segments) == colon_text(segments)
        }),
{
    let first = longest_zeros(segments, 0);
    let len = zeros_at(segments, first);
    lemma_longest_first(segments, 0);
    assert(is_zero_run(segments, first, first));
    lemma_run_counted(segments, first, first);
    lemma_run_counted(segments, start, end);
    assert(is_zero_run(segments, first, first + len));
    if start < segments.len() {
        assert(zeros_at(segments, start) <= len);
    }
    assert(len == end - start);
    if len > 0 {
        assert(start == first);
    }
    lemma_colon_text(segments);
    lemma_colon_text(segments.take(first));
    lemma_colon_text(segments.skip(first + len));
    reveal_strlit("::");
    lemma_ascii_literal("::"@);
    assert(utf8("::"@) =~= seq![0x3au8, 0x3au8]);
    assert(segments[6] as nat / 256 == (segments[6] / 256) as u8);
    assert(segments[6] as nat % 256 == (segments[6] % 256) as u8);
    assert(segments[7] as nat / 256 == (segments[7] / 256) as u8);
    assert(segments[7] as nat % 256 == (segments[7] % 256) as u8);
}

} // verus!
