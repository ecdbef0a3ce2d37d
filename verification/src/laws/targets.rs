//! Request targets, byte by byte.

use vstd::prelude::*;
use crate::bytes::{ByteClass, all_in, any_in, is_hex, lemma_first_in_unique, lowered};
use crate::hex::hex_digit_value;
use crate::laws::byte_text::{lemma_joined_splits, with_between};
use crate::request_target::{
    canonical, canonical_from, escape_of, escape_reason, escaped_byte, is_escape, kept_after,
    lacks, lemma_canonical_concat, lemma_canonical_shifts, lemma_envelope, lemma_joined_front,
    lemma_lenient_component, normalized, normalized_leniently, one_dot, path_end, query_of,
    reduced, rooted, segments_of, two_dots, upper_digit, with_query,
};
use crate::route::{decoded_byte, is_unreserved};
use crate::text::utf8;
use crate::types::{Fault, RequestLineModel, TargetForm, TargetModel};

verus! {

/// A piece of a path or a query: a byte that stands for itself, or an escape of two digits.
pub enum Piece {
    Byte(u8),
    Escape(u8, u8),
}

/// Whether a byte is a hexadecimal digit.
pub open spec fn is_digit_of_sixteen(b: u8) -> bool {
    0x30 <= b <= 0x39 || 0x41 <= b <= 0x46 || 0x61 <= b <= 0x66
}

/// The number of a hexadecimal digit.
pub open spec fn nibble(b: u8) -> int {
    if b <= 0x39 {
        b - 0x30
    } else if b <= 0x46 {
        b - 0x37
    } else {
        b - 0x57
    }
}

/// What an escape of two digits stands for.
pub open spec fn stands_for(high: u8, low: u8) -> int {
    16 * nibble(high) + nibble(low)
}

/// Whether an escape is needless: it stands for a letter, a digit, or one of `-._~`.
pub open spec fn is_needless(high: u8, low: u8) -> bool {
    let b = stands_for(high, low);
    0x30 <= b <= 0x39 || 0x41 <= b <= 0x5a || 0x61 <= b <= 0x7a || b == 0x2d || b == 0x2e || b
        == 0x5f || b == 0x7e
}

/// A hexadecimal digit as a capital.
pub open spec fn capital(b: u8) -> u8 {
    if b >= 0x61 {
        (b - 0x20) as u8
    } else {
        b
    }
}

/// Whether a target may hold a piece: a visible byte other than `#`, `\` and `%`, or an escape
/// for a byte that is no control byte. In a segment of a path the piece is not `/` or `?`, and
/// the escape does not stand for `/` or `\`.
pub open spec fn is_piece(piece: Piece, in_path: bool) -> bool {
    match piece {
        Piece::Byte(b) => {
            &&& 0x21 <= b <= 0x7e
            &&& b != 0x23 && b != 0x5c && b != 0x25
            &&& in_path ==> b != 0x2f && b != 0x3f
        },
        Piece::Escape(high, low) => {
            &&& is_digit_of_sixteen(high) && is_digit_of_sixteen(low)
            &&& stands_for(high, low) >= 0x20 && stands_for(high, low) != 0x7f
            &&& in_path ==> stands_for(high, low) != 0x2f && stands_for(high, low) != 0x5c
        },
    }
}

/// Whether all pieces are ones that a target may hold.
pub open spec fn are_pieces(pieces: Seq<Piece>, in_path: bool) -> bool {
    forall|i: int| 0 <= i < pieces.len() ==> is_piece(#[trigger] pieces[i], in_path)
}

/// The bytes of pieces as they come.
pub open spec fn spelling(pieces: Seq<Piece>) -> Seq<u8>
    decreases pieces.len(),
{
    if pieces.len() == 0 {
        Seq::empty()
    } else {
        match pieces[0] {
            Piece::Byte(b) => seq![b] + spelling(pieces.skip(1)),
            Piece::Escape(high, low) => seq![0x25u8, high, low] + spelling(pieces.skip(1)),
        }
    }
}

/// The bytes of pieces as they are normalized: needless escapes are undone, the others are in
/// capitals.
pub open spec fn normal(pieces: Seq<Piece>) -> Seq<u8>
    decreases pieces.len(),
{
    if pieces.len() == 0 {
        Seq::empty()
    } else {
        match pieces[0] {
            Piece::Byte(b) => seq![b] + normal(pieces.skip(1)),
            Piece::Escape(high, low) => if is_needless(high, low) {
                seq![stands_for(high, low) as u8] + normal(pieces.skip(1))
            } else {
                seq![0x25u8, capital(high), capital(low)] + normal(pieces.skip(1))
            },
        }
    }
}

pub(crate) proof fn lemma_escape_pair(high: u8, low: u8)
    requires
        is_digit_of_sixteen(high),
        is_digit_of_sixteen(low),
    ensures
        is_hex(high),
        is_hex(low),
        decoded_byte(high, low) == stands_for(high, low),
        0 <= stands_for(high, low) <= 255,
        escape_of(decoded_byte(high, low)) == if is_needless(high, low) {
            seq![stands_for(high, low) as u8]
        } else {
            seq![0x25u8, capital(high), capital(low)]
        },
{
    let a = nibble(high);
    let b = nibble(low);
    assert(hex_digit_value(high) == a);
    assert(hex_digit_value(low) == b);
    assert(0 <= a < 16 && 0 <= b < 16);
    let v = decoded_byte(high, low);
    assert(v == 16 * a + b);
    assert(v as int / 16 == a);
    assert(v as int % 16 == b);
    assert(upper_digit(a) == capital(high));
    assert(upper_digit(b) == capital(low));
    assert(is_unreserved(v) == is_needless(high, low));
}

pub(crate) proof fn lemma_pieces_read(pieces: Seq<Piece>, in_path: bool)
    requires
        are_pieces(pieces, in_path),
    ensures
        canonical(spelling(pieces)) == normal(pieces),
        escape_reason(spelling(pieces), 0, in_path, false) is None,
    decreases pieces.len(),
{
    let s = spelling(pieces);
    if pieces.len() > 0 {
        let later = pieces.skip(1);
        assert(is_piece(pieces[0], in_path));
        assert forall|i: int| 0 <= i < later.len() implies is_piece(#[trigger] later[i], in_path) by {
            assert(later[i] == pieces[i + 1]);
        }
        lemma_pieces_read(later, in_path);
        match pieces[0] {
            Piece::Byte(b) => {
                assert(s[0] == b);
                assert(s.skip(1) =~= spelling(later));
                lemma_canonical_shifts(s, 1, 0, in_path, false);
                assert(canonical(s) == seq![b] + canonical_from(s, 1));
            },
            Piece::Escape(high, low) => {
                assert(s[0] == 0x25 && s[1] == high && s[2] == low);
                lemma_escape_pair(high, low);
                assert(is_escape(s, 0));
                assert(escaped_byte(s, 0) == decoded_byte(high, low));
                assert(s.skip(3) =~= spelling(later));
                lemma_canonical_shifts(s, 3, 0, in_path, false);
                assert(canonical(s) == escape_of(decoded_byte(high, low)) + canonical_from(s, 3));
                assert(escape_reason(s, 0, in_path, false) == escape_reason(
                    s,
                    3,
                    in_path,
                    false,
                ));
            },
        }
    } else {
        assert(canonical(s) =~= normal(pieces));
    }
}

/// The bytes of pieces are visible, none of them `#` or `\`; in a segment none is `/` or `?`.
pub(crate) proof fn lemma_pieces_bytes(pieces: Seq<Piece>, in_path: bool)
    requires
        are_pieces(pieces, in_path),
    ensures
        forall|j: int|
            0 <= j < spelling(pieces).len() ==> {
                let b = #[trigger] spelling(pieces)[j];
                0x21 <= b <= 0x7e && b != 0x23 && b != 0x5c && (in_path ==> b != 0x2f && b != 0x3f)
            },
        forall|j: int|
            in_path && 0 <= j < normal(pieces).len() ==> #[trigger] normal(pieces)[j] != 0x2f,
    decreases pieces.len(),
{
    let s = spelling(pieces);
    let t = normal(pieces);
    if pieces.len() > 0 {
        let later = pieces.skip(1);
        assert(is_piece(pieces[0], in_path));
        assert forall|i: int| 0 <= i < later.len() implies is_piece(#[trigger] later[i], in_path) by {
            assert(later[i] == pieces[i + 1]);
        }
        lemma_pieces_bytes(later, in_path);
        let n = s.len() - spelling(later).len();
        assert forall|j: int| 0 <= j < s.len() implies {
            let b = #[trigger] s[j];
            0x21 <= b <= 0x7e && b != 0x23 && b != 0x5c && (in_path ==> b != 0x2f && b != 0x3f)
        } by {
            if j >= n {
                assert(s[j] == spelling(later)[j - n]);
            }
        }
        let m = t.len() - normal(later).len();
        assert forall|j: int| in_path && 0 <= j < t.len() implies #[trigger] t[j] != 0x2f by {
            if j >= m {
                assert(t[j] == normal(later)[j - m]);
            }
        }
    }
}

/// The bytes of a path of segments as they come.
pub open spec fn path_spelling(segments: Seq<Seq<Piece>>) -> Seq<u8> {
    seq![0x2fu8] + with_between(
        Seq::new(segments.len(), |i: int| spelling(segments[i])),
        0x2f,
    )
}

/// The segments of a path as they are normalized.
pub open spec fn normal_segments(segments: Seq<Seq<Piece>>) -> Seq<Seq<u8>> {
    Seq::new(segments.len(), |i: int| normal(segments[i]))
}

/// Whether a path has a segment at least, and all are made of pieces.
pub open spec fn are_segments(segments: Seq<Seq<Piece>>) -> bool {
    segments.len() >= 1 && forall|i: int|
        0 <= i < segments.len() ==> are_pieces(#[trigger] segments[i], true)
}

/// Whether a query, where there is one, is made of pieces.
pub open spec fn is_query(query: Option<Seq<Piece>>) -> bool {
    query matches Some(pieces) ==> are_pieces(pieces, false)
}

/// The bytes of a query as they come, behind the question mark.
pub open spec fn query_spelling(query: Option<Seq<Piece>>) -> Seq<u8> {
    match query {
        Some(pieces) => seq![0x3fu8] + spelling(pieces),
        None => Seq::empty(),
    }
}

/// The bytes of a query as they are normalized.
pub open spec fn normal_query(query: Option<Seq<Piece>>) -> Seq<u8> {
    match query {
        Some(pieces) => seq![0x3fu8] + normal(pieces),
        None => Seq::empty(),
    }
}

proof fn lemma_between_bytes(texts: Seq<Seq<u8>>)
    requires
        forall|i: int, j: int|
            0 <= i < texts.len() && 0 <= j < texts[i].len() ==> {
                let b = #[trigger] texts[i][j];
                0x21 <= b <= 0x7e && b != 0x23 && b != 0x5c && b != 0x3f
            },
    ensures
        forall|j: int|
            0 <= j < with_between(texts, 0x2f).len() ==> {
                let b = #[trigger] with_between(texts, 0x2f)[j];
                0x21 <= b <= 0x7e && b != 0x23 && b != 0x5c && b != 0x3f
            },
    decreases texts.len(),
{
    let s = with_between(texts, 0x2f);
    if texts.len() == 1 {
        assert forall|j: int| 0 <= j < s.len() implies {
            let b = #[trigger] s[j];
            0x21 <= b <= 0x7e && b != 0x23 && b != 0x5c && b != 0x3f
        } by {
            assert(s[j] == texts[0][j]);
        }
    } else if texts.len() > 1 {
        let later = texts.skip(1);
        assert forall|i: int, j: int| 0 <= i < later.len() && 0 <= j < later[i].len() implies {
            let b = #[trigger] later[i][j];
            0x21 <= b <= 0x7e && b != 0x23 && b != 0x5c && b != 0x3f
        } by {
            assert(later[i][j] == texts[i + 1][j]);
        }
        lemma_between_bytes(later);
        let n = texts[0].len() as int;
        assert forall|j: int| 0 <= j < s.len() implies {
            let b = #[trigger] s[j];
            0x21 <= b <= 0x7e && b != 0x23 && b != 0x5c && b != 0x3f
        } by {
            if j < n {
                assert(s[j] == texts[0][j]);
            } else if j > n {
                assert(s[j] == with_between(later, 0x2f)[j - n - 1]);
            }
        }
    }
}

/// The escapes of a path are those of its segments.
proof fn lemma_between_escapes(segments: Seq<Seq<Piece>>)
    requires
        forall|i: int| 0 <= i < segments.len() ==> are_pieces(#[trigger] segments[i], true),
    ensures
        escape_reason(
            with_between(Seq::new(segments.len(), |i: int| spelling(segments[i])), 0x2f),
            0,
            true,
            false,
        ) is None,
    decreases segments.len(),
{
    let texts = Seq::new(segments.len(), |i: int| spelling(segments[i]));
    let s = with_between(texts, 0x2f);
    if segments.len() >= 1 {
        assert(are_pieces(segments[0], true));
        lemma_pieces_read(segments[0], true);
        assert(texts[0] == spelling(segments[0]));
        if segments.len() > 1 {
            let later = segments.skip(1);
            assert forall|i: int| 0 <= i < later.len() implies are_pieces(
                #[trigger] later[i],
                true,
            ) by {
                assert(later[i] == segments[i + 1]);
            }
            lemma_between_escapes(later);
            let texts_later = Seq::new(later.len(), |i: int| spelling(later[i]));
            assert(texts.skip(1) =~= texts_later);
            let rest = seq![0x2fu8] + with_between(texts_later, 0x2f);
            assert(s =~= texts[0] + rest);
            lemma_canonical_concat(texts[0], rest, 0, true, false);
            assert(rest.skip(1) =~= with_between(texts_later, 0x2f));
            lemma_canonical_shifts(rest, 1, 0, true, false);
            assert(rest[0] == 0x2f);
        }
    }
}

/// What a path of segments, and a query, are read as.
pub(crate) proof fn lemma_target_read(segments: Seq<Seq<Piece>>, query: Option<Seq<Piece>>)
    requires
        are_segments(segments),
        is_query(query),
    ensures
        ({
            let path = path_spelling(segments);
            let target = path + query_spelling(query);
            &&& path_end(target) == path.len()
            &&& target.subrange(0, path.len() as int) == path
            &&& target[0] == 0x2f
            &&& path[0] == 0x2f
            &&& segments_of(path) == normal_segments(segments)
            &&& escape_reason(path, 0, true, false) is None
            &&& all_in(target, ByteClass::Visible)
            &&& lacks(target, 0, target.len() as int, '#' as u8)
            &&& lacks(target, 0, target.len() as int, '\\' as u8)
            &&& query_of(target) == match query {
                Some(pieces) => Some(spelling(pieces)),
                None => None,
            }
        }),
{
    let texts = Seq::new(segments.len(), |i: int| spelling(segments[i]));
    let path = path_spelling(segments);
    let target = path + query_spelling(query);
    assert forall|i: int, j: int| 0 <= i < texts.len() && 0 <= j < texts[i].len() implies {
        let b = #[trigger] texts[i][j];
        0x21 <= b <= 0x7e && b != 0x23 && b != 0x5c && b != 0x3f && b != 0x2f
    } by {
        assert(are_pieces(segments[i], true));
        lemma_pieces_bytes(segments[i], true);
        assert(texts[i] == spelling(segments[i]));
    }
    lemma_between_bytes(texts);
    lemma_joined_splits(texts, 0x2f);
    assert(path.skip(1) =~= with_between(texts, 0x2f));
    assert forall|i: int| 0 <= i < texts.len() implies canonical(#[trigger] texts[i]) == normal(
        segments[i],
    ) by {
        assert(are_pieces(segments[i], true));
        lemma_pieces_read(segments[i], true);
    }
    assert(segments_of(path) =~= normal_segments(segments));
    lemma_between_escapes(segments);
    lemma_canonical_shifts(path, 1, 0, true, false);
    assert(path[0] == 0x2f);
    let n = path.len() as int;
    if let Some(pieces) = query {
        lemma_pieces_bytes(pieces, false);
    }
    assert forall|j: int| 0 <= j < target.len() implies {
        let b = #[trigger] target[j];
        0x21 <= b <= 0x7e && b != 0x23 && b != 0x5c && (j < n ==> b != 0x3f)
    } by {
        if 1 <= j < n {
            assert(target[j] == with_between(texts, 0x2f)[j - 1]);
        } else if j > n {
            assert(target[j] == spelling(query.unwrap())[j - n - 1]);
        }
    }
    let only = ByteClass::Only('?' as u8);
    assert forall|j: int| 0 <= j < n implies !only.has(#[trigger] target[j]) by {}
    if query is Some {
        assert(target[n] == 0x3f);
        assert(target.skip(n + 1) =~= spelling(query.unwrap()));
    }
    lemma_first_in_unique(target, only, n);
    assert(target.subrange(0, n) =~= path);
    assert(all_in(target, ByteClass::Visible));
}

/// What a target of segments and a query is normalized to, by its reduced segments.
proof fn lemma_target_normalized(
    line: RequestLineModel,
    segments: Seq<Seq<Piece>>,
    query: Option<Seq<Piece>>,
    in_order: bool,
    query_first: bool,
)
    requires
        are_segments(segments),
        is_query(query),
        line.target == path_spelling(segments) + query_spelling(query),
        line.target.len() <= 8192,
        lowered(line.method) != utf8("connect"@),
        line.method != utf8("connect"@),
    ensures
        normalized(line, in_order, query_first) == match reduced(
            normal_segments(segments),
            0,
            Seq::empty(),
            false,
        ) {
            Some(kept) => Ok::<TargetModel, Fault>(
                TargetModel {
                    form: TargetForm::Origin,
                    scheme: None,
                    authority: None,
                    path_and_query: crate::request_target::joined(kept) + normal_query(query),
                    routing_path: crate::request_target::joined(kept),
                },
            ),
            None => Err(Fault::InvalidTarget { reason: "path_traversal"@ }),
        },
        normalized_leniently(line) == match reduced(
            normal_segments(segments),
            0,
            Seq::empty(),
            true,
        ) {
            Some(kept) => Ok::<TargetModel, Fault>(
                TargetModel {
                    form: TargetForm::Origin,
                    scheme: None,
                    authority: None,
                    path_and_query: rooted(kept) + normal_query(query),
                    routing_path: rooted(kept),
                },
            ),
            None => Err(Fault::InvalidTarget { reason: "path_traversal"@ }),
        },
{
    let target = line.target;
    let path = path_spelling(segments);
    lemma_target_read(segments, query);
    lemma_envelope(target, in_order);
    assert(target != seq!['*' as u8]) by {
        assert(target[0] == 0x2f);
    }
    assert(!any_in(target, ByteClass::Only('#' as u8))) by {
        assert forall|j: int| 0 <= j < target.len() implies !ByteClass::Only('#' as u8).has(
            #[trigger] target[j],
        ) by {}
    }
    assert forall|j: int| 0 <= j < path.len() implies ByteClass::Visible.has(#[trigger] path[j])
        && path[j] != '\\' as u8 by {
        assert(path[j] == target[j]);
        assert(ByteClass::Visible.has(target[j]));
    }
    lemma_lenient_component(path, true);
    if let Some(pieces) = query {
        let s = spelling(pieces);
        lemma_pieces_bytes(pieces, false);
        lemma_pieces_read(pieces, false);
        assert(all_in(s, ByteClass::Visible)) by {
            assert forall|j: int| 0 <= j < s.len() implies ByteClass::Visible.has(
                #[trigger] s[j],
            ) by {}
        }
        assert(lacks(s, 0, s.len() as int, '\\' as u8)) by {
            assert forall|j: int| 0 <= j < s.len() implies #[trigger] s[j] != '\\' as u8 by {}
        }
        lemma_lenient_component(s, false);
    }
    let strict = reduced(normal_segments(segments), 0, Seq::empty(), false);
    let terse = reduced(normal_segments(segments), 0, Seq::empty(), true);
    if let Some(kept) = strict {
        let routing = crate::request_target::joined(kept);
        assert(with_query(routing, query_of(target)) =~= routing + normal_query(query));
    }
    if let Some(kept) = terse {
        let routing = rooted(kept);
        assert(with_query(routing, query_of(target)) =~= routing + normal_query(query));
    }
}

proof fn lemma_joined_between(segments: Seq<Seq<u8>>)
    requires
        segments.len() >= 1,
    ensures
        crate::request_target::joined(segments) == seq![0x2fu8] + with_between(segments, 0x2f),
    decreases segments.len(),
{
    lemma_joined_front(segments);
    if segments.len() == 1 {
        assert(segments.skip(1) =~= Seq::<Seq<u8>>::empty());
        assert(crate::request_target::joined(segments.skip(1)) =~= Seq::<u8>::empty());
        assert(crate::request_target::joined(segments) =~= seq![0x2fu8] + with_between(
            segments,
            0x2f,
        ));
    } else {
        lemma_joined_between(segments.skip(1));
        assert(crate::request_target::joined(segments) =~= seq![0x2fu8] + with_between(
            segments,
            0x2f,
        ));
    }
}

pub(crate) proof fn lemma_undotted(segments: Seq<Seq<u8>>, i: int, terse: bool)
    requires
        0 <= i <= segments.len(),
        forall|k: int|
            0 <= k < segments.len() ==> #[trigger] segments[k] != seq![0x2eu8] && segments[k]
                != seq![0x2eu8, 0x2eu8],
    ensures
        reduced(segments, i, segments.take(i), terse) == Some(segments),
    decreases segments.len() - i,
{
    if i < segments.len() {
        assert(segments[i] != seq![0x2eu8] && segments[i] != seq![0x2eu8, 0x2eu8]);
        assert(segments.take(i + 1) =~= segments.take(i).push(segments[i]));
        lemma_undotted(segments, i + 1, terse);
    } else {
        assert(segments.take(i) =~= segments);
    }
}

/// A target that begins with a slash is an origin target, for any method but CONNECT. Where no
/// segment of its path is a dot or two, the segments stay, and in the path and the query only
/// the escapes are made normal: needless ones are undone, the others are put in capitals. The
/// routing path is the path without the query.
pub proof fn lemma_origin_target_is_read(
    line: RequestLineModel,
    segments: Seq<Seq<Piece>>,
    query: Option<Seq<Piece>>,
    in_order: bool,
    query_first: bool,
)
    requires
        are_segments(segments),
        is_query(query),
        line.target == path_spelling(segments) + query_spelling(query),
        line.target.len() <= 8192,
        lowered(line.method) != utf8("connect"@),
        line.method != utf8("connect"@),
        forall|k: int|
            0 <= k < segments.len() ==> normal(#[trigger] segments[k]) != seq![0x2eu8] && normal(
                segments[k],
            ) != seq![0x2eu8, 0x2eu8],
    ensures
        ({
            let path = seq![0x2fu8] + with_between(normal_segments(segments), 0x2f);
            let read = Ok::<TargetModel, Fault>(
                TargetModel {
                    form: TargetForm::Origin,
                    scheme: None,
                    authority: None,
                    path_and_query: path + normal_query(query),
                    routing_path: path,
                },
            );
            &&& normalized(line, in_order, query_first) == read
            &&& normalized_leniently(line) == read
        }),
{
    let said = normal_segments(segments);
    lemma_target_normalized(line, segments, query, in_order, query_first);
    assert forall|k: int| 0 <= k < said.len() implies #[trigger] said[k] != seq![0x2eu8] && said[k]
        != seq![0x2eu8, 0x2eu8] by {
        assert(said[k] == normal(segments[k]));
    }
    assert(said.take(0) =~= Seq::<Seq<u8>>::empty());
    lemma_undotted(said, 0, false);
    lemma_undotted(said, 0, true);
    lemma_joined_between(said);
}

proof fn lemma_reduced_alike(
    before: Seq<Seq<u8>>,
    one: Seq<Seq<u8>>,
    other: Seq<Seq<u8>>,
    i: int,
    kept: Seq<Seq<u8>>,
    terse: bool,
)
    requires
        0 <= i <= before.len(),
        one.len() >= 1,
        other.len() >= 1,
        forall|had: Seq<Seq<u8>>| #[trigger]
            reduced(one, 0, had, terse) == reduced(other, 0, had, terse),
    ensures
        reduced(before + one, i, kept, terse) == reduced(before + other, i, kept, terse),
    decreases before.len() - i,
{
    let a = before + one;
    let b = before + other;
    if i < before.len() {
        assert(a[i] == before[i]);
        assert(b[i] == before[i]);
        match kept_after(kept, before[i], false, terse) {
            Some(next) => lemma_reduced_alike(before, one, other, i + 1, next, terse),
            None => {},
        }
    } else {
        lemma_reduced_shift(before, one, 0, kept, terse);
        lemma_reduced_shift(before, other, 0, kept, terse);
        assert(reduced(one, 0, kept, terse) == reduced(other, 0, kept, terse));
    }
}

proof fn lemma_reduced_shift(
    before: Seq<Seq<u8>>,
    tail: Seq<Seq<u8>>,
    i: int,
    kept: Seq<Seq<u8>>,
    terse: bool,
)
    requires
        0 <= i <= tail.len(),
    ensures
        reduced(before + tail, before.len() + i, kept, terse) == reduced(tail, i, kept, terse),
    decreases tail.len() - i,
{
    if i < tail.len() {
        assert((before + tail)[before.len() + i] == tail[i]);
        match kept_after(kept, tail[i], i + 1 == tail.len(), terse) {
            Some(next) => lemma_reduced_shift(before, tail, i + 1, next, terse),
            None => {},
        }
    }
}

proof fn lemma_appended(before: Seq<Seq<Piece>>, after: Seq<Seq<Piece>>)
    ensures
        normal_segments(before + after) == normal_segments(before) + normal_segments(after),
{
    assert(normal_segments(before + after) =~= normal_segments(before) + normal_segments(after));
}

proof fn lemma_front(segments: Seq<Seq<u8>>, kept: Seq<Seq<u8>>, terse: bool)
    requires
        segments.len() >= 1,
    ensures
        reduced(segments, 0, kept, terse) == match kept_after(
            kept,
            segments[0],
            segments.len() == 1,
            terse,
        ) {
            Some(next) => reduced(segments.skip(1), 0, next, terse),
            None => None,
        },
{
    match kept_after(kept, segments[0], segments.len() == 1, terse) {
        Some(next) => {
            let first = seq![segments[0]];
            assert(segments =~= first + segments.skip(1));
            lemma_reduced_shift(first, segments.skip(1), 0, next, terse);
        },
        None => {},
    }
}

/// A segment that is a dot goes: the target is normalized as it would be without it. As the last
/// segment it leaves an empty one, so that the path ends with a slash.
pub proof fn lemma_one_dot_goes(
    line: RequestLineModel,
    before: Seq<Seq<Piece>>,
    dot: Seq<Piece>,
    after: Seq<Seq<Piece>>,
    query: Option<Seq<Piece>>,
    in_order: bool,
    query_first: bool,
)
    requires
        are_segments(before + seq![dot] + after),
        normal(dot) == seq![0x2eu8],
        is_query(query),
        line.target == path_spelling(before + seq![dot] + after) + query_spelling(query),
        line.target.len() <= 8192,
        lowered(line.method) != utf8("connect"@),
        line.method != utf8("connect"@),
    ensures
        ({
            let left = if after.len() > 0 {
                before + after
            } else {
                before.push(Seq::empty())
            };
            let target = path_spelling(left) + query_spelling(query);
            let other = RequestLineModel { target, ..line };
            target.len() <= 8192 ==> {
                &&& normalized(line, in_order, query_first) == normalized(
                    other,
                    in_order,
                    query_first,
                )
                &&& normalized_leniently(line) == normalized_leniently(other)
            }
        }),
{
    let whole = before + seq![dot] + after;
    let tail = if after.len() > 0 {
        after
    } else {
        seq![Seq::<Piece>::empty()]
    };
    let left = if after.len() > 0 {
        before + after
    } else {
        before.push(Seq::empty())
    };
    assert(left =~= before + tail);
    assert(whole =~= before + (seq![dot] + after));
    assert(before =~= whole.take(before.len() as int));
    assert(after =~= whole.skip(whole.len() - after.len()));
    lemma_left_segments(whole, before, tail, after);
    let other = RequestLineModel {
        target: path_spelling(left) + query_spelling(query),
        ..line
    };
    lemma_target_normalized(line, whole, query, in_order, query_first);
    if other.target.len() <= 8192 {
        lemma_target_normalized(other, left, query, in_order, query_first);
    }
    let one = normal_segments(seq![dot] + after);
    let two = normal_segments(tail);
    lemma_appended(before, seq![dot] + after);
    lemma_appended(before, tail);
    assert(one[0] == seq![0x2eu8]);
    assert(one.skip(1) =~= normal_segments(after));
    assert(two.len() >= 1);
    assert forall|had: Seq<Seq<u8>>, terse: bool| #[trigger]
        reduced(one, 0, had, terse) == reduced(two, 0, had, terse) by {
        lemma_front(one, had, terse);
        if after.len() == 0 {
            assert(two[0] =~= Seq::<u8>::empty());
            lemma_front(two, had, terse);
            assert(one.skip(1) =~= two.skip(1));
        }
    }
    lemma_reduced_alike(normal_segments(before), one, two, 0, Seq::empty(), false);
    lemma_reduced_alike(normal_segments(before), one, two, 0, Seq::empty(), true);
}

/// What is left of the segments of a path are segments of a path.
proof fn lemma_left_segments(
    whole: Seq<Seq<Piece>>,
    before: Seq<Seq<Piece>>,
    tail: Seq<Seq<Piece>>,
    after: Seq<Seq<Piece>>,
)
    requires
        are_segments(whole),
        before.len() + after.len() <= whole.len(),
        before == whole.take(before.len() as int),
        after == whole.skip(whole.len() - after.len()),
        after.len() > 0 && tail == after || after.len() == 0 && tail == seq![Seq::<Piece>::empty()],
    ensures
        are_segments(before + tail),
{
    let left = before + tail;
    assert forall|i: int| 0 <= i < left.len() implies are_pieces(#[trigger] left[i], true) by {
        if i < before.len() {
            assert(left[i] == whole[i]);
        } else if after.len() > 0 {
            let j = i - before.len();
            assert(left[i] == after[j]);
            assert(after[j] == whole[whole.len() - after.len() + j]);
        } else {
            assert(left[i] =~= Seq::<Piece>::empty());
        }
    }
}

/// Two dots take the segment before them along: the target is normalized as it would be without
/// either. As the last segment they leave an empty one, so that the path ends with a slash; for
/// the lenient reading, where no segment before is empty or a dot or two.
pub proof fn lemma_two_dots_go_back(
    line: RequestLineModel,
    before: Seq<Seq<Piece>>,
    step: Seq<Piece>,
    dots: Seq<Piece>,
    after: Seq<Seq<Piece>>,
    query: Option<Seq<Piece>>,
    in_order: bool,
    query_first: bool,
)
    requires
        are_segments(before + seq![step, dots] + after),
        normal(step) != seq![0x2eu8],
        normal(step) != seq![0x2eu8, 0x2eu8],
        normal(dots) == seq![0x2eu8, 0x2eu8],
        is_query(query),
        line.target == path_spelling(before + seq![step, dots] + after) + query_spelling(query),
        line.target.len() <= 8192,
        lowered(line.method) != utf8("connect"@),
        line.method != utf8("connect"@),
    ensures
        ({
            let left = if after.len() > 0 {
                before + after
            } else {
                before.push(Seq::empty())
            };
            let target = path_spelling(left) + query_spelling(query);
            let other = RequestLineModel { target, ..line };
            let steady = forall|k: int|
                0 <= k < before.len() ==> normal(#[trigger] before[k]).len() > 0 && normal(
                    before[k],
                ) != seq![0x2eu8] && normal(before[k]) != seq![0x2eu8, 0x2eu8];
            target.len() <= 8192 ==> {
                &&& normalized(line, in_order, query_first) == normalized(
                    other,
                    in_order,
                    query_first,
                )
                &&& after.len() > 0 || steady ==> normalized_leniently(line)
                    == normalized_leniently(other)
            }
        }),
{
    let whole = before + seq![step, dots] + after;
    let tail = if after.len() > 0 {
        after
    } else {
        seq![Seq::<Piece>::empty()]
    };
    let left = if after.len() > 0 {
        before + after
    } else {
        before.push(Seq::empty())
    };
    assert(left =~= before + tail);
    assert(whole =~= before + (seq![step, dots] + after));
    assert(before =~= whole.take(before.len() as int));
    assert(after =~= whole.skip(whole.len() - after.len()));
    lemma_left_segments(whole, before, tail, after);
    let other = RequestLineModel {
        target: path_spelling(left) + query_spelling(query),
        ..line
    };
    lemma_target_normalized(line, whole, query, in_order, query_first);
    if other.target.len() <= 8192 {
        lemma_target_normalized(other, left, query, in_order, query_first);
    }
    let one = normal_segments(seq![step, dots] + after);
    let two = normal_segments(tail);
    let said = normal_segments(before);
    let later = normal_segments(after);
    lemma_appended(before, seq![step, dots] + after);
    lemma_appended(before, tail);
    assert(one =~= seq![normal(step), normal(dots)] + later);
    if after.len() == 0 {
        assert(normal(Seq::<Piece>::empty()) =~= Seq::<u8>::empty());
        assert(two =~= seq![Seq::<u8>::empty()]);
    }
    lemma_pair_goes(said, normal(step), normal(dots), later, false);
    if after.len() > 0 {
        lemma_pair_goes(said, normal(step), normal(dots), later, true);
    } else if forall|k: int|
        0 <= k < before.len() ==> normal(#[trigger] before[k]).len() > 0 && normal(before[k])
            != seq![0x2eu8] && normal(before[k]) != seq![0x2eu8, 0x2eu8] {
        assert forall|k: int| 0 <= k < said.len() implies (#[trigger] said[k]).len() > 0 && said[k]
            != seq![0x2eu8] && said[k] != seq![0x2eu8, 0x2eu8] by {
            assert(said[k] == normal(before[k]));
        }
        lemma_pair_ends_tersely(said, normal(step), normal(dots));
        assert(later =~= Seq::<Seq<u8>>::empty());
        assert(one =~= seq![normal(step), normal(dots)]);
    }
}

proof fn lemma_pair_goes(
    before: Seq<Seq<u8>>,
    step: Seq<u8>,
    dots: Seq<u8>,
    after: Seq<Seq<u8>>,
    terse: bool,
)
    requires
        step != seq![0x2eu8],
        step != seq![0x2eu8, 0x2eu8],
        dots == seq![0x2eu8, 0x2eu8],
        !terse || after.len() > 0,
    ensures
        ({
            let tail = if after.len() > 0 {
                after
            } else {
                seq![Seq::<u8>::empty()]
            };
            reduced(before + (seq![step, dots] + after), 0, Seq::empty(), terse) == reduced(
                before + tail,
                0,
                Seq::empty(),
                terse,
            )
        }),
{
    let one = seq![step, dots] + after;
    let tail = if after.len() > 0 {
        after
    } else {
        seq![Seq::<u8>::empty()]
    };
    assert(dots.len() == 2);
    assert(one_dot().len() == 1);
    assert(dots == two_dots());
    assert forall|had: Seq<Seq<u8>>| #[trigger] reduced(one, 0, had, terse) == reduced(
        tail,
        0,
        had,
        terse,
    ) by {
        let next = had.push(step);
        lemma_front(one, had, terse);
        assert(one[0] == step);
        assert(kept_after(had, step, false, terse) == Some(next));
        assert(one.skip(1) =~= seq![dots] + after);
        lemma_front(one.skip(1), next, terse);
        assert(one.skip(1).skip(1) =~= after);
        assert(next.drop_last() =~= had);
        assert(one.skip(1)[0] == dots);
        if after.len() == 0 {
            assert(tail[0].len() == 0);
            assert(kept_after(next, dots, true, terse) == Some(had.push(Seq::empty())));
            assert(tail[0] =~= Seq::<u8>::empty());
            assert(kept_after(had, tail[0], true, terse) == Some(had.push(Seq::empty())));
            lemma_front(tail, had, terse);
            assert(tail.skip(1) =~= after);
        } else {
            assert(kept_after(next, dots, false, terse) == Some(had));
        }
    }
    lemma_reduced_alike(before, one, tail, 0, Seq::empty(), terse);
}

proof fn lemma_pair_ends_tersely(before: Seq<Seq<u8>>, step: Seq<u8>, dots: Seq<u8>)
    requires
        step != seq![0x2eu8],
        step != seq![0x2eu8, 0x2eu8],
        dots == seq![0x2eu8, 0x2eu8],
        forall|k: int|
            0 <= k < before.len() ==> (#[trigger] before[k]).len() > 0 && before[k] != seq![0x2eu8]
                && before[k] != seq![0x2eu8, 0x2eu8],
    ensures
        ({
            let one = reduced(before + seq![step, dots], 0, Seq::empty(), true);
            let other = reduced(before + seq![Seq::<u8>::empty()], 0, Seq::empty(), true);
            one is Some && other is Some && rooted(one.unwrap()) == rooted(other.unwrap())
        }),
{
    let none = Seq::<Seq<u8>>::empty();
    let empty = Seq::<u8>::empty();
    let all = before.push(step);
    lemma_walk(all, seq![dots], 0, true);
    assert(all + seq![dots] =~= before + seq![step, dots]);
    assert(all.take(0) =~= none);
    assert(all.drop_last() =~= before);
    let ended = before + seq![empty];
    assert(dots.len() == 2);
    assert(one_dot().len() == 1);
    assert(dots == two_dots());
    assert(seq![dots][0] == dots);
    assert forall|k: int| 0 <= k < ended.len() implies #[trigger] ended[k] != seq![0x2eu8]
        && ended[k] != seq![0x2eu8, 0x2eu8] by {
        if k < before.len() {
            assert(ended[k] == before[k]);
        } else {
            assert(ended[k].len() == 0);
            assert(seq![0x2eu8].len() == 1);
            assert(seq![0x2eu8, 0x2eu8].len() == 2);
        }
    }
    lemma_undotted(ended, 0, true);
    assert(ended.take(0) =~= none);
    if before.len() == 0 {
        lemma_joined_between(ended);
        assert(crate::request_target::joined(ended) =~= seq![0x2fu8]);
        assert(before =~= none);
    } else {
        assert(before[before.len() - 1].len() > 0);
        assert(before.last() != empty);
        assert(before.push(empty) =~= ended);
        assert(kept_after(all, dots, true, true) == Some(before.push(empty)));
    }
}

/// Segments that are neither a dot nor two are kept up to what follows them.
proof fn lemma_walk(steps: Seq<Seq<u8>>, tail: Seq<Seq<u8>>, i: int, terse: bool)
    requires
        0 <= i <= steps.len(),
        tail.len() >= 1,
        forall|k: int|
            0 <= k < steps.len() ==> #[trigger] steps[k] != seq![0x2eu8] && steps[k] != seq![
                0x2eu8,
                0x2eu8,
            ],
    ensures
        reduced(steps + tail, i, steps.take(i), terse) == reduced(tail, 0, steps, terse),
        reduced(tail, 0, steps, terse) == match kept_after(
            steps,
            tail[0],
            tail.len() == 1,
            terse,
        ) {
            Some(next) => reduced(tail, 1, next, terse),
            None => None,
        },
    decreases steps.len() - i,
{
    if i < steps.len() {
        assert((steps + tail)[i] == steps[i]);
        assert(steps[i] != seq![0x2eu8] && steps[i] != seq![0x2eu8, 0x2eu8]);
        assert(steps.take(i + 1) =~= steps.take(i).push(steps[i]));
        lemma_walk(steps, tail, i + 1, terse);
    } else {
        assert(steps.take(i) =~= steps);
        lemma_reduced_shift(steps, tail, 0, steps, terse);
    }
}

/// Two dots with no segment before them would leave the root, and the target is refused.
pub proof fn lemma_two_dots_at_root(
    line: RequestLineModel,
    segments: Seq<Seq<Piece>>,
    query: Option<Seq<Piece>>,
    in_order: bool,
    query_first: bool,
)
    requires
        are_segments(segments),
        normal(segments[0]) == seq![0x2eu8, 0x2eu8],
        is_query(query),
        line.target == path_spelling(segments) + query_spelling(query),
        line.target.len() <= 8192,
        lowered(line.method) != utf8("connect"@),
        line.method != utf8("connect"@),
    ensures
        normalized(line, in_order, query_first) == Err::<TargetModel, Fault>(
            Fault::InvalidTarget { reason: "path_traversal"@ },
        ),
        normalized_leniently(line) == Err::<TargetModel, Fault>(
            Fault::InvalidTarget { reason: "path_traversal"@ },
        ),
{
    lemma_target_normalized(line, segments, query, in_order, query_first);
    let said = normal_segments(segments);
    assert(said[0] == seq![0x2eu8, 0x2eu8]);
}

} // verus!
