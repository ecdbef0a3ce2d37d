//! The forms of a request target, and what is refused of each.

use vstd::prelude::*;
use crate::bytes::{
    ByteClass, all_in, any_in, first_in, lemma_first_in, lemma_first_in_unique, lowered, to_lower,
};
use crate::decimal::{decimal, digits_of};
use crate::host::{endpoint, lemma_endpoint_bytes};
use crate::laws::hosts::{is_port, lemma_ports};
use crate::laws::targets::{
    Piece, are_pieces, are_segments, is_digit_of_sixteen, lemma_escape_pair, lemma_pieces_bytes,
    lemma_pieces_read, lemma_target_read, lemma_undotted, normal, normal_segments, path_spelling,
    query_spelling, spelling, stands_for,
};
use crate::request_target::{
    byte_reason, canonical_from, escape_reason, escaped_byte, first_byte_reason, is_escape, lacks,
    lemma_canonical_concat, lemma_envelope, lemma_joined_front, lemma_joined_text,
    lemma_lenient_component, normalized, normalized_leniently, path_after_authority, port_text,
    scheme_of, segments_of,
};
use crate::route::decoded_byte;
use crate::text::{lemma_ascii_literal, utf8};
use crate::types::{Fault, RequestLineModel, TargetForm, TargetModel};

verus! {

/// Whether a text is made of visible bytes, none of them `#` or `\`.
pub open spec fn is_clear(s: Seq<u8>) -> bool {
    forall|i: int|
        0 <= i < s.len() ==> 0x21 <= #[trigger] s[i] <= 0x7e && s[i] != 0x23 && s[i] != 0x5c
}

proof fn lemma_clear(s: Seq<u8>)
    requires
        is_clear(s),
    ensures
        all_in(s, ByteClass::Visible),
        lacks(s, 0, s.len() as int, '#' as u8),
        lacks(s, 0, s.len() as int, '\\' as u8),
        !any_in(s, ByteClass::Only('#' as u8)),
{
    assert forall|i: int| 0 <= i < s.len() implies ByteClass::Visible.has(#[trigger] s[i])
        && !ByteClass::Only('#' as u8).has(s[i]) by {}
}

/// Why an escape is refused that begins with the percent sign at the front of a text: it is not
/// two hexadecimal digits, or in a path it stands for `/` or `\`, or it stands for a control
/// byte.
proof fn lemma_escape_refused(bad: Seq<u8>, in_path: bool)
    requires
        bad.len() >= 1,
        bad[0] == 0x25,
    ensures
        bad.len() < 3 || !is_digit_of_sixteen(bad[1]) || !is_digit_of_sixteen(bad[2])
            ==> escape_reason(bad, 0, in_path, false) == Some("invalid_percent_encoding"@),
        bad.len() >= 3 && is_digit_of_sixteen(bad[1]) && is_digit_of_sixteen(bad[2]) ==> {
            let b = stands_for(bad[1], bad[2]);
            &&& in_path && (b == 0x2f || b == 0x5c) ==> escape_reason(bad, 0, in_path, false)
                == Some("encoded_separator"@)
            &&& b < 0x20 || b == 0x7f ==> escape_reason(bad, 0, in_path, false) == Some(
                "encoded_control"@,
            )
        },
{
    if bad.len() >= 3 {
        if is_digit_of_sixteen(bad[1]) && is_digit_of_sixteen(bad[2]) {
            lemma_escape_pair(bad[1], bad[2]);
            assert(is_escape(bad, 0));
            assert(escaped_byte(bad, 0) == decoded_byte(bad[1], bad[2]));
        } else {
            assert(!is_escape(bad, 0));
        }
    }
}

/// The first escape of a path that may not be there is what its refusal names, whatever comes
/// after it.
pub proof fn lemma_path_escape_is_refused(
    line: RequestLineModel,
    segments: Seq<Seq<Piece>>,
    bad: Seq<u8>,
    rest: Seq<u8>,
    in_order: bool,
    query_first: bool,
)
    requires
        are_segments(segments),
        bad.len() >= 1,
        bad[0] == 0x25,
        is_clear(bad),
        forall|i: int| 0 <= i < bad.len() ==> #[trigger] bad[i] != 0x3f,
        is_clear(rest),
        rest.len() > 0 ==> rest[0] == 0x3f,
        line.target == path_spelling(segments) + bad + rest,
        line.target.len() <= 8192,
        lowered(line.method) != utf8("connect"@),
        line.method != utf8("connect"@),
    ensures
        ({
            let strict = normalized(line, in_order, query_first);
            let lenient = normalized_leniently(line);
            &&& bad.len() < 3 || !is_digit_of_sixteen(bad[1]) || !is_digit_of_sixteen(bad[2]) ==> {
                &&& strict == Err::<TargetModel, Fault>(
                    Fault::InvalidTarget { reason: "invalid_percent_encoding"@ },
                )
                &&& lenient == strict
            }
            &&& bad.len() >= 3 && is_digit_of_sixteen(bad[1]) && is_digit_of_sixteen(bad[2]) ==> {
                let b = stands_for(bad[1], bad[2]);
                &&& b == 0x2f || b == 0x5c ==> strict == Err::<TargetModel, Fault>(
                    Fault::InvalidTarget { reason: "encoded_separator"@ },
                ) && lenient == strict
                &&& b < 0x20 || b == 0x7f ==> strict == Err::<TargetModel, Fault>(
                    Fault::InvalidTarget { reason: "encoded_control"@ },
                ) && lenient == strict
            }
        }),
{
    let front = path_spelling(segments);
    let path = front + bad;
    let target = line.target;
    lemma_target_read(segments, None);
    assert(front + query_spelling(None) =~= front);
    assert(is_clear(target)) by {
        assert forall|i: int| 0 <= i < target.len() implies 0x21 <= #[trigger] target[i] <= 0x7e
            && target[i] != 0x23 && target[i] != 0x5c by {
            if i < front.len() {
                assert(target[i] == front[i]);
                assert(ByteClass::Visible.has(front[i]));
            } else if i < path.len() {
                assert(target[i] == bad[i - front.len()]);
            } else {
                assert(target[i] == rest[i - path.len()]);
            }
        }
    }
    lemma_clear(target);
    lemma_envelope(target, in_order);
    let only = ByteClass::Only('?' as u8);
    lemma_first_in(front, only);
    assert forall|j: int| 0 <= j < path.len() implies !only.has(#[trigger] target[j]) by {
        if j < front.len() {
            assert(target[j] == front[j]);
        } else {
            assert(target[j] == bad[j - front.len()]);
        }
    }
    if rest.len() > 0 {
        assert(target[path.len() as int] == rest[0]);
    }
    lemma_first_in_unique(target, only, path.len() as int);
    assert(target.subrange(0, path.len() as int) =~= path);
    assert(target[0] == front[0]);
    lemma_canonical_concat(front, bad, 0, true, false);
    lemma_escape_refused(bad, true);
    assert(is_clear(path)) by {
        assert forall|i: int| 0 <= i < path.len() implies 0x21 <= #[trigger] path[i] <= 0x7e
            && path[i] != 0x23 && path[i] != 0x5c by {
            assert(path[i] == target[i]);
        }
    }
    lemma_clear(path);
    lemma_lenient_component(path, true);
}

/// The first escape of a query that may not be there is what the refusal names, where the path is
/// in order.
pub proof fn lemma_query_escape_is_refused(
    line: RequestLineModel,
    segments: Seq<Seq<Piece>>,
    good: Seq<Piece>,
    bad: Seq<u8>,
    in_order: bool,
    query_first: bool,
)
    requires
        are_segments(segments),
        forall|k: int|
            0 <= k < segments.len() ==> normal(#[trigger] segments[k]) != seq![0x2eu8] && normal(
                segments[k],
            ) != seq![0x2eu8, 0x2eu8],
        are_pieces(good, false),
        bad.len() >= 1,
        bad[0] == 0x25,
        is_clear(bad),
        line.target == path_spelling(segments) + seq![0x3fu8] + spelling(good) + bad,
        line.target.len() <= 8192,
        lowered(line.method) != utf8("connect"@),
        line.method != utf8("connect"@),
    ensures
        ({
            let strict = normalized(line, in_order, query_first);
            let lenient = normalized_leniently(line);
            &&& bad.len() < 3 || !is_digit_of_sixteen(bad[1]) || !is_digit_of_sixteen(bad[2]) ==> {
                &&& strict == Err::<TargetModel, Fault>(
                    Fault::InvalidTarget { reason: "invalid_percent_encoding"@ },
                )
                &&& lenient == strict
            }
            &&& bad.len() >= 3 && is_digit_of_sixteen(bad[1]) && is_digit_of_sixteen(bad[2]) && (
            stands_for(bad[1], bad[2]) < 0x20 || stands_for(bad[1], bad[2]) == 0x7f) ==> {
                &&& strict == Err::<TargetModel, Fault>(
                    Fault::InvalidTarget { reason: "encoded_control"@ },
                )
                &&& lenient == strict
            }
        }),
{
    let path = path_spelling(segments);
    let query = spelling(good) + bad;
    let target = line.target;
    let n = path.len() as int;
    lemma_target_read(segments, None);
    assert(path + query_spelling(None) =~= path);
    lemma_pieces_bytes(good, false);
    lemma_pieces_read(good, false);
    assert(is_clear(query)) by {
        assert forall|i: int| 0 <= i < query.len() implies 0x21 <= #[trigger] query[i] <= 0x7e
            && query[i] != 0x23 && query[i] != 0x5c by {
            if i < spelling(good).len() {
                assert(query[i] == spelling(good)[i]);
            } else {
                assert(query[i] == bad[i - spelling(good).len()]);
            }
        }
    }
    assert(is_clear(path)) by {
        assert forall|i: int| 0 <= i < path.len() implies 0x21 <= #[trigger] path[i] <= 0x7e
            && path[i] != 0x23 && path[i] != 0x5c by {
            assert(ByteClass::Visible.has(path[i]));
        }
    }
    assert(is_clear(target)) by {
        assert forall|i: int| 0 <= i < target.len() implies 0x21 <= #[trigger] target[i] <= 0x7e
            && target[i] != 0x23 && target[i] != 0x5c by {
            if i < n {
                assert(target[i] == path[i]);
            } else if i > n {
                assert(target[i] == query[i - n - 1]);
            }
        }
    }
    lemma_clear(target);
    lemma_clear(path);
    lemma_clear(query);
    lemma_envelope(target, in_order);
    let only = ByteClass::Only('?' as u8);
    lemma_first_in(path, only);
    assert forall|j: int| 0 <= j < n implies !only.has(#[trigger] target[j]) by {
        assert(target[j] == path[j]);
    }
    assert(target[n] == 0x3f);
    lemma_first_in_unique(target, only, n);
    assert(target.subrange(0, n) =~= path);
    assert(target.skip(n + 1) =~= query);
    assert(target[0] == path[0]);
    lemma_canonical_concat(spelling(good), bad, 0, false, false);
    lemma_escape_refused(bad, false);
    lemma_lenient_component(path, true);
    lemma_lenient_component(query, false);
    let said = normal_segments(segments);
    assert forall|k: int| 0 <= k < said.len() implies #[trigger] said[k] != seq![0x2eu8] && said[k]
        != seq![0x2eu8, 0x2eu8] by {
        assert(said[k] == normal(segments[k]));
    }
    assert(said.take(0) =~= Seq::<Seq<u8>>::empty());
    lemma_undotted(said, 0, false);
    lemma_undotted(said, 0, true);
}

/// A target has one to 8192 bytes.
pub proof fn lemma_target_length(line: RequestLineModel, in_order: bool, query_first: bool)
    ensures
        line.target.len() == 0 ==> normalized(line, in_order, query_first) == Err::<
            TargetModel,
            Fault,
        >(Fault::InvalidTarget { reason: "empty_target"@ }),
        line.target.len() > 8192 ==> normalized(line, in_order, query_first) == Err::<
            TargetModel,
            Fault,
        >(
            Fault::LimitExceeded {
                limit: "target_bytes"@,
                max: 8192,
                actual: line.target.len() as int,
            },
        ),
        line.target.len() > 8192 ==> normalized_leniently(line) == normalized(
            line,
            in_order,
            query_first,
        ),
{
}

/// The first byte of a target that may not be there is what the refusal names, where the bytes
/// are looked at in order; else a byte that is not visible comes first, and then a number sign.
pub proof fn lemma_target_bytes_refused(line: RequestLineModel, k: int, query_first: bool)
    requires
        line.target.len() <= 8192,
        0 <= k < line.target.len(),
        forall|i: int|
            0 <= i < k ==> 0x21 <= #[trigger] line.target[i] <= 0x7e && line.target[i] != 0x23
                && line.target[i] != 0x5c,
        !(0x21 <= line.target[k] <= 0x7e) || line.target[k] == 0x23 || line.target[k] == 0x5c,
    ensures
        ({
            let b = line.target[k];
            let visible = forall|i: int|
                0 <= i < line.target.len() ==> 0x21 <= #[trigger] line.target[i] <= 0x7e;
            &&& normalized(line, true, query_first) == Err::<TargetModel, Fault>(
                Fault::InvalidTarget {
                    reason: if b == 0x23 {
                        "fragment_not_allowed"@
                    } else if b == 0x5c {
                        "backslash_not_allowed"@
                    } else {
                        "invalid_target_byte"@
                    },
                },
            )
            &&& normalized(line, false, query_first) == Err::<TargetModel, Fault>(
                Fault::InvalidTarget {
                    reason: if !visible {
                        "invalid_target_byte"@
                    } else if line.target.contains(0x23u8) {
                        "fragment_not_allowed"@
                    } else {
                        "backslash_not_allowed"@
                    },
                },
            )
        }),
{
    let target = line.target;
    lemma_reason_at(target, 0, k);
    let visible = forall|i: int| 0 <= i < target.len() ==> 0x21 <= #[trigger] target[i] <= 0x7e;
    assert(visible == all_in(target, ByteClass::Visible)) by {
        if all_in(target, ByteClass::Visible) {
            assert forall|i: int| 0 <= i < target.len() implies 0x21 <= #[trigger] target[i]
                <= 0x7e by {
                assert(ByteClass::Visible.has(target[i]));
            }
        }
    }
    assert(target.contains(0x23u8) == any_in(target, ByteClass::Only('#' as u8))) by {
        if target.contains(0x23u8) {
            let i = choose|i: int| 0 <= i < target.len() && target[i] == 0x23;
            assert(ByteClass::Only('#' as u8).has(target[i]));
        }
    }
    if visible && !target.contains(0x23u8) {
        assert(target[k] == 0x5c);
        assert(ByteClass::Only('\\' as u8).has(target[k]));
    }
}

proof fn lemma_reason_at(target: Seq<u8>, i: int, k: int)
    requires
        0 <= i <= k < target.len(),
        forall|j: int|
            0 <= j < k ==> 0x21 <= #[trigger] target[j] <= 0x7e && target[j] != 0x23 && target[j]
                != 0x5c,
        byte_reason(target[k]) is Some,
    ensures
        first_byte_reason(target, i) == byte_reason(target[k]),
    decreases k - i,
{
    if i < k {
        assert(0x21 <= target[i] <= 0x7e && target[i] != 0x23 && target[i] != 0x5c);
        lemma_reason_at(target, i + 1, k);
    }
}

/// The asterisk is a target of OPTIONS, and of no other method.
pub proof fn lemma_asterisk_is_for_options(
    line: RequestLineModel,
    in_order: bool,
    query_first: bool,
)
    requires
        line.target == seq![0x2au8],
    ensures
        ({
            let read = Ok::<TargetModel, Fault>(
                TargetModel {
                    form: TargetForm::Asterisk,
                    scheme: None,
                    authority: None,
                    path_and_query: seq![0x2au8],
                    routing_path: seq![0x2au8],
                },
            );
            let refused = Err::<TargetModel, Fault>(
                Fault::InvalidTarget { reason: "asterisk_method"@ },
            );
            &&& normalized(line, in_order, query_first) == if line.method == utf8("options"@) {
                read
            } else {
                refused
            }
            &&& normalized_leniently(line) == if lowered(line.method) == utf8("options"@) {
                read
            } else {
                refused
            }
        }),
{
    assert(is_clear(line.target));
    lemma_clear(line.target);
    lemma_envelope(line.target, in_order);
}

/// CONNECT takes the authority form alone: a path or a target with a scheme is refused. Other
/// methods take a path or a scheme: anything else is refused.
pub proof fn lemma_forms_and_methods(line: RequestLineModel, in_order: bool, query_first: bool)
    requires
        1 <= line.target.len() <= 8192,
        is_clear(line.target),
        line.target != seq![0x2au8],
    ensures
        ({
            let target = line.target;
            let rooted = target[0] == 0x2f;
            let schemed = target.len() >= 7 && lowered(target.take(7)) == utf8("http://"@)
                || target.len() >= 8 && lowered(target.take(8)) == utf8("https://"@);
            &&& line.method == utf8("connect"@) && (rooted || schemed) ==> normalized(
                line,
                in_order,
                query_first,
            ) == Err::<TargetModel, Fault>(
                Fault::InvalidTarget { reason: "connect_requires_authority"@ },
            )
            &&& lowered(line.method) == utf8("connect"@) && (rooted || schemed)
                ==> normalized_leniently(line) == Err::<TargetModel, Fault>(
                Fault::InvalidTarget { reason: "connect_form"@ },
            )
            &&& line.method != utf8("connect"@) && !rooted && !schemed ==> normalized(
                line,
                in_order,
                query_first,
            ) == Err::<TargetModel, Fault>(Fault::InvalidTarget { reason: "authority_method"@ })
            &&& lowered(line.method) != utf8("connect"@) && !rooted && !schemed
                ==> normalized_leniently(line) == Err::<TargetModel, Fault>(
                Fault::InvalidTarget { reason: "invalid_form"@ },
            )
            &&& line.method == utf8("connect"@) && !rooted && !schemed && (endpoint(target) is None
                || endpoint(target).unwrap().port is None) ==> normalized(
                line,
                in_order,
                query_first,
            ) == Err::<TargetModel, Fault>(Fault::InvalidAuthority)
            &&& lowered(line.method) == utf8("connect"@) && !rooted && !schemed && (endpoint(
                target,
            ) is None || endpoint(target).unwrap().port is None) ==> normalized_leniently(line)
                == Err::<TargetModel, Fault>(Fault::InvalidAuthority)
        }),
{
    lemma_clear(line.target);
    lemma_envelope(line.target, in_order);
    lemma_scheme_words();
}

proof fn lemma_scheme_words()
    ensures
        utf8("http://"@).len() == 7,
        utf8("https://"@).len() == 8,
        utf8("http://"@)[5] == 0x2f,
        utf8("https://"@)[6] == 0x2f,
        utf8("https://"@)[4] == 0x73,
        utf8("http://"@)[4] == 0x3a,
        utf8("http"@).len() == 4,
{
    reveal_strlit("http://");
    reveal_strlit("https://");
    reveal_strlit("http");
    lemma_ascii_literal("http://"@);
    lemma_ascii_literal("https://"@);
    lemma_ascii_literal("http"@);
}

/// The port of an endpoint is the digits behind its last colon.
proof fn lemma_port_digits(raw: Seq<u8>, front: Seq<u8>, digits: Seq<u8>)
    requires
        raw == front + seq![0x3au8] + digits,
        is_port(digits),
        endpoint(raw) is Some,
        endpoint(raw).unwrap().port is Some,
    ensures
        port_text(raw) == digits,
        endpoint(raw).unwrap().port == Some(decimal(digits) as u16),
{
    let c = front.len() as int;
    let d = raw.len() as int;
    assert(raw[c] == 0x3a);
    assert forall|j: int| c < j < d implies #[trigger] raw[j] != 0x3a && raw[j] != 0x5d by {
        assert(raw[j] == digits[j - c - 1]);
    }
    if raw[0] == '[' as u8 {
        let only = ByteClass::Only(']' as u8);
        lemma_first_in(raw, only);
        let close = first_in(raw, only);
        let rest = raw.skip(close + 1);
        assert(rest[0] == raw[close + 1]);
        let p = close + 2;
        assert(rest.skip(1) =~= raw.skip(p));
        lemma_ports(raw.skip(p));
        if c >= p {
            assert(raw.skip(p)[c - p] == raw[c]);
            assert(0x30 <= raw.skip(p)[c - p] <= 0x39);
        }
        assert(c == p - 1);
        assert(raw.skip(p) =~= digits);
    } else {
        let only = ByteClass::Only(':' as u8);
        lemma_first_in(raw, only);
        let colon = first_in(raw, only);
        let p = colon + 1;
        lemma_ports(raw.skip(p));
        if c < colon {
            assert(!only.has(raw[c]));
        }
        if c >= p {
            assert(raw.skip(p)[c - p] == raw[c]);
            assert(0x30 <= raw.skip(p)[c - p] <= 0x39);
        }
        assert(c == p - 1);
        assert(raw.skip(p) =~= digits);
    }
    lemma_ports(digits);
}

/// CONNECT to an endpoint with a port is in authority form, and its target is the endpoint: the
/// host in lower case, and the port in decimal digits. The lenient reading leaves the digits as
/// they came.
pub proof fn lemma_connect_target_is_read(
    line: RequestLineModel,
    front: Seq<u8>,
    digits: Seq<u8>,
    in_order: bool,
    query_first: bool,
)
    requires
        line.target == front + seq![0x3au8] + digits,
        line.target.len() <= 8192,
        is_port(digits),
        endpoint(line.target) is Some,
        endpoint(line.target).unwrap().port is Some,
    ensures
        ({
            let host = endpoint(line.target).unwrap().host;
            let text = host + seq![0x3au8] + digits_of(decimal(digits));
            let kept = host + seq![0x3au8] + digits;
            &&& line.method == utf8("connect"@) ==> normalized(line, in_order, query_first) == Ok::<
                TargetModel,
                Fault,
            >(
                TargetModel {
                    form: TargetForm::Authority,
                    scheme: None,
                    authority: Some(text),
                    path_and_query: text,
                    routing_path: text,
                },
            )
            &&& lowered(line.method) == utf8("connect"@) ==> normalized_leniently(line) == Ok::<
                TargetModel,
                Fault,
            >(
                TargetModel {
                    form: TargetForm::Authority,
                    scheme: None,
                    authority: Some(kept),
                    path_and_query: kept,
                    routing_path: kept,
                },
            )
        }),
{
    let target = line.target;
    lemma_endpoint_bytes(target);
    assert forall|i: int| 0 <= i < target.len() implies 0x21 <= #[trigger] target[i] <= 0x7e
        && target[i] != 0x23 && target[i] != 0x5c && target[i] != 0x2f && target[i] != 0x2a by {
        assert(ByteClass::Authority.has(target[i]));
    }
    assert(is_clear(target));
    lemma_clear(target);
    lemma_envelope(target, in_order);
    lemma_scheme_words();
    assert(target != seq!['*' as u8]) by {
        assert(target[0] != 0x2a);
    }
    assert(scheme_of(target) is None) by {
        if target.len() >= 7 {
            assert(lowered(target.take(7))[5] == to_lower(target[5]));
            assert(target[5] != 0x2f);
        }
        if target.len() >= 8 {
            assert(lowered(target.take(8))[6] == to_lower(target[6]));
            assert(target[6] != 0x2f);
        }
    }
    lemma_port_digits(target, front, digits);
}

/// A target with a scheme is in absolute form: it names its authority, and its path, which is the
/// root where there is none, is normalized as that of an origin target.
pub proof fn lemma_absolute_target_is_read(
    line: RequestLineModel,
    word: Seq<u8>,
    authority: Seq<u8>,
    suffix: Seq<u8>,
    in_order: bool,
    query_first: bool,
)
    requires
        line.target == word + authority + suffix,
        line.target.len() <= 8192,
        is_clear(line.target),
        lowered(word) == utf8("http://"@) || lowered(word) == utf8("https://"@),
        forall|i: int|
            0 <= i < authority.len() ==> #[trigger] authority[i] != 0x2f && authority[i] != 0x3f,
        suffix.len() > 0 ==> suffix[0] == 0x2f || suffix[0] == 0x3f,
        lowered(line.method) != utf8("connect"@),
        line.method != utf8("connect"@),
    ensures
        ({
            let path = if suffix.len() > 0 && suffix[0] == 0x2f {
                suffix
            } else {
                seq![0x2fu8] + suffix
            };
            let other = RequestLineModel { target: path, ..line };
            let scheme = if lowered(word) == utf8("http://"@) {
                utf8("http"@)
            } else {
                utf8("https"@)
            };
            let strict = normalized(line, in_order, query_first);
            let lenient = normalized_leniently(line);
            match endpoint(authority) {
                None => {
                    &&& strict == Err::<TargetModel, Fault>(Fault::InvalidAuthority)
                    &&& lenient == Err::<TargetModel, Fault>(Fault::InvalidAuthority)
                },
                Some(named) => {
                    let text = match named.port {
                        None => named.host,
                        Some(port) => named.host + seq![0x3au8] + digits_of(port as nat),
                    };
                    &&& strict == match normalized(other, in_order, query_first) {
                        Ok(read) => Ok::<TargetModel, Fault>(
                            TargetModel {
                                form: TargetForm::Absolute,
                                scheme: Some(scheme),
                                authority: Some(text),
                                path_and_query: read.path_and_query,
                                routing_path: read.routing_path,
                            },
                        ),
                        Err(fault) => Err(fault),
                    }
                    &&& match normalized_leniently(other) {
                        Ok(read) => lenient matches Ok(found) && {
                            &&& found.form is Absolute
                            &&& found.scheme == Some(scheme)
                            &&& found.path_and_query == read.path_and_query
                            &&& found.routing_path == read.routing_path
                            &&& named.port is None ==> found.authority == Some(named.host)
                            &&& forall|front: Seq<u8>, digits: Seq<u8>|
                                named.port is Some && is_port(digits) && authority == #[trigger] (
                                front + seq![0x3au8] + digits) ==> found.authority == Some(
                                    named.host + seq![0x3au8] + digits,
                                )
                        },
                        Err(fault) => lenient == Err::<TargetModel, Fault>(fault),
                    }
                },
            }
        }),
{
    let target = line.target;
    let remainder = authority + suffix;
    lemma_clear(target);
    lemma_envelope(target, in_order);
    lemma_absolute_parts(word, authority, suffix);
    let path = path_after_authority(remainder);
    lemma_clear(path);
    lemma_clear(remainder);
    lemma_envelope(path, in_order);
    assert(path != seq!['*' as u8]) by {
        assert(path[0] == 0x2f);
    }
    assert(target != seq!['*' as u8]) by {
        assert(target.len() > 1);
    }
    if endpoint(authority) is Some && endpoint(authority).unwrap().port is Some {
        assert forall|front: Seq<u8>, digits: Seq<u8>|
            is_port(digits) && authority == #[trigger] (front + seq![0x3au8] + digits) implies
            port_text(authority) == digits by {
            lemma_port_digits(authority, front, digits);
        }
    }
}

proof fn lemma_absolute_parts(word: Seq<u8>, authority: Seq<u8>, suffix: Seq<u8>)
    requires
        is_clear(word + authority + suffix),
        lowered(word) == utf8("http://"@) || lowered(word) == utf8("https://"@),
        forall|i: int|
            0 <= i < authority.len() ==> #[trigger] authority[i] != 0x2f && authority[i] != 0x3f,
        suffix.len() > 0 ==> suffix[0] == 0x2f || suffix[0] == 0x3f,
    ensures
        ({
            let target = word + authority + suffix;
            let remainder = authority + suffix;
            let path = path_after_authority(remainder);
            &&& target.len() >= 7
            &&& target[0] != 0x2f
            &&& scheme_of(target) == Some(
                if lowered(word) == utf8("http://"@) {
                    (utf8("http"@), 7int)
                } else {
                    (utf8("https"@), 8int)
                },
            )
            &&& target.skip(word.len() as int) == remainder
            &&& word.len() == if lowered(word) == utf8("http://"@) {
                7int
            } else {
                8int
            }
            &&& crate::request_target::authority_end(remainder) == authority.len()
            &&& remainder.subrange(0, authority.len() as int) == authority
            &&& path == if suffix.len() > 0 && suffix[0] == 0x2f {
                suffix
            } else {
                seq![0x2fu8] + suffix
            }
            &&& path[0] == 0x2f
            &&& 1 <= path.len() <= target.len()
            &&& is_clear(path)
            &&& is_clear(remainder)
        }),
{
    let target = word + authority + suffix;
    let n = word.len() as int;
    let remainder = authority + suffix;
    lemma_scheme_words();
    assert(lowered(word).len() == word.len());
    assert(target.take(n) =~= word);
    assert(lowered(word)[n - 1] == 0x2f) by {
        reveal_strlit("http://");
        reveal_strlit("https://");
        lemma_ascii_literal("http://"@);
        lemma_ascii_literal("https://"@);
    }
    reveal_strlit("http://");
    reveal_strlit("https://");
    lemma_ascii_literal("http://"@);
    lemma_ascii_literal("https://"@);
    assert(lowered(word)[0] == 0x68);
    assert(target[0] == word[0]);
    assert(target[0] != 0x2f);
    assert(target.len() > 1);
    if lowered(word) == utf8("https://"@) {
        assert(lowered(target.take(7))[4] == lowered(word)[4]);
    }
    assert(scheme_of(target) == Some(
        if lowered(word) == utf8("http://"@) {
            (utf8("http"@), 7int)
        } else {
            (utf8("https"@), 8int)
        },
    ));
    assert(target.skip(n) =~= remainder);
    let slash = ByteClass::Only('/' as u8);
    let question = ByteClass::Only('?' as u8);
    lemma_first_in(remainder, slash);
    lemma_first_in(remainder, question);
    let a = authority.len() as int;
    assert forall|j: int| 0 <= j < a implies #[trigger] remainder[j] != 0x2f && remainder[j]
        != 0x3f by {
        assert(remainder[j] == authority[j]);
    }
    if suffix.len() > 0 {
        assert(remainder[a] == suffix[0]);
    }
    assert(crate::request_target::authority_end(remainder) == a) by {
        let s = first_in(remainder, slash);
        let q = first_in(remainder, question);
        if s < a {
            assert(slash.has(remainder[s]));
        }
        if q < a {
            assert(question.has(remainder[q]));
        }
        if suffix.len() > 0 {
            if suffix[0] == 0x2f && s > a {
                assert(!slash.has(remainder[a]));
            }
            if suffix[0] == 0x3f && q > a {
                assert(!question.has(remainder[a]));
            }
        }
    }
    assert(remainder.subrange(0, a) =~= authority);
    assert(remainder.skip(a) =~= suffix);
    let path = path_after_authority(remainder);
    assert(is_clear(remainder)) by {
        assert forall|i: int| 0 <= i < remainder.len() implies 0x21 <= #[trigger] remainder[i]
            <= 0x7e && remainder[i] != 0x23 && remainder[i] != 0x5c by {
            assert(remainder[i] == target[n + i]);
        }
    }
    let rooted = suffix.len() > 0 && suffix[0] == 0x2f;
    assert(is_clear(path)) by {
        assert forall|i: int| 0 <= i < path.len() implies 0x21 <= #[trigger] path[i] <= 0x7e
            && path[i] != 0x23 && path[i] != 0x5c by {
            if rooted {
                assert(path[i] == target[n + a + i]);
            } else if i > 0 {
                assert(path[i] == target[n + a + i - 1]);
            }
        }
    }
}

/// The lenient reading refuses an empty target as one of no form, and a path with a number sign
/// for its fragment; in a path it refuses a backslash, a space or a control byte at the first one
/// that there is.
pub proof fn lemma_lenient_refuses(
    line: RequestLineModel,
    segments: Seq<Seq<Piece>>,
    b: u8,
    rest: Seq<u8>,
)
    requires
        lowered(line.method) != utf8("connect"@),
        line.target.len() <= 8192,
        are_segments(segments),
    ensures
        line.target.len() == 0 ==> normalized_leniently(line) == Err::<TargetModel, Fault>(
            Fault::InvalidTarget { reason: "invalid_form"@ },
        ),
        line.target.len() > 0 && line.target[0] == 0x2f && line.target.contains(0x23u8)
            ==> normalized_leniently(line) == Err::<TargetModel, Fault>(
            Fault::InvalidTarget { reason: "fragment"@ },
        ),
        line.target == path_spelling(segments) + (seq![b] + rest) && !line.target.contains(0x23u8)
            && !rest.contains(0x3fu8) && (b == 0x5c || b == 0x20 || b < 0x20 || b == 0x7f)
            ==> normalized_leniently(line) == Err::<TargetModel, Fault>(
            Fault::InvalidTarget { reason: "forbidden_character"@ },
        ),
{
    let target = line.target;
    let hash = ByteClass::Only('#' as u8);
    lemma_scheme_words();
    assert(target.contains(0x23u8) == any_in(target, hash)) by {
        if target.contains(0x23u8) {
            let i = choose|i: int| 0 <= i < target.len() && target[i] == 0x23;
            assert(hash.has(target[i]));
        }
    }
    if target.len() > 0 && target[0] == 0x2f {
        assert(target != seq!['*' as u8]);
    }
    let front = path_spelling(segments);
    let tail = seq![b] + rest;
    if target == front + tail && !target.contains(0x23u8) && !rest.contains(0x3fu8) && (b == 0x5c
        || b == 0x20 || b < 0x20 || b == 0x7f) {
        lemma_target_read(segments, None);
        assert(front + query_spelling(None) =~= front);
        let only = ByteClass::Only('?' as u8);
        lemma_first_in(front, only);
        let n = target.len() as int;
        assert forall|j: int| 0 <= j < n implies !only.has(#[trigger] target[j]) by {
            if j < front.len() {
                assert(target[j] == front[j]);
            } else if j > front.len() {
                assert(target[j] == rest[j - front.len() - 1]);
                if rest[j - front.len() - 1] == 0x3f {
                    assert(rest.contains(0x3fu8));
                }
            } else {
                assert(target[j] == b);
            }
        }
        lemma_first_in_unique(target, only, n);
        assert(target.subrange(0, n) =~= target);
        assert(target[0] == front[0]);
        assert forall|j: int| 0 <= j < front.len() implies ByteClass::Visible.has(
            #[trigger] front[j],
        ) && front[j] != '\\' as u8 by {}
        lemma_lenient_component(front, true);
        assert(escape_reason(front, 0, true, true) is None);
        lemma_canonical_concat(front, tail, 0, true, true);
        assert(tail[0] == b);
    }
}

/// The lenient reading takes any text for a segment that holds no separator, percent sign,
/// number sign, space or control byte, and leaves it as it is.
pub proof fn lemma_lenient_takes_text(line: RequestLineModel, segment: Seq<u8>)
    requires
        lowered(line.method) != utf8("connect"@),
        line.target == seq![0x2fu8] + segment,
        line.target.len() <= 8192,
        forall|i: int|
            0 <= i < segment.len() ==> 0x21 <= #[trigger] segment[i] && segment[i] != 0x7f
                && segment[i] != 0x2f && segment[i] != 0x3f && segment[i] != 0x23 && segment[i]
                != 0x5c && segment[i] != 0x25,
        segment != seq![0x2eu8],
        segment != seq![0x2eu8, 0x2eu8],
        vstd::utf8::valid_utf8(segment),
    ensures
        normalized_leniently(line) == Ok::<TargetModel, Fault>(
            TargetModel {
                form: TargetForm::Origin,
                scheme: None,
                authority: None,
                path_and_query: line.target,
                routing_path: line.target,
            },
        ),
{
    let target = line.target;
    let n = target.len() as int;
    assert forall|j: int| 0 <= j < n implies {
        let b = #[trigger] target[j];
        0x21 <= b && b != 0x7f && b != 0x3f && b != 0x23 && b != 0x5c && b != 0x25
    } by {
        if j > 0 {
            assert(target[j] == segment[j - 1]);
        }
    }
    let question = ByteClass::Only('?' as u8);
    let hash = ByteClass::Only('#' as u8);
    assert forall|j: int| 0 <= j < n implies !question.has(#[trigger] target[j]) && !hash.has(
        target[j],
    ) by {}
    lemma_first_in_unique(target, question, n);
    assert(target.subrange(0, n) =~= target);
    assert(target.skip(1) =~= segment);
    lemma_unescaped_stays(target, 0);
    lemma_unescaped_stays(segment, 0);
    assert(target.skip(0) =~= target);
    assert(segment.skip(0) =~= segment);
    let slash = ByteClass::Only('/' as u8);
    assert forall|j: int| 0 <= j < segment.len() implies !slash.has(#[trigger] segment[j]) by {}
    lemma_first_in_unique(segment, slash, segment.len() as int);
    let said = seq![segment];
    assert(segments_of(target) =~= said);
    assert(said.take(0) =~= Seq::<Seq<u8>>::empty());
    lemma_undotted(said, 0, true);
    lemma_joined_front(said);
    assert(said.skip(1) =~= Seq::<Seq<u8>>::empty());
    assert(crate::request_target::joined(said) =~= target);
    lemma_joined_text(said);
    assert(target != seq!['*' as u8]) by {
        assert(target[0] == 0x2f);
    }
}

proof fn lemma_unescaped_stays(s: Seq<u8>, i: int)
    requires
        0 <= i <= s.len(),
        forall|j: int|
            0 <= j < s.len() ==> 0x21 <= #[trigger] s[j] && s[j] != 0x7f && s[j] != 0x5c && s[j]
                != 0x25,
    ensures
        canonical_from(s, i) == s.skip(i),
        escape_reason(s, i, true, true) is None,
    decreases s.len() - i,
{
    if i < s.len() {
        assert(0x21 <= s[i] && s[i] != 0x7f && s[i] != 0x5c && s[i] != 0x25);
        lemma_unescaped_stays(s, i + 1);
        assert(s.skip(i) =~= seq![s[i]] + s.skip(i + 1));
    } else {
        assert(s.skip(i) =~= Seq::<u8>::empty());
    }
}

} // verus!
