//! Normalizing a request target.

use vstd::prelude::*;
use vstd::utf8::valid_utf8;
use crate::bytes::{
    ByteClass, all_in, any_in, find_in, first_in, is_control, is_hex, is_visible, lemma_first_in,
    lemma_first_in_unique, lemma_split_pieces, lowered, same_lowered, slices_of, split,
};
use crate::decimal::{digits_of, lemma_digits_of, render_decimal};
use crate::hex::hex_digit_value;
use crate::host::{endpoint, lemma_endpoint_bytes, parse_endpoint};
use crate::route::{
    decoded_byte, has_dot_segment, is_canonical_path, is_dot_segment, is_unreserved, is_upper_hex,
};
use crate::text::{
    append, ascii_text, is_ascii, lemma_ascii_is_utf8, lemma_ascii_literal, lemma_text_around,
    utf8,
};
use crate::types::{
    AuthorityModel, EffectiveAuthority, Fault, NormalizedTarget, RequestLineModel, TargetForm,
    TargetModel, Verdict, utf8_opt,
};

verus! {

pub const TARGET_MAX: usize = 8_192;

pub open spec fn target_fault(reason: Seq<char>) -> Fault {
    Fault::InvalidTarget { reason }
}

pub open spec fn target_too_long(actual: int) -> Fault {
    Fault::LimitExceeded { limit: "target_bytes"@, max: TARGET_MAX as int, actual }
}

/// Why a byte may not stand in a target.
pub open spec fn byte_reason(b: u8) -> Option<Seq<char>> {
    if b == '#' as u8 {
        Some("fragment_not_allowed"@)
    } else if b == '\\' as u8 {
        Some("backslash_not_allowed"@)
    } else if !is_visible(b) {
        Some("invalid_target_byte"@)
    } else {
        None
    }
}

/// Why the first byte at `i` or later that may not stand in a target may not.
pub open spec fn first_byte_reason(target: Seq<u8>, i: int) -> Option<Seq<char>>
    decreases target.len() - i,
{
    if i >= target.len() {
        None
    } else if byte_reason(target[i]) is Some {
        byte_reason(target[i])
    } else {
        first_byte_reason(target, i + 1)
    }
}

/// What is wrong with a target before its form is looked at. Its bytes are looked at in order, or
/// one kind of bad bytes after the other.
pub open spec fn envelope_fault(target: Seq<u8>, in_order: bool) -> Option<Fault> {
    if target.len() > TARGET_MAX {
        Some(target_too_long(target.len() as int))
    } else if target.len() == 0 {
        Some(target_fault("empty_target"@))
    } else if in_order {
        match first_byte_reason(target, 0) {
            Some(reason) => Some(target_fault(reason)),
            None => None,
        }
    } else if !all_in(target, ByteClass::Visible) {
        Some(target_fault("invalid_target_byte"@))
    } else if any_in(target, ByteClass::Only('#' as u8)) {
        Some(target_fault("fragment_not_allowed"@))
    } else if any_in(target, ByteClass::Only('\\' as u8)) {
        Some(target_fault("backslash_not_allowed"@))
    } else {
        None
    }
}

/// Whether a byte string begins with a prefix in lower case, whatever case it is in.
pub open spec fn begins_with(s: Seq<u8>, prefix: Seq<u8>) -> bool {
    s.len() >= prefix.len() && lowered(s.take(prefix.len() as int)) == prefix
}

/// The scheme of an absolute target, and where what follows it begins.
pub open spec fn scheme_of(target: Seq<u8>) -> Option<(Seq<u8>, int)> {
    if begins_with(target, utf8("http://"@)) {
        Some((utf8("http"@), 7))
    } else if begins_with(target, utf8("https://"@)) {
        Some((utf8("https"@), 8))
    } else {
        None
    }
}

/// An authority as it is spelled in a normalized target.
pub open spec fn spelled(authority: AuthorityModel) -> Seq<u8> {
    match authority.port {
        None => authority.host,
        Some(port) => authority.host + seq![':' as u8] + digits_of(port as nat),
    }
}

/// The canonical spelling of an authority, which may have to have a port.
pub open spec fn authority_text(raw: Seq<u8>, port_required: bool) -> Option<Seq<u8>> {
    match endpoint(raw) {
        Some(authority) => if port_required && authority.port is None {
            None
        } else {
            Some(spelled(authority))
        },
        None => None,
    }
}

/// The text of the port of an authority that has one.
pub open spec fn port_text(raw: Seq<u8>) -> Seq<u8> {
    if raw[0] == '[' as u8 {
        raw.skip(first_in(raw, ByteClass::Only(']' as u8)) + 2)
    } else {
        raw.skip(first_in(raw, ByteClass::Only(':' as u8)) + 1)
    }
}

/// The spelling of an authority whose port keeps the digits that it was given.
pub open spec fn kept_authority_text(raw: Seq<u8>, port_required: bool) -> Option<Seq<u8>> {
    match endpoint(raw) {
        Some(authority) => match authority.port {
            None => if port_required {
                None
            } else {
                Some(authority.host)
            },
            Some(_) => Some(authority.host + seq![':' as u8] + port_text(raw)),
        },
        None => None,
    }
}

/// An upper-case hexadecimal digit.
pub open spec fn upper_digit(value: int) -> u8 {
    if value < 10 {
        ('0' as u8 + value) as u8
    } else {
        ('A' as u8 + value - 10) as u8
    }
}

/// How a byte that was escaped is written: for itself where it can be.
pub open spec fn escape_of(b: u8) -> Seq<u8> {
    if is_unreserved(b) {
        seq![b]
    } else {
        seq!['%' as u8, upper_digit(b as int / 16), upper_digit(b as int % 16)]
    }
}

/// Whether two hexadecimal digits follow the percent sign at `i`.
pub open spec fn is_escape(s: Seq<u8>, i: int) -> bool {
    i + 2 < s.len() && is_hex(s[i + 1]) && is_hex(s[i + 2])
}

/// The byte that the escape at `i` stands for.
pub open spec fn escaped_byte(s: Seq<u8>, i: int) -> u8 {
    decoded_byte(s[i + 1], s[i + 2])
}

/// Why the first escape at `i` or later that may not stand in a component may not. Where `lenient`
/// no byte has been looked at before, and some are refused here.
pub open spec fn escape_reason(s: Seq<u8>, i: int, in_path: bool, lenient: bool) -> Option<Seq<char>>
    decreases s.len() - i,
{
    if i >= s.len() {
        None
    } else if s[i] == '%' as u8 {
        if !is_escape(s, i) {
            Some("invalid_percent_encoding"@)
        } else if in_path && (escaped_byte(s, i) == '/' as u8 || escaped_byte(s, i) == '\\' as u8) {
            Some("encoded_separator"@)
        } else if is_control(escaped_byte(s, i)) {
            Some("encoded_control"@)
        } else {
            escape_reason(s, i + 3, in_path, lenient)
        }
    } else if lenient && (s[i] == '\\' as u8 || s[i] == ' ' as u8 || is_control(s[i])) {
        Some("forbidden_character"@)
    } else {
        escape_reason(s, i + 1, in_path, lenient)
    }
}

/// The component from `i` on with canonical escapes.
pub open spec fn canonical_from(s: Seq<u8>, i: int) -> Seq<u8>
    decreases s.len() - i,
{
    if i >= s.len() {
        Seq::empty()
    } else if s[i] == '%' as u8 && is_escape(s, i) {
        escape_of(escaped_byte(s, i)) + canonical_from(s, i + 3)
    } else {
        seq![s[i]] + canonical_from(s, i + 1)
    }
}

/// A component with canonical escapes.
pub open spec fn canonical(s: Seq<u8>) -> Seq<u8> {
    canonical_from(s, 0)
}

/// The segments of a path with canonical escapes.
pub open spec fn segments_of(path: Seq<u8>) -> Seq<Seq<u8>> {
    split(path.skip(1), '/' as u8).map_values(|segment: Seq<u8>| canonical(segment))
}

pub open spec fn one_dot() -> Seq<u8> {
    seq!['.' as u8]
}

pub open spec fn two_dots() -> Seq<u8> {
    seq!['.' as u8, '.' as u8]
}

/// The segments that are left when one more has been read. A segment of two dots takes the last
/// one away, if there is one; a final segment of dots leaves an empty segment behind. Where
/// `terse`, none is left after two dots if the path then ends with a slash all the same.
pub open spec fn kept_after(kept: Seq<Seq<u8>>, segment: Seq<u8>, last: bool, terse: bool) -> Option<
    Seq<Seq<u8>>,
> {
    if segment == one_dot() {
        Some(
            if last {
                kept.push(Seq::empty())
            } else {
                kept
            },
        )
    } else if segment == two_dots() {
        if kept.len() == 0 {
            None
        } else {
            let fewer = kept.drop_last();
            Some(
                if last && !(terse && (fewer.len() == 0 || fewer.last() == Seq::<u8>::empty())) {
                    fewer.push(Seq::empty())
                } else {
                    fewer
                },
            )
        }
    } else {
        Some(kept.push(segment))
    }
}

/// The segments that are left of those from `i` on, after the ones that were kept; nothing where
/// the path leads out of the root.
pub open spec fn reduced(
    segments: Seq<Seq<u8>>,
    i: int,
    kept: Seq<Seq<u8>>,
    terse: bool,
) -> Option<Seq<Seq<u8>>>
    decreases segments.len() - i,
{
    if i >= segments.len() {
        Some(kept)
    } else {
        match kept_after(kept, segments[i], i + 1 == segments.len(), terse) {
            None => None,
            Some(next) => reduced(segments, i + 1, next, terse),
        }
    }
}

/// A path of segments, each after a slash.
pub open spec fn joined(segments: Seq<Seq<u8>>) -> Seq<u8>
    decreases segments.len(),
{
    if segments.len() == 0 {
        Seq::empty()
    } else {
        joined(segments.drop_last()) + seq!['/' as u8] + segments.last()
    }
}

/// A path that is never empty.
pub open spec fn rooted(segments: Seq<Seq<u8>>) -> Seq<u8> {
    if segments.len() == 0 {
        seq!['/' as u8]
    } else {
        joined(segments)
    }
}

/// Where the path of a target ends: at a question mark, or with the target.
pub open spec fn path_end(value: Seq<u8>) -> int {
    first_in(value, ByteClass::Only('?' as u8))
}

/// The query of a target, which follows a question mark.
pub open spec fn query_of(value: Seq<u8>) -> Option<Seq<u8>> {
    if path_end(value) < value.len() {
        Some(value.skip(path_end(value) + 1))
    } else {
        None
    }
}

/// A path with its query.
pub open spec fn with_query(path: Seq<u8>, query: Option<Seq<u8>>) -> Seq<u8> {
    match query {
        Some(query) => path + seq!['?' as u8] + canonical(query),
        None => path,
    }
}

/// Why a query may not stand in a target.
pub open spec fn query_reason(query: Option<Seq<u8>>) -> Option<Seq<char>> {
    match query {
        Some(query) => escape_reason(query, 0, false, false),
        None => None,
    }
}

/// Why a path with a query may not stand in a target. Whether the path leads out of the root is
/// looked at before the query, or after it.
pub open spec fn path_reason(value: Seq<u8>, query_first: bool) -> Option<Seq<char>> {
    let path = value.subrange(0, path_end(value));
    let escapes = reduced(segments_of(path), 0, Seq::empty(), false) is None;
    if escape_reason(path, 0, true, false) is Some {
        escape_reason(path, 0, true, false)
    } else if query_first && query_reason(query_of(value)) is Some {
        query_reason(query_of(value))
    } else if escapes {
        Some("path_traversal"@)
    } else {
        query_reason(query_of(value))
    }
}

/// A path with a query, normalized: what goes upstream, and the path by which it is routed.
pub open spec fn path_of(value: Seq<u8>, query_first: bool) -> Verdict<(Seq<u8>, Seq<u8>)> {
    let path = value.subrange(0, path_end(value));
    let routing = joined(reduced(segments_of(path), 0, Seq::empty(), false).unwrap());
    match path_reason(value, query_first) {
        Some(reason) => Err(target_fault(reason)),
        None => Ok((with_query(routing, query_of(value)), routing)),
    }
}

/// Where the authority of an absolute target ends: at the path or the query, or with the target.
pub open spec fn authority_end(remainder: Seq<u8>) -> int {
    let slash = first_in(remainder, ByteClass::Only('/' as u8));
    let question = first_in(remainder, ByteClass::Only('?' as u8));
    if slash < question {
        slash
    } else {
        question
    }
}

/// The path with a query that follows the authority of an absolute target. It has a slash at least.
pub open spec fn path_after_authority(remainder: Seq<u8>) -> Seq<u8> {
    let suffix = remainder.skip(authority_end(remainder));
    if suffix.len() > 0 && suffix[0] == '/' as u8 {
        suffix
    } else {
        seq!['/' as u8] + suffix
    }
}

/// A target that is the same as a path.
pub open spec fn fixed(form: TargetForm, authority: Option<Seq<u8>>, spelling: Seq<u8>) -> TargetModel {
    TargetModel {
        form,
        scheme: None,
        authority,
        path_and_query: spelling,
        routing_path: spelling,
    }
}

pub open spec fn authority_target(text: Option<Seq<u8>>) -> Verdict<TargetModel> {
    match text {
        Some(text) => Ok(fixed(TargetForm::Authority, Some(text), text)),
        None => Err(Fault::InvalidAuthority),
    }
}

/// A target with a path, given how the path came out.
pub open spec fn path_target(
    form: TargetForm,
    scheme: Option<Seq<u8>>,
    authority: Option<Seq<u8>>,
    path: Verdict<(Seq<u8>, Seq<u8>)>,
) -> Verdict<TargetModel> {
    match path {
        Err(fault) => Err(fault),
        Ok((path_and_query, routing_path)) => Ok(
            TargetModel { form, scheme, authority, path_and_query, routing_path },
        ),
    }
}

/// The normalized target of a request whose method is in lower case. The envelope's bytes are
/// looked at in order or not, the query before the dots of the path or not.
pub open spec fn normalized(line: RequestLineModel, in_order: bool, query_first: bool) -> Verdict<
    TargetModel,
> {
    let target = line.target;
    let connect = line.method == utf8("connect"@);
    if envelope_fault(target, in_order) is Some {
        Err(envelope_fault(target, in_order).unwrap())
    } else if target == seq!['*' as u8] {
        if line.method == utf8("options"@) {
            Ok(fixed(TargetForm::Asterisk, None, seq!['*' as u8]))
        } else {
            Err(target_fault("asterisk_method"@))
        }
    } else if target[0] == '/' as u8 {
        if connect {
            Err(target_fault("connect_requires_authority"@))
        } else {
            path_target(TargetForm::Origin, None, None, path_of(target, query_first))
        }
    } else {
        match scheme_of(target) {
            None => if connect {
                authority_target(authority_text(target, true))
            } else {
                Err(target_fault("authority_method"@))
            },
            Some((scheme, start)) => {
                let remainder = target.skip(start);
                let authority = authority_text(
                    remainder.subrange(0, authority_end(remainder)),
                    false,
                );
                if connect {
                    Err(target_fault("connect_requires_authority"@))
                } else if authority is None {
                    Err(Fault::InvalidAuthority)
                } else {
                    path_target(
                        TargetForm::Absolute,
                        Some(scheme),
                        authority,
                        path_of(path_after_authority(remainder), query_first),
                    )
                }
            },
        }
    }
}

/// Why a component may not stand in a target none of whose bytes has been looked at.
pub open spec fn component_reason(s: Seq<u8>, in_path: bool) -> Option<Seq<char>> {
    if escape_reason(s, 0, in_path, true) is Some {
        escape_reason(s, 0, in_path, true)
    } else if !valid_utf8(canonical(s)) {
        Some("invalid_encoding"@)
    } else {
        None
    }
}

/// Why a path with a query may not stand in a target none of whose bytes has been looked at.
pub open spec fn lenient_path_reason(value: Seq<u8>) -> Option<Seq<char>> {
    let path = value.subrange(0, path_end(value));
    if any_in(value, ByteClass::Only('#' as u8)) {
        Some("fragment"@)
    } else if component_reason(path, true) is Some {
        component_reason(path, true)
    } else if reduced(segments_of(path), 0, Seq::empty(), true) is None {
        Some("path_traversal"@)
    } else {
        match query_of(value) {
            Some(query) => component_reason(query, false),
            None => None,
        }
    }
}

/// A path with a query, normalized, none of whose bytes has been looked at.
pub open spec fn lenient_path_of(value: Seq<u8>) -> Verdict<(Seq<u8>, Seq<u8>)> {
    let path = value.subrange(0, path_end(value));
    let routing = rooted(reduced(segments_of(path), 0, Seq::empty(), true).unwrap());
    match lenient_path_reason(value) {
        Some(reason) => Err(target_fault(reason)),
        None => Ok((with_query(routing, query_of(value)), routing)),
    }
}

/// The normalized target of a request whose method is in any case and whose target has not been
/// looked at before. A port keeps its digits.
pub open spec fn normalized_leniently(line: RequestLineModel) -> Verdict<TargetModel> {
    let target = line.target;
    let connect = lowered(line.method) == utf8("connect"@);
    if target.len() > TARGET_MAX {
        Err(target_too_long(target.len() as int))
    } else if target == seq!['*' as u8] {
        if lowered(line.method) == utf8("options"@) {
            Ok(fixed(TargetForm::Asterisk, None, seq!['*' as u8]))
        } else {
            Err(target_fault("asterisk_method"@))
        }
    } else if target.len() > 0 && target[0] == '/' as u8 {
        if connect {
            Err(target_fault("connect_form"@))
        } else {
            path_target(TargetForm::Origin, None, None, lenient_path_of(target))
        }
    } else {
        match scheme_of(target) {
            None => if connect {
                authority_target(kept_authority_text(target, true))
            } else {
                Err(target_fault("invalid_form"@))
            },
            Some((scheme, start)) => {
                let remainder = target.skip(start);
                let authority = kept_authority_text(
                    remainder.subrange(0, authority_end(remainder)),
                    false,
                );
                if connect {
                    Err(target_fault("connect_form"@))
                } else if any_in(remainder, ByteClass::Only('#' as u8)) {
                    Err(target_fault("fragment"@))
                } else if authority is None {
                    Err(Fault::InvalidAuthority)
                } else {
                    path_target(
                        TargetForm::Absolute,
                        Some(scheme),
                        authority,
                        lenient_path_of(path_after_authority(remainder)),
                    )
                }
            },
        }
    }
}

/// A canonical component is no longer than it was.
pub proof fn lemma_canonical_len(s: Seq<u8>, i: int)
    requires
        0 <= i <= s.len(),
    ensures
        canonical_from(s, i).len() <= s.len() - i,
    decreases s.len() - i,
{
    if i < s.len() {
        if s[i] == '%' as u8 && is_escape(s, i) {
            lemma_canonical_len(s, i + 3);
        } else {
            lemma_canonical_len(s, i + 1);
        }
    }
}

/// The canonical form of what follows a place depends on nothing before it.
pub proof fn lemma_canonical_shifts(s: Seq<u8>, by: int, i: int, in_path: bool, lenient: bool)
    requires
        0 <= by,
        0 <= i,
        by + i <= s.len(),
    ensures
        canonical_from(s, by + i) == canonical_from(s.skip(by), i),
        escape_reason(s, by + i, in_path, lenient) == escape_reason(
            s.skip(by),
            i,
            in_path,
            lenient,
        ),
    decreases s.len() - by - i,
{
    let t = s.skip(by);
    if by + i < s.len() {
        assert(t[i] == s[by + i]);
        if i + 2 < t.len() {
            assert(t[i + 1] == s[by + i + 1]);
            assert(t[i + 2] == s[by + i + 2]);
        }
        if is_escape(t, i) {
            lemma_canonical_shifts(s, by, i + 3, in_path, lenient);
        }
        lemma_canonical_shifts(s, by, i + 1, in_path, lenient);
    }
}

/// What an escape is written as holds no byte that separates.
pub proof fn lemma_escape_of(b: u8)
    ensures
        forall|k: int|
            0 <= k < escape_of(b).len() ==> {
                let x = #[trigger] escape_of(b)[k];
                is_visible(x) && x != '/' as u8 && x != '?' as u8 && x != '#' as u8 && x
                    != '\\' as u8
            },
        !is_unreserved(b) ==> {
            let e = escape_of(b);
            &&& is_escape(e, 0)
            &&& escaped_byte(e, 0) == b
            &&& is_upper_hex(e[1])
            &&& is_upper_hex(e[2])
        },
{
    assert(0 <= b as int / 16 < 16 && 0 <= b as int % 16 < 16);
    assert((b as int / 16) * 16 + b as int % 16 == b);
}

/// Whether none of the bytes from `from` up to `upto` is `x`.
pub open spec fn lacks(s: Seq<u8>, from: int, upto: int, x: u8) -> bool {
    forall|j: int| from <= j < upto ==> #[trigger] s[j] != x
}

/// A byte that separates and is not in a component is not in its canonical form.
proof fn lemma_canonical_lacks(s: Seq<u8>, i: int, x: u8)
    requires
        0 <= i <= s.len(),
        lacks(s, i, s.len() as int, x),
        x == '/' as u8 || x == '?' as u8 || x == '#' as u8 || x == '\\' as u8,
    ensures
        lacks(canonical_from(s, i), 0, canonical_from(s, i).len() as int, x),
    decreases s.len() - i,
{
    if i < s.len() {
        if s[i] == '%' as u8 && is_escape(s, i) {
            lemma_canonical_lacks(s, i + 3, x);
            let head = escape_of(escaped_byte(s, i));
            let tail = canonical_from(s, i + 3);
            lemma_escape_of(escaped_byte(s, i));
            assert forall|j: int| 0 <= j < (head + tail).len() implies #[trigger] (head + tail)[j]
                != x by {
                if j < head.len() {
                    assert((head + tail)[j] == head[j]);
                } else {
                    assert((head + tail)[j] == tail[j - head.len()]);
                }
            }
        } else {
            lemma_canonical_lacks(s, i + 1, x);
            let tail = canonical_from(s, i + 1);
            assert forall|j: int| 0 <= j < canonical_from(s, i).len() implies #[trigger]
                canonical_from(s, i)[j] != x by {
                if j > 0 {
                    assert(canonical_from(s, i)[j] == tail[j - 1]);
                }
            }
        }
    }
}

/// Visible bytes have a visible canonical form.
pub proof fn lemma_canonical_visible(s: Seq<u8>, i: int)
    requires
        0 <= i <= s.len(),
        all_in(s, ByteClass::Visible),
    ensures
        all_in(canonical_from(s, i), ByteClass::Visible),
    decreases s.len() - i,
{
    if i < s.len() {
        if s[i] == '%' as u8 && is_escape(s, i) {
            lemma_canonical_visible(s, i + 3);
            let head = escape_of(escaped_byte(s, i));
            let tail = canonical_from(s, i + 3);
            lemma_escape_of(escaped_byte(s, i));
            assert forall|j: int| 0 <= j < (head + tail).len() implies ByteClass::Visible.has(
                #[trigger] (head + tail)[j],
            ) by {
                if j < head.len() {
                    assert((head + tail)[j] == head[j]);
                } else {
                    assert((head + tail)[j] == tail[j - head.len()]);
                }
            }
        } else {
            lemma_canonical_visible(s, i + 1);
            let tail = canonical_from(s, i + 1);
            assert(ByteClass::Visible.has(s[i]));
            assert forall|j: int| 0 <= j < canonical_from(s, i).len() implies ByteClass::Visible.has(
                #[trigger] canonical_from(s, i)[j],
            ) by {
                if j > 0 {
                    assert(canonical_from(s, i)[j] == tail[j - 1]);
                }
            }
        }
    }
}

/// The canonical form of a path up to its first slash and after it.
proof fn lemma_canonical_at_slash(s: Seq<u8>, j: int, i: int, lenient: bool)
    requires
        0 <= j <= i < s.len(),
        s[i] == '/' as u8,
        lacks(s, j, i, '/' as u8),
        escape_reason(s, j, true, lenient) is None,
    ensures
        canonical_from(s, j) == canonical_from(s.take(i), j) + seq!['/' as u8] + canonical_from(
            s,
            i + 1,
        ),
        escape_reason(s.take(i), j, true, lenient) is None,
        escape_reason(s, i + 1, true, lenient) is None,
    decreases i - j,
{
    let head = s.take(i);
    if j == i {
        assert(canonical_from(s, j) =~= canonical_from(head, j) + seq!['/' as u8] + canonical_from(
            s,
            i + 1,
        ));
    } else {
        assert(head[j] == s[j]);
        if s[j] == '%' as u8 {
            assert(is_escape(s, j));
            assert(j + 2 < i) by {
                if i == j + 1 || i == j + 2 {
                    assert(is_hex(s[i]));
                }
            }
            assert(head[j + 1] == s[j + 1] && head[j + 2] == s[j + 2]);
            lemma_canonical_at_slash(s, j + 3, i, lenient);
            assert(canonical_from(s, j) =~= canonical_from(head, j) + seq!['/' as u8]
                + canonical_from(s, i + 1));
        } else {
            lemma_canonical_at_slash(s, j + 1, i, lenient);
            assert(canonical_from(s, j) =~= canonical_from(head, j) + seq!['/' as u8]
                + canonical_from(s, i + 1));
        }
    }
}

/// To split a path with canonical escapes gives the same segments as to make those of the split
/// path canonical, for no escape stands for a slash.
pub proof fn lemma_canonical_splits(s: Seq<u8>, lenient: bool)
    requires
        escape_reason(s, 0, true, lenient) is None,
    ensures
        split(canonical(s), '/' as u8) == split(s, '/' as u8).map_values(
            |segment: Seq<u8>| canonical(segment),
        ),
        forall|k: int|
            0 <= k < split(s, '/' as u8).len() ==> escape_reason(
                #[trigger] split(s, '/' as u8)[k],
                0,
                true,
                lenient,
            ) is None,
    decreases s.len(),
{
    let slash = ByteClass::Only('/' as u8);
    let i = first_in(s, slash);
    lemma_first_in(s, slash);
    let made = |segment: Seq<u8>| canonical(segment);
    if i < s.len() {
        let head = s.take(i);
        let rest = s.skip(i + 1);
        assert forall|j: int| 0 <= j < i implies #[trigger] s[j] != '/' as u8 by {
            assert(!slash.has(s[j]));
        }
        lemma_canonical_at_slash(s, 0, i, lenient);
        lemma_canonical_shifts(s, i + 1, 0, true, lenient);
        assert forall|j: int| 0 <= j < head.len() implies #[trigger] head[j] != '/' as u8 by {
            assert(head[j] == s[j]);
        }
        lemma_canonical_lacks(head, 0, '/' as u8);
        let whole = canonical(s);
        let at = canonical(head).len() as int;
        assert forall|j: int| 0 <= j < at implies !slash.has(#[trigger] whole[j]) by {
            assert(whole[j] == canonical(head)[j]);
        }
        lemma_first_in_unique(whole, slash, at);
        assert(whole.take(at) =~= canonical(head));
        assert(whole.skip(at + 1) =~= canonical(rest));
        lemma_canonical_splits(rest, lenient);
        assert(split(whole, '/' as u8) =~= seq![canonical(head)] + split(
            canonical(rest),
            '/' as u8,
        ));
        assert(split(s, '/' as u8).map_values(made) =~= seq![canonical(head)] + split(
            rest,
            '/' as u8,
        ).map_values(made));
        assert forall|k: int| 0 <= k < split(s, '/' as u8).len() implies escape_reason(
            #[trigger] split(s, '/' as u8)[k],
            0,
            true,
            lenient,
        ) is None by {
            if k > 0 {
                assert(split(s, '/' as u8)[k] == split(rest, '/' as u8)[k - 1]);
            }
        }
    } else {
        assert forall|j: int| 0 <= j < s.len() implies #[trigger] s[j] != '/' as u8 by {
            assert(!slash.has(s[j]));
        }
        lemma_canonical_lacks(s, 0, '/' as u8);
        lemma_first_in_unique(canonical(s), slash, canonical(s).len() as int);
        assert(split(canonical(s), '/' as u8) =~= seq![canonical(s)]);
        assert(split(s, '/' as u8).map_values(made) =~= seq![canonical(s)]);
        assert(split(s, '/' as u8) =~= seq![s]);
    }
}

/// The segments of a path, got from its canonical form.
pub proof fn lemma_segments_of_canonical(path: Seq<u8>, lenient: bool)
    requires
        path.len() > 0,
        path[0] == '/' as u8,
        escape_reason(path, 0, true, lenient) is None,
    ensures
        canonical(path).len() > 0,
        canonical(path)[0] == '/' as u8,
        split(canonical(path).skip(1), '/' as u8) == segments_of(path),
        escape_reason(path.skip(1), 0, true, lenient) is None,
{
    lemma_canonical_shifts(path, 1, 0, true, lenient);
    lemma_canonical_splits(path.skip(1), lenient);
    assert(canonical(path).skip(1) =~= canonical(path.skip(1)));
}

/// How long a path of segments is.
spec fn total(segments: Seq<Seq<u8>>, i: int) -> nat
    decreases segments.len() - i,
{
    if i >= segments.len() {
        0
    } else {
        1 + segments[i].len() + total(segments, i + 1)
    }
}

proof fn lemma_total_split(s: Seq<u8>)
    ensures
        total(split(s, '/' as u8), 0) == s.len() + 1,
        split(s, '/' as u8).len() >= 1,
    decreases s.len(),
{
    let i = first_in(s, ByteClass::Only('/' as u8));
    lemma_first_in(s, ByteClass::Only('/' as u8));
    let pieces = split(s, '/' as u8);
    if i < s.len() {
        let rest = split(s.skip(i + 1), '/' as u8);
        lemma_total_split(s.skip(i + 1));
        assert(pieces =~= seq![s.take(i)] + rest);
        lemma_total_shifts(pieces, rest, 0);
    } else {
        assert(pieces =~= seq![s]);
        assert(total(pieces, 1) == 0);
    }
}

proof fn lemma_total_shifts(pieces: Seq<Seq<u8>>, rest: Seq<Seq<u8>>, i: int)
    requires
        0 <= i <= rest.len(),
        pieces.len() == rest.len() + 1,
        forall|k: int| 0 <= k < rest.len() ==> #[trigger] rest[k] == pieces[k + 1],
    ensures
        total(pieces, i + 1) == total(rest, i),
    decreases rest.len() - i,
{
    if i < rest.len() {
        assert(rest[i] == pieces[i + 1]);
        lemma_total_shifts(pieces, rest, i + 1);
    }
}

proof fn lemma_total_no_more(a: Seq<Seq<u8>>, b: Seq<Seq<u8>>, i: int)
    requires
        0 <= i,
        a.len() == b.len(),
        forall|k: int| 0 <= k < a.len() ==> (#[trigger] a[k]).len() <= b[k].len(),
    ensures
        total(a, i) <= total(b, i),
    decreases a.len() - i,
{
    if i < a.len() {
        assert(a[i].len() <= b[i].len());
        lemma_total_no_more(a, b, i + 1);
    }
}

/// To take dots out of a path makes it no longer.
proof fn lemma_reduced_len(segments: Seq<Seq<u8>>, i: int, kept: Seq<Seq<u8>>, terse: bool)
    requires
        0 <= i <= segments.len(),
    ensures
        reduced(segments, i, kept, terse) matches Some(left) ==> joined(left).len() <= joined(
            kept,
        ).len() + total(segments, i),
    decreases segments.len() - i,
{
    if i < segments.len() {
        let last = i + 1 == segments.len();
        if let Some(next) = kept_after(kept, segments[i], last, terse) {
            lemma_reduced_len(segments, i + 1, next, terse);
            assert(kept.push(segments[i]).drop_last() =~= kept);
            assert(kept.push(Seq::empty()).drop_last() =~= kept);
            if kept.len() > 0 {
                assert(kept.drop_last().push(Seq::empty()).drop_last() =~= kept.drop_last());
            }
        }
    }
}

/// A normalized path with its query is no longer than it was.
pub proof fn lemma_path_no_longer(value: Seq<u8>, terse: bool)
    requires
        value.len() > 0,
        value[0] == '/' as u8,
    ensures
        ({
            let path = value.subrange(0, path_end(value));
            &&& path.len() > 0
            &&& path[0] == '/' as u8
            &&& reduced(segments_of(path), 0, Seq::empty(), terse) matches Some(left) ==> {
                &&& joined(left).len() <= path.len()
                &&& rooted(left).len() <= path.len()
                &&& with_query(joined(left), query_of(value)).len() <= value.len()
                &&& with_query(rooted(left), query_of(value)).len() <= value.len()
            }
        }),
{
    let question = ByteClass::Only('?' as u8);
    lemma_first_in(value, question);
    assert(!question.has(value[0]));
    let path = value.subrange(0, path_end(value));
    let raw = split(path.skip(1), '/' as u8);
    let made = segments_of(path);
    lemma_total_split(path.skip(1));
    assert forall|k: int| 0 <= k < made.len() implies (#[trigger] made[k]).len() <= raw[k].len() by {
        lemma_canonical_len(raw[k], 0);
    }
    lemma_total_no_more(made, raw, 0);
    lemma_reduced_len(made, 0, Seq::empty(), terse);
    if let Some(query) = query_of(value) {
        lemma_canonical_len(query, 0);
    }
}

/// Whether every segment holds visible bytes only.
spec fn all_visible(segments: Seq<Seq<u8>>) -> bool {
    forall|k: int| 0 <= k < segments.len() ==> all_in(#[trigger] segments[k], ByteClass::Visible)
}

proof fn lemma_reduced_visible(segments: Seq<Seq<u8>>, i: int, kept: Seq<Seq<u8>>, terse: bool)
    requires
        0 <= i <= segments.len(),
        all_visible(segments),
        all_visible(kept),
    ensures
        reduced(segments, i, kept, terse) matches Some(left) ==> all_visible(left),
    decreases segments.len() - i,
{
    if i < segments.len() {
        let last = i + 1 == segments.len();
        if let Some(next) = kept_after(kept, segments[i], last, terse) {
            assert(all_visible(next));
            lemma_reduced_visible(segments, i + 1, next, terse);
        }
    }
}

proof fn lemma_joined_visible(segments: Seq<Seq<u8>>)
    requires
        all_visible(segments),
    ensures
        all_in(joined(segments), ByteClass::Visible),
    decreases segments.len(),
{
    if segments.len() > 0 {
        let less = segments.drop_last();
        assert(all_visible(less)) by {
            assert forall|k: int| 0 <= k < less.len() implies all_in(
                #[trigger] less[k],
                ByteClass::Visible,
            ) by {
                assert(less[k] == segments[k]);
            }
        }
        lemma_joined_visible(less);
        let whole = joined(segments);
        let last = segments.last();
        assert(all_in(segments[segments.len() - 1], ByteClass::Visible));
        assert forall|j: int| 0 <= j < whole.len() implies ByteClass::Visible.has(
            #[trigger] whole[j],
        ) by {
            if j < joined(less).len() {
                assert(whole[j] == joined(less)[j]);
            } else if j > joined(less).len() {
                assert(whole[j] == last[j - joined(less).len() - 1]);
            }
        }
    }
}

/// Visible segments of a visible path, once its escapes are canonical.
proof fn lemma_segments_visible(path: Seq<u8>)
    requires
        path.len() > 0,
        all_in(path, ByteClass::Visible),
    ensures
        all_visible(segments_of(path)),
{
    let tail = path.skip(1);
    assert forall|j: int| 0 <= j < tail.len() implies ByteClass::Visible.has(#[trigger] tail[j]) by {
        assert(ByteClass::Visible.has(path[j + 1]));
    }
    lemma_split_pieces(tail, '/' as u8, ByteClass::Visible);
    let raw = split(tail, '/' as u8);
    let made = segments_of(path);
    assert forall|k: int| 0 <= k < made.len() implies all_in(#[trigger] made[k], ByteClass::Visible) by {
        assert(all_in(raw[k], ByteClass::Visible));
        lemma_canonical_visible(raw[k], 0);
    }
}

/// A normalized path of visible bytes is visible.
pub proof fn lemma_path_visible(value: Seq<u8>)
    requires
        value.len() > 0,
        value[0] == '/' as u8,
        all_in(value, ByteClass::Visible),
    ensures
        ({
            let path = value.subrange(0, path_end(value));
            reduced(segments_of(path), 0, Seq::empty(), false) matches Some(left) ==> {
                &&& all_in(joined(left), ByteClass::Visible)
                &&& all_in(with_query(joined(left), query_of(value)), ByteClass::Visible)
            }
        }),
{
    lemma_path_no_longer(value, false);
    lemma_first_in(value, ByteClass::Only('?' as u8));
    let path = value.subrange(0, path_end(value));
    assert forall|j: int| 0 <= j < path.len() implies ByteClass::Visible.has(#[trigger] path[j]) by {
        assert(ByteClass::Visible.has(value[j]));
    }
    lemma_segments_visible(path);
    lemma_reduced_visible(segments_of(path), 0, Seq::empty(), false);
    if let Some(left) = reduced(segments_of(path), 0, Seq::empty(), false) {
        lemma_joined_visible(left);
        if let Some(query) = query_of(value) {
            assert forall|j: int| 0 <= j < query.len() implies ByteClass::Visible.has(
                #[trigger] query[j],
            ) by {
                assert(ByteClass::Visible.has(value[path_end(value) + 1 + j]));
            }
            lemma_canonical_visible(query, 0);
            let head = joined(left);
            let tail = canonical(query);
            let whole = with_query(head, query_of(value));
            assert forall|j: int| 0 <= j < whole.len() implies ByteClass::Visible.has(
                #[trigger] whole[j],
            ) by {
                if j < head.len() {
                    assert(whole[j] == head[j]);
                } else if j > head.len() {
                    assert(whole[j] == tail[j - head.len() - 1]);
                }
            }
        }
    }
}

/// A target that passes the envelope holds visible bytes only, none of them a number sign or a
/// backslash, whatever the order in which they are looked at.
pub proof fn lemma_envelope(target: Seq<u8>, in_order: bool)
    ensures
        envelope_fault(target, in_order) is None <==> {
            &&& 0 < target.len() <= TARGET_MAX
            &&& all_in(target, ByteClass::Visible)
            &&& lacks(target, 0, target.len() as int, '#' as u8)
            &&& lacks(target, 0, target.len() as int, '\\' as u8)
        },
        envelope_fault(target, in_order) is None ==> is_ascii(target),
{
    if in_order {
        lemma_first_byte_reason(target, 0);
        if first_byte_reason(target, 0) is None {
            assert forall|j: int| 0 <= j < target.len() implies ByteClass::Visible.has(
                #[trigger] target[j],
            ) by {
                assert(byte_reason(target[j]) is None);
            }
        } else {
            let j = choose|j: int|
                0 <= j < target.len() && byte_reason(#[trigger] target[j]) is Some;
            assert(ByteClass::Visible.has(target[j]) ==> target[j] == '#' as u8 || target[j]
                == '\\' as u8);
        }
    } else {
        if any_in(target, ByteClass::Only('#' as u8)) {
            let j = choose|j: int|
                0 <= j < target.len() && ByteClass::Only('#' as u8).has(#[trigger] target[j]);
            assert(target[j] == '#' as u8);
        } else {
            assert forall|j: int| 0 <= j < target.len() implies #[trigger] target[j] != '#' as u8 by {
                assert(!ByteClass::Only('#' as u8).has(target[j]));
            }
        }
        if any_in(target, ByteClass::Only('\\' as u8)) {
            let j = choose|j: int|
                0 <= j < target.len() && ByteClass::Only('\\' as u8).has(#[trigger] target[j]);
            assert(target[j] == '\\' as u8);
        } else {
            assert forall|j: int| 0 <= j < target.len() implies #[trigger] target[j]
                != '\\' as u8 by {
                assert(!ByteClass::Only('\\' as u8).has(target[j]));
            }
        }
    }
    if all_in(target, ByteClass::Visible) {
        assert forall|j: int| 0 <= j < target.len() implies target[j] < 0x80 by {
            assert(ByteClass::Visible.has(target[j]));
        }
    }
}

proof fn lemma_first_byte_reason(target: Seq<u8>, i: int)
    requires
        0 <= i <= target.len(),
    ensures
        first_byte_reason(target, i) is None <==> forall|j: int|
            i <= j < target.len() ==> byte_reason(#[trigger] target[j]) is None,
    decreases target.len() - i,
{
    if i < target.len() {
        lemma_first_byte_reason(target, i + 1);
    }
}

/// In whatever order things are looked at, the same targets are accepted, with the same result.
pub proof fn lemma_orders_accept_alike(
    line: RequestLineModel,
    in_order: bool,
    query_first: bool,
    other_in_order: bool,
    other_query_first: bool,
)
    ensures
        normalized(line, in_order, query_first) is Ok <==> normalized(
            line,
            other_in_order,
            other_query_first,
        ) is Ok,
        normalized(line, in_order, query_first) is Ok ==> normalized(line, in_order, query_first)
            == normalized(line, other_in_order, other_query_first),
{
    lemma_envelope(line.target, in_order);
    lemma_envelope(line.target, other_in_order);
}

/// Canonical escapes stay as they are when they are made canonical again.
proof fn lemma_canonical_stable(
    s: Seq<u8>,
    i: int,
    t: Seq<u8>,
    p: int,
    in_path: bool,
    lenient: bool,
)
    requires
        0 <= i <= s.len(),
        0 <= p <= t.len(),
        t.skip(p) == canonical_from(s, i),
        escape_reason(s, i, in_path, lenient) is None,
    ensures
        canonical_from(t, p) == canonical_from(s, i),
        escape_reason(t, p, in_path, lenient) is None,
    decreases s.len() - i,
{
    if i < s.len() {
        let rest = t.skip(p);
        assert(canonical_from(s, i).len() > 0);
        assert(rest[0] == t[p]);
        if s[i] == '%' as u8 {
            let b = escaped_byte(s, i);
            lemma_escape_of(b);
            if is_unreserved(b) {
                assert(rest[0] == b);
                assert(t.skip(p + 1) =~= rest.skip(1));
                assert(rest.skip(1) =~= canonical_from(s, i + 3));
                lemma_canonical_stable(s, i + 3, t, p + 1, in_path, lenient);
            } else {
                let e = escape_of(b);
                assert(rest[0] == e[0] && rest[1] == e[1] && rest[2] == e[2]);
                assert(rest[1] == t[p + 1] && rest[2] == t[p + 2]);
                assert(t.skip(p + 3) =~= rest.skip(3));
                assert(rest.skip(3) =~= canonical_from(s, i + 3));
                lemma_canonical_stable(s, i + 3, t, p + 3, in_path, lenient);
            }
        } else {
            assert(rest[0] == s[i]);
            assert(t.skip(p + 1) =~= rest.skip(1));
            assert(rest.skip(1) =~= canonical_from(s, i + 1));
            lemma_canonical_stable(s, i + 1, t, p + 1, in_path, lenient);
        }
    }
}

/// What stands before whole escapes does not reach into what stands after them.
pub proof fn lemma_canonical_concat(a: Seq<u8>, b: Seq<u8>, i: int, in_path: bool, lenient: bool)
    requires
        0 <= i <= a.len(),
        escape_reason(a, i, in_path, lenient) is None,
    ensures
        canonical_from(a + b, i) == canonical_from(a, i) + canonical(b),
        escape_reason(a + b, i, in_path, lenient) == escape_reason(b, 0, in_path, lenient),
    decreases a.len() - i,
{
    let whole = a + b;
    if i == a.len() {
        assert(whole.skip(i) =~= b);
        lemma_canonical_shifts(whole, i, 0, in_path, lenient);
        assert(canonical_from(whole, i) =~= canonical_from(a, i) + canonical(b));
    } else {
        assert(whole[i] == a[i]);
        if a[i] == '%' as u8 {
            assert(whole[i + 1] == a[i + 1] && whole[i + 2] == a[i + 2]);
            lemma_canonical_concat(a, b, i + 3, in_path, lenient);
        } else {
            lemma_canonical_concat(a, b, i + 1, in_path, lenient);
        }
        assert(canonical_from(whole, i) =~= canonical_from(a, i) + canonical(b));
    }
}

/// What holds of every segment of a normalized path: its escapes are canonical, and it holds no
/// byte that separates. Where the path is `lenient`, it may hold bytes that are not visible ASCII.
spec fn is_clean(segment: Seq<u8>, lenient: bool) -> bool {
    let len = segment.len() as int;
    &&& canonical(segment) == segment
    &&& escape_reason(segment, 0, true, lenient) is None
    &&& lenient || all_in(segment, ByteClass::Visible)
    &&& lacks(segment, 0, len, '/' as u8)
    &&& lacks(segment, 0, len, '?' as u8)
    &&& lacks(segment, 0, len, '#' as u8)
    &&& lacks(segment, 0, len, '\\' as u8)
}

spec fn all_clean(segments: Seq<Seq<u8>>, lenient: bool) -> bool {
    forall|k: int| 0 <= k < segments.len() ==> is_clean(#[trigger] segments[k], lenient)
}

spec fn no_dots(segments: Seq<Seq<u8>>) -> bool {
    forall|k: int| 0 <= k < segments.len() ==> !is_dot_segment(#[trigger] segments[k])
}

/// The pieces of a split byte string hold neither the separator nor a byte that it does not hold.
proof fn lemma_split_lacks(s: Seq<u8>, x: u8)
    requires
        lacks(s, 0, s.len() as int, x),
    ensures
        forall|k: int|
            0 <= k < split(s, '/' as u8).len() ==> lacks(
                #[trigger] split(s, '/' as u8)[k],
                0,
                split(s, '/' as u8)[k].len() as int,
                x,
            ),
    decreases s.len(),
{
    let i = first_in(s, ByteClass::Only('/' as u8));
    lemma_first_in(s, ByteClass::Only('/' as u8));
    let pieces = split(s, '/' as u8);
    if i < s.len() {
        let rest = s.skip(i + 1);
        assert forall|j: int| 0 <= j < rest.len() implies #[trigger] rest[j] != x by {
            assert(s[i + 1 + j] != x);
        }
        lemma_split_lacks(rest, x);
        assert forall|k: int| 0 <= k < pieces.len() implies lacks(
            #[trigger] pieces[k],
            0,
            pieces[k].len() as int,
            x,
        ) by {
            if k == 0 {
                assert(pieces[k] == s.take(i));
            } else {
                assert(pieces[k] == split(rest, '/' as u8)[k - 1]);
            }
        }
    } else {
        assert(pieces =~= seq![s]);
    }
}

proof fn lemma_split_no_separator(s: Seq<u8>)
    ensures
        forall|k: int|
            0 <= k < split(s, '/' as u8).len() ==> lacks(
                #[trigger] split(s, '/' as u8)[k],
                0,
                split(s, '/' as u8)[k].len() as int,
                '/' as u8,
            ),
    decreases s.len(),
{
    let slash = ByteClass::Only('/' as u8);
    let i = first_in(s, slash);
    lemma_first_in(s, slash);
    let pieces = split(s, '/' as u8);
    if i < s.len() {
        lemma_split_no_separator(s.skip(i + 1));
        assert forall|k: int| 0 <= k < pieces.len() implies lacks(
            #[trigger] pieces[k],
            0,
            pieces[k].len() as int,
            '/' as u8,
        ) by {
            if k == 0 {
                assert(pieces[k] == s.take(i));
                assert forall|j: int| 0 <= j < i implies #[trigger] s.take(i)[j] != '/' as u8 by {
                    assert(!slash.has(s[j]));
                }
            } else {
                assert(pieces[k] == split(s.skip(i + 1), '/' as u8)[k - 1]);
            }
        }
    } else {
        assert(pieces =~= seq![s]);
        assert forall|j: int| 0 <= j < s.len() implies #[trigger] s[j] != '/' as u8 by {
            assert(!slash.has(s[j]));
        }
    }
}

proof fn lemma_segments_clean(path: Seq<u8>, lenient: bool)
    requires
        path.len() > 0,
        path[0] == '/' as u8,
        lenient || all_in(path, ByteClass::Visible),
        lacks(path, 0, path.len() as int, '?' as u8),
        lacks(path, 0, path.len() as int, '#' as u8),
        lacks(path, 0, path.len() as int, '\\' as u8),
        escape_reason(path, 0, true, lenient) is None,
    ensures
        all_clean(segments_of(path), lenient),
{
    let tail = path.skip(1);
    let raw = split(tail, '/' as u8);
    let made = segments_of(path);
    if !lenient {
        lemma_segments_visible(path);
    }
    lemma_segments_of_canonical(path, lenient);
    lemma_canonical_splits(tail, lenient);
    lemma_split_no_separator(tail);
    assert(lacks(tail, 0, tail.len() as int, '?' as u8)) by {
        assert forall|j: int| 0 <= j < tail.len() implies #[trigger] tail[j] != '?' as u8 by {
            assert(path[j + 1] != '?' as u8);
        }
    }
    assert(lacks(tail, 0, tail.len() as int, '#' as u8)) by {
        assert forall|j: int| 0 <= j < tail.len() implies #[trigger] tail[j] != '#' as u8 by {
            assert(path[j + 1] != '#' as u8);
        }
    }
    assert(lacks(tail, 0, tail.len() as int, '\\' as u8)) by {
        assert forall|j: int| 0 <= j < tail.len() implies #[trigger] tail[j] != '\\' as u8 by {
            assert(path[j + 1] != '\\' as u8);
        }
    }
    lemma_split_lacks(tail, '?' as u8);
    lemma_split_lacks(tail, '#' as u8);
    lemma_split_lacks(tail, '\\' as u8);
    assert forall|k: int| 0 <= k < made.len() implies is_clean(
        #[trigger] made[k],
        lenient,
    ) by {
        let piece = raw[k];
        assert(made[k] == canonical(piece));
        assert(made[k].skip(0) =~= made[k]);
        assert(escape_reason(piece, 0, true, lenient) is None);
        lemma_canonical_stable(piece, 0, made[k], 0, true, lenient);
        lemma_canonical_lacks(piece, 0, '/' as u8);
        lemma_canonical_lacks(piece, 0, '?' as u8);
        lemma_canonical_lacks(piece, 0, '#' as u8);
        lemma_canonical_lacks(piece, 0, '\\' as u8);
    }
}

proof fn lemma_reduced_clean(segments: Seq<Seq<u8>>, i: int, kept: Seq<Seq<u8>>, lenient: bool)
    requires
        0 <= i <= segments.len(),
        all_clean(segments, lenient),
        all_clean(kept, lenient),
        no_dots(kept),
    ensures
        reduced(segments, i, kept, lenient) matches Some(left) ==> {
            &&& all_clean(left, lenient)
            &&& no_dots(left)
            &&& !lenient && i < segments.len() ==> left.len() > 0
        },
    decreases segments.len() - i,
{
    if i < segments.len() {
        let last = i + 1 == segments.len();
        if let Some(next) = kept_after(kept, segments[i], last, lenient) {
            let empty = Seq::<u8>::empty();
            assert(is_clean(empty, lenient)) by {
                assert(canonical(empty) =~= empty);
            }
            assert(!is_dot_segment(empty));
            assert(all_clean(next, lenient));
            assert(no_dots(next));
            lemma_reduced_clean(segments, i + 1, next, lenient);
        }
    }
}

/// A joined path, from the front.
pub proof fn lemma_joined_front(segments: Seq<Seq<u8>>)
    requires
        segments.len() > 0,
    ensures
        joined(segments) == seq!['/' as u8] + segments[0] + joined(segments.skip(1)),
    decreases segments.len(),
{
    let less = segments.drop_last();
    if less.len() > 0 {
        lemma_joined_front(less);
        let rest = segments.skip(1);
        assert(less.skip(1) =~= rest.drop_last());
        assert(rest.last() == segments.last());
        assert(joined(rest) == joined(less.skip(1)) + seq!['/' as u8] + segments.last());
    } else {
        assert(segments.skip(1) =~= Seq::<Seq<u8>>::empty());
        assert(joined(less) =~= Seq::<u8>::empty());
        assert(joined(segments.skip(1)) =~= Seq::<u8>::empty());
    }
    assert(joined(segments) =~= seq!['/' as u8] + segments[0] + joined(segments.skip(1)));
}

/// To split a joined path gives its segments back.
proof fn lemma_split_joined(segments: Seq<Seq<u8>>)
    requires
        segments.len() > 0,
        forall|k: int|
            0 <= k < segments.len() ==> lacks(
                #[trigger] segments[k],
                0,
                segments[k].len() as int,
                '/' as u8,
            ),
    ensures
        split(joined(segments).skip(1), '/' as u8) == segments,
    decreases segments.len(),
{
    let slash = ByteClass::Only('/' as u8);
    let first = segments[0];
    let rest = segments.skip(1);
    let tail = joined(segments).skip(1);
    lemma_joined_front(segments);
    assert(tail =~= first + joined(rest));
    assert(lacks(segments[0], 0, first.len() as int, '/' as u8));
    assert forall|j: int| 0 <= j < first.len() implies !slash.has(#[trigger] tail[j]) by {
        assert(tail[j] == first[j]);
    }
    if rest.len() == 0 {
        assert(joined(rest) =~= Seq::<u8>::empty());
        lemma_first_in_unique(tail, slash, tail.len() as int);
        assert(split(tail, '/' as u8) =~= segments);
    } else {
        lemma_joined_front(rest);
        assert(tail[first.len() as int] == '/' as u8);
        lemma_first_in_unique(tail, slash, first.len() as int);
        assert forall|k: int| 0 <= k < rest.len() implies lacks(
            #[trigger] rest[k],
            0,
            rest[k].len() as int,
            '/' as u8,
        ) by {
            assert(rest[k] == segments[k + 1]);
        }
        lemma_split_joined(rest);
        assert(tail.take(first.len() as int) =~= first);
        assert(tail.skip(first.len() as int + 1) =~= joined(rest).skip(1));
        assert(split(tail, '/' as u8) =~= segments);
    }
}

/// Segments without dots are left as they are.
proof fn lemma_reduced_no_dots(segments: Seq<Seq<u8>>, i: int, terse: bool)
    requires
        0 <= i <= segments.len(),
        no_dots(segments),
    ensures
        reduced(segments, i, segments.take(i), terse) == Some(segments),
    decreases segments.len() - i,
{
    if i < segments.len() {
        assert(!is_dot_segment(segments[i]));
        assert(segments.take(i + 1) =~= segments.take(i).push(segments[i]));
        lemma_reduced_no_dots(segments, i + 1, terse);
    } else {
        assert(segments.take(i) =~= segments);
    }
}

/// A path of clean segments has canonical escapes and no byte that separates.
proof fn lemma_joined_clean(segments: Seq<Seq<u8>>, lenient: bool)
    requires
        all_clean(segments, lenient),
    ensures
        ({
            let path = joined(segments);
            let len = path.len() as int;
            &&& canonical(path) == path
            &&& escape_reason(path, 0, true, lenient) is None
            &&& lenient || all_in(path, ByteClass::Visible)
            &&& lacks(path, 0, len, '?' as u8)
            &&& lacks(path, 0, len, '#' as u8)
            &&& lacks(path, 0, len, '\\' as u8)
            &&& segments.len() > 0 ==> len > 0 && path[0] == '/' as u8
        }),
    decreases segments.len(),
{
    let path = joined(segments);
    if segments.len() == 0 {
        assert(canonical(path) =~= path);
    } else {
        let less = segments.drop_last();
        let last = segments.last();
        let head = joined(less) + seq!['/' as u8];
        assert forall|k: int| 0 <= k < less.len() implies is_clean(
            #[trigger] less[k],
            lenient,
        ) by {
            assert(less[k] == segments[k]);
        }
        lemma_joined_clean(less, lenient);
        assert(is_clean(segments[segments.len() - 1], lenient));
        let slash = seq!['/' as u8];
        assert(canonical_from(slash, 1) =~= Seq::<u8>::empty());
        assert(canonical(slash) =~= slash);
        assert(escape_reason(slash, 1, true, lenient) is None);
        assert(escape_reason(slash, 0, true, lenient) is None);
        lemma_canonical_concat(joined(less), slash, 0, true, lenient);
        lemma_canonical_concat(head, last, 0, true, lenient);
        assert(path =~= head + last);
        assert(canonical(path) =~= path);
        let front = joined(less).len() as int;
        assert forall|j: int| 0 <= j < path.len() implies {
            let x = #[trigger] path[j];
            (lenient || is_visible(x)) && x != '?' as u8 && x != '#' as u8 && x != '\\' as u8
        } by {
            if j < front {
                assert(path[j] == joined(less)[j]);
                assert(lenient || ByteClass::Visible.has(joined(less)[j]));
            } else if j > front {
                assert(path[j] == last[j - front - 1]);
                assert(lenient || ByteClass::Visible.has(last[j - front - 1]));
            }
        }
        if less.len() > 0 {
            assert(path[0] == joined(less)[0]);
        } else {
            assert(path[0] == '/' as u8);
        }
    }
}

/// What makes a normalized path, and what normalizing it again makes of it.
pub proof fn lemma_path_canonical(value: Seq<u8>, query_first: bool)
    requires
        value.len() > 0,
        value[0] == '/' as u8,
        all_in(value, ByteClass::Visible),
        lacks(value, 0, value.len() as int, '#' as u8),
        lacks(value, 0, value.len() as int, '\\' as u8),
    ensures
        path_of(value, query_first) matches Ok((path_and_query, routing_path)) ==> {
            &&& path_of(path_and_query, query_first) == path_of(value, query_first)
            &&& routing_path.len() > 0
            &&& routing_path[0] == '/' as u8
            &&& is_canonical_path(routing_path, 0)
            &&& !has_dot_segment(routing_path)
            &&& canonical(routing_path) == routing_path
            &&& escape_reason(routing_path, 0, true, false) is None
            &&& routing_path == path_and_query.take(path_end(path_and_query))
            &&& path_end(path_and_query) == routing_path.len()
            &&& (query_of(path_and_query) matches Some(query) ==> canonical(query) == query
                && escape_reason(query, 0, false, false) is None)
            &&& path_and_query.len() > 0
            &&& path_and_query[0] == '/' as u8
            &&& path_and_query.len() <= value.len()
            &&& all_in(path_and_query, ByteClass::Visible)
            &&& lacks(path_and_query, 0, path_and_query.len() as int, '#' as u8)
            &&& lacks(path_and_query, 0, path_and_query.len() as int, '\\' as u8)
        },
{
    if let Ok((path_and_query, routing_path)) = path_of(value, query_first) {
        let question = ByteClass::Only('?' as u8);
        lemma_path_no_longer(value, false);
        lemma_path_visible(value);
        lemma_first_in(value, question);
        let path = value.subrange(0, path_end(value));
        assert(lacks(path, 0, path.len() as int, '?' as u8)) by {
            assert forall|j: int| 0 <= j < path.len() implies #[trigger] path[j] != '?' as u8 by {
                assert(!question.has(value[j]));
            }
        }
        assert(all_in(path, ByteClass::Visible)) by {
            assert forall|j: int| 0 <= j < path.len() implies ByteClass::Visible.has(
                #[trigger] path[j],
            ) by {
                assert(ByteClass::Visible.has(value[j]));
            }
        }
        assert(lacks(path, 0, path.len() as int, '#' as u8));
        assert(lacks(path, 0, path.len() as int, '\\' as u8));
        lemma_segments_clean(path, false);
        lemma_total_split(path.skip(1));
        lemma_reduced_clean(segments_of(path), 0, Seq::empty(), false);
        let left = reduced(segments_of(path), 0, Seq::empty(), false).unwrap();
        lemma_joined_clean(left, false);
        assert forall|k: int| 0 <= k < left.len() implies lacks(
            #[trigger] left[k],
            0,
            left[k].len() as int,
            '/' as u8,
        ) by {
            assert(is_clean(left[k], false));
        }
        lemma_split_joined(left);
        // The path of the result is the path that it is routed by.
        let len = routing_path.len() as int;
        assert forall|j: int| 0 <= j < len implies !question.has(#[trigger] path_and_query[j]) by {
            assert(path_and_query[j] == routing_path[j]);
        }
        lemma_first_in_unique(path_and_query, question, len);
        assert(path_and_query.subrange(0, len) =~= routing_path);
        assert(path_and_query.take(len) =~= routing_path);
        let again = segments_of(routing_path);
        assert(again =~= left) by {
            assert forall|k: int| 0 <= k < left.len() implies again[k] == left[k] by {
                assert(is_clean(left[k], false));
            }
        }
        assert(left.take(0) =~= Seq::<Seq<u8>>::empty());
        lemma_reduced_no_dots(left, 0, false);
        assert(routing_path.skip(0) =~= routing_path);
        lemma_canonical_path_bytes(routing_path, 0);
        lemma_no_dot_segment(left);
        // The query of the result is canonical.
        if let Some(query) = query_of(value) {
            let made = canonical(query);
            assert(made.skip(0) =~= made);
            lemma_canonical_stable(query, 0, made, 0, false, false);
            assert(path_and_query.skip(len + 1) =~= made);
            assert forall|j: int| 0 <= j < query.len() implies #[trigger] query[j] != '#' as u8
                && query[j] != '\\' as u8 by {
                assert(value[path_end(value) + 1 + j] == query[j]);
            }
            lemma_canonical_lacks(query, 0, '#' as u8);
            lemma_canonical_lacks(query, 0, '\\' as u8);
            assert forall|j: int| 0 <= j < path_and_query.len() implies #[trigger]
                path_and_query[j] != '#' as u8 && path_and_query[j] != '\\' as u8 by {
                if j < len {
                    assert(path_and_query[j] == routing_path[j]);
                } else if j > len {
                    assert(path_and_query[j] == made[j - len - 1]);
                }
            }
        }
    }
}

/// A path whose canonical form it is is one that routes can name.
proof fn lemma_canonical_path_bytes(path: Seq<u8>, i: int)
    requires
        0 <= i <= path.len(),
        canonical_from(path, i) == path.skip(i),
        escape_reason(path, i, true, false) is None,
        all_in(path, ByteClass::Visible),
        lacks(path, 0, path.len() as int, '?' as u8),
        lacks(path, 0, path.len() as int, '#' as u8),
        lacks(path, 0, path.len() as int, '\\' as u8),
    ensures
        is_canonical_path(path, i),
    decreases path.len() - i,
{
    if i < path.len() {
        assert(ByteClass::Visible.has(path[i]));
        let rest = path.skip(i);
        assert(rest[0] == path[i]);
        if path[i] == '%' as u8 {
            let b = escaped_byte(path, i);
            let e = escape_of(b);
            lemma_escape_of(b);
            assert(rest[0] == e[0]);
            assert(!is_unreserved(b));
            assert(rest[1] == e[1] && rest[2] == e[2]);
            assert(rest[1] == path[i + 1] && rest[2] == path[i + 2]);
            assert(canonical_from(path, i + 3) =~= rest.skip(3));
            assert(rest.skip(3) =~= path.skip(i + 3));
            lemma_canonical_path_bytes(path, i + 3);
        } else {
            assert(canonical_from(path, i + 1) =~= rest.skip(1));
            assert(rest.skip(1) =~= path.skip(i + 1));
            lemma_canonical_path_bytes(path, i + 1);
        }
    }
}

proof fn lemma_no_dot_segment(segments: Seq<Seq<u8>>)
    requires
        segments.len() > 0,
        no_dots(segments),
        split(joined(segments).skip(1), '/' as u8) == segments,
        joined(segments).len() > 0,
        joined(segments)[0] == '/' as u8,
    ensures
        !has_dot_segment(joined(segments)),
{
    let path = joined(segments);
    let pieces = split(path, '/' as u8);
    lemma_first_in_unique(path, ByteClass::Only('/' as u8), 0);
    assert(path.take(0) =~= Seq::<u8>::empty());
    assert(pieces =~= seq![Seq::<u8>::empty()] + segments);
    assert forall|k: int| 0 <= k < pieces.len() implies !is_dot_segment(#[trigger] pieces[k]) by {
        if k > 0 {
            assert(!is_dot_segment(segments[k - 1]));
        }
    }
}

/// The path that a request is routed by is canonical: it begins with a slash, has no segment of
/// dots, no superfluous escape, and its escapes are in upper case.
pub proof fn lemma_routing_path_is_canonical(
    line: RequestLineModel,
    in_order: bool,
    query_first: bool,
)
    ensures
        normalized(line, in_order, query_first) matches Ok(target) ==> (target.form
            == TargetForm::Origin || target.form == TargetForm::Absolute ==> {
            &&& target.routing_path.len() > 0
            &&& target.routing_path[0] == '/' as u8
            &&& is_canonical_path(target.routing_path, 0)
            &&& !has_dot_segment(target.routing_path)
            &&& target.path_and_query.len() <= TARGET_MAX
        }),
{
    lemma_envelope(line.target, in_order);
    if normalized(line, in_order, query_first) is Ok {
        if line.target[0] == '/' as u8 {
            lemma_path_canonical(line.target, query_first);
        } else if let Some((_, start)) = scheme_of(line.target) {
            lemma_scheme_len(line.target);
            let remainder = line.target.skip(start);
            let value = path_after_authority(remainder);
            lemma_path_after_authority(line.target, start);
            lemma_path_canonical(value, query_first);
        }
    }
}

pub proof fn lemma_scheme_len(target: Seq<u8>)
    ensures
        scheme_of(target) matches Some((_, start)) ==> 7 <= start <= target.len(),
{
    reveal_strlit("http://");
    reveal_strlit("https://");
    lemma_ascii_literal("http://"@);
    lemma_ascii_literal("https://"@);
}

/// What follows the authority of an absolute target is a path that passes the envelope.
pub proof fn lemma_path_after_authority(target: Seq<u8>, start: int)
    requires
        1 <= start <= target.len() <= TARGET_MAX,
        all_in(target, ByteClass::Visible),
        lacks(target, 0, target.len() as int, '#' as u8),
        lacks(target, 0, target.len() as int, '\\' as u8),
    ensures
        ({
            let value = path_after_authority(target.skip(start));
            &&& 0 < value.len() <= target.len()
            &&& value[0] == '/' as u8
            &&& all_in(value, ByteClass::Visible)
            &&& lacks(value, 0, value.len() as int, '#' as u8)
            &&& lacks(value, 0, value.len() as int, '\\' as u8)
        }),
{
    let remainder = target.skip(start);
    lemma_first_in(remainder, ByteClass::Only('/' as u8));
    lemma_first_in(remainder, ByteClass::Only('?' as u8));
    let end = authority_end(remainder);
    let suffix = remainder.skip(end);
    let value = path_after_authority(remainder);
    assert forall|j: int| 0 <= j < value.len() implies {
        let x = #[trigger] value[j];
        is_visible(x) && x != '#' as u8 && x != '\\' as u8
    } by {
        if suffix.len() > 0 && suffix[0] == '/' as u8 {
            assert(value[j] == target[start + end + j]);
            assert(ByteClass::Visible.has(target[start + end + j]));
        } else if j > 0 {
            assert(value[j] == target[start + end + j - 1]);
            assert(ByteClass::Visible.has(target[start + end + j - 1]));
        }
    }
}

/// To normalize a normalized origin target changes nothing.
pub proof fn lemma_normalizing_is_idempotent(
    line: RequestLineModel,
    in_order: bool,
    query_first: bool,
)
    ensures
        normalized(line, in_order, query_first) matches Ok(target) ==> (target.form
            == TargetForm::Origin ==> normalized(
            RequestLineModel { target: target.path_and_query, ..line },
            in_order,
            query_first,
        ) == normalized(line, in_order, query_first)),
{
    lemma_envelope(line.target, in_order);
    if let Ok(target) = normalized(line, in_order, query_first) {
        if line.target[0] == '/' as u8 {
            lemma_path_canonical(line.target, query_first);
            lemma_envelope(target.path_and_query, in_order);
        }
    }
}

/// A text whose byte at `k` is escaped with two digits.
pub open spec fn with_escape(s: Seq<u8>, k: int, high: u8, low: u8) -> Seq<u8> {
    s.take(k) + seq!['%' as u8, high, low] + s.skip(k + 1)
}

/// Whether the byte at `k` can be escaped with two digits and stays what it is: an unreserved byte,
/// which is no digit of an escape.
pub open spec fn is_escapable(s: Seq<u8>, k: int, high: u8, low: u8) -> bool {
    &&& 0 <= k < s.len()
    &&& is_unreserved(s[k])
    &&& is_hex(high)
    &&& is_hex(low)
    &&& decoded_byte(high, low) == s[k]
    &&& k >= 1 ==> s[k - 1] != '%' as u8
    &&& k >= 2 ==> s[k - 2] != '%' as u8
}

proof fn lemma_escaping_from(
    s: Seq<u8>,
    k: int,
    high: u8,
    low: u8,
    i: int,
    in_path: bool,
    lenient: bool,
)
    requires
        is_escapable(s, k, high, low),
        0 <= i <= k,
        escape_reason(s, i, in_path, lenient) is None,
    ensures
        canonical_from(with_escape(s, k, high, low), i) == canonical_from(s, i),
        escape_reason(with_escape(s, k, high, low), i, in_path, lenient) is None,
    decreases k - i,
{
    let t = with_escape(s, k, high, low);
    assert(forall|j: int| 0 <= j < k ==> #[trigger] t[j] == s[j]);
    if i == k {
        assert(t[k] == '%' as u8 && t[k + 1] == high && t[k + 2] == low);
        assert(escaped_byte(t, k) == s[k]);
        assert(escape_of(s[k]) == seq![s[k]]);
        assert(t.skip(k + 3) =~= s.skip(k + 1));
        lemma_canonical_shifts(t, k + 3, 0, in_path, lenient);
        lemma_canonical_shifts(s, k + 1, 0, in_path, lenient);
    } else if s[i] == '%' as u8 {
        assert(i != k - 1 && i != k - 2);
        assert(t[i] == s[i] && t[i + 1] == s[i + 1] && t[i + 2] == s[i + 2]);
        lemma_escaping_from(s, k, high, low, i + 3, in_path, lenient);
    } else {
        assert(t[i] == s[i]);
        lemma_escaping_from(s, k, high, low, i + 1, in_path, lenient);
    }
}

/// What becomes of the parts of a target whose byte at `k` is escaped.
proof fn lemma_escaped_parts(value: Seq<u8>, k: int, high: u8, low: u8)
    requires
        is_escapable(value, k, high, low),
    ensures
        ({
            let end = path_end(value);
            let other = with_escape(value, k, high, low);
            let path = value.subrange(0, end);
            let other_path = other.subrange(0, path_end(other));
            if k < end {
                &&& is_escapable(path, k, high, low)
                &&& other_path == with_escape(path, k, high, low)
                &&& query_of(other) == query_of(value)
            } else {
                &&& other_path == path
                &&& query_of(value) matches Some(query) && is_escapable(
                    query,
                    k - end - 1,
                    high,
                    low,
                ) && query_of(other) == Some(with_escape(query, k - end - 1, high, low))
            }
        }),
{
    let only = ByteClass::Only('?' as u8);
    let end = path_end(value);
    let other = with_escape(value, k, high, low);
    lemma_first_in(value, only);
    assert(forall|j: int| 0 <= j < k ==> #[trigger] other[j] == value[j]);
    assert(forall|j: int| k + 3 <= j < other.len() ==> #[trigger] other[j] == value[j - 2]);
    if k < end {
        assert forall|j: int| 0 <= j < end + 2 implies !only.has(#[trigger] other[j]) by {
            if j < k {
                assert(!only.has(value[j]));
            } else if j >= k + 3 {
                assert(!only.has(value[j - 2]));
            }
        }
        if end < value.len() {
            assert(only.has(other[end + 2]));
            assert(other.skip(end + 3) =~= value.skip(end + 1));
        }
        lemma_first_in_unique(other, only, end + 2);
        assert(other.subrange(0, end + 2) =~= with_escape(
            value.subrange(0, end),
            k,
            high,
            low,
        ));
    } else {
        assert(k != end);
        let query = value.skip(end + 1);
        assert forall|j: int| 0 <= j < end implies !only.has(#[trigger] other[j]) by {
            assert(!only.has(value[j]));
        }
        assert(only.has(other[end]));
        lemma_first_in_unique(other, only, end);
        assert(other.subrange(0, end) =~= value.subrange(0, end));
        assert(other.skip(end + 1) =~= with_escape(query, k - end - 1, high, low));
    }
}

/// To escape a byte of a target that need not be escaped changes nothing: the target is normalized
/// to the same as before, as long as it does not grow too long.
pub proof fn lemma_needless_escapes_vanish(
    line: RequestLineModel,
    k: int,
    high: u8,
    low: u8,
    in_order: bool,
    query_first: bool,
)
    requires
        line.target.len() > 0,
        line.target[0] == '/' as u8,
        is_escapable(line.target, k, high, low),
        line.target.len() + 2 <= TARGET_MAX,
    ensures
        ({
            let other = RequestLineModel {
                target: with_escape(line.target, k, high, low),
                ..line
            };
            &&& normalized(line, in_order, query_first) is Ok ==> normalized(
                other,
                in_order,
                query_first,
            ) == normalized(line, in_order, query_first)
            &&& normalized_leniently(line) is Ok ==> normalized_leniently(other)
                == normalized_leniently(line)
        }),
{
    let value = line.target;
    let changed = with_escape(value, k, high, low);
    let other = RequestLineModel { target: changed, ..line };
    assert(k > 0);
    assert(changed[0] == value[0]);
    lemma_escaped_parts(value, k, high, low);
    assert forall|j: int| 0 <= j < changed.len() implies (#[trigger] changed[j]) == '%' as u8
        || is_hex(changed[j]) || value.contains(changed[j]) by {
        if j < k {
            assert(changed[j] == value[j]);
        } else if j >= k + 3 {
            assert(changed[j] == value[j - 2]);
        }
    }
    if normalized(line, in_order, query_first) is Ok {
        lemma_envelope(value, in_order);
        lemma_envelope(changed, in_order);
        assert forall|j: int| 0 <= j < changed.len() implies {
            let x = #[trigger] changed[j];
            ByteClass::Visible.has(x) && x != '#' as u8 && x != '\\' as u8
        } by {
            if value.contains(changed[j]) {
                let i = choose|i: int| 0 <= i < value.len() && value[i] == changed[j];
                assert(ByteClass::Visible.has(value[i]));
            }
        }
        lemma_escaped_path(value, k, high, low, false);
        assert(normalized(other, in_order, query_first) == normalized(line, in_order, query_first));
    }
    if normalized_leniently(line) is Ok {
        assert(!any_in(changed, ByteClass::Only('#' as u8))) by {
            assert forall|j: int| 0 <= j < changed.len() implies !ByteClass::Only('#' as u8).has(
                #[trigger] changed[j],
            ) by {
                if value.contains(changed[j]) {
                    let i = choose|i: int| 0 <= i < value.len() && value[i] == changed[j];
                    assert(!ByteClass::Only('#' as u8).has(value[i]));
                }
            }
        }
        lemma_escaped_path(value, k, high, low, true);
    }
}

/// The path and the query of a target whose byte at `k` is escaped come out as before.
proof fn lemma_escaped_path(value: Seq<u8>, k: int, high: u8, low: u8, lenient: bool)
    requires
        value.len() > 0,
        value[0] == '/' as u8,
        is_escapable(value, k, high, low),
        escape_reason(value.subrange(0, path_end(value)), 0, true, lenient) is None,
        query_of(value) matches Some(query) ==> escape_reason(query, 0, false, lenient) is None,
    ensures
        ({
            let other = with_escape(value, k, high, low);
            let path = value.subrange(0, path_end(value));
            let other_path = other.subrange(0, path_end(other));
            &&& escape_reason(other_path, 0, true, lenient) is None
            &&& canonical(other_path) == canonical(path)
            &&& segments_of(other_path) == segments_of(path)
            &&& match query_of(value) {
                None => query_of(other) is None,
                Some(query) => query_of(other) matches Some(other_query) && escape_reason(
                    other_query,
                    0,
                    false,
                    lenient,
                ) is None && canonical(other_query) == canonical(query),
            }
        }),
{
    let end = path_end(value);
    let other = with_escape(value, k, high, low);
    let path = value.subrange(0, end);
    lemma_escaped_parts(value, k, high, low);
    lemma_first_in(value, ByteClass::Only('?' as u8));
    assert(end > 0) by {
        assert(!ByteClass::Only('?' as u8).has(value[0]));
    }
    assert(k > 0);
    if k < end {
        lemma_escaping_from(path, k, high, low, 0, true, lenient);
        lemma_segments_of_canonical(path, lenient);
        lemma_segments_of_canonical(with_escape(path, k, high, low), lenient);
    } else {
        lemma_escaping_from(query_of(value).unwrap(), k - end - 1, high, low, 0, false, lenient);
    }
}

proof fn lemma_lenient_reason(s: Seq<u8>, i: int, in_path: bool)
    requires
        0 <= i,
        all_in(s, ByteClass::Visible),
        lacks(s, 0, s.len() as int, '\\' as u8),
    ensures
        escape_reason(s, i, in_path, true) == escape_reason(s, i, in_path, false),
    decreases s.len() - i,
{
    if i < s.len() {
        assert(ByteClass::Visible.has(s[i]));
        if is_escape(s, i) {
            lemma_lenient_reason(s, i + 3, in_path);
        }
        lemma_lenient_reason(s, i + 1, in_path);
    }
}

proof fn lemma_terse_reduces_alike(segments: Seq<Seq<u8>>, i: int, kept: Seq<Seq<u8>>)
    requires
        0 <= i,
    ensures
        reduced(segments, i, kept, true) is Some <==> reduced(segments, i, kept, false) is Some,
    decreases segments.len() - i,
{
    if i < segments.len() {
        let last = i + 1 == segments.len();
        let terse = kept_after(kept, segments[i], last, true);
        let plain = kept_after(kept, segments[i], last, false);
        if last {
            if let Some(next) = terse {
                assert(reduced(segments, i + 1, next, true) == Some(next));
            }
            if let Some(next) = plain {
                assert(reduced(segments, i + 1, next, false) == Some(next));
            }
        } else if let Some(next) = plain {
            lemma_terse_reduces_alike(segments, i + 1, next);
        }
    }
}

proof fn lemma_lenient_path(value: Seq<u8>, query_first: bool)
    requires
        value.len() > 0,
        value[0] == '/' as u8,
        all_in(value, ByteClass::Visible),
        lacks(value, 0, value.len() as int, '#' as u8),
        lacks(value, 0, value.len() as int, '\\' as u8),
    ensures
        path_of(value, query_first) is Ok ==> lenient_path_of(value) is Ok,
{
    let path = value.subrange(0, path_end(value));
    lemma_first_in(value, ByteClass::Only('?' as u8));
    if any_in(value, ByteClass::Only('#' as u8)) {
        let j = choose|j: int|
            0 <= j < value.len() && ByteClass::Only('#' as u8).has(#[trigger] value[j]);
        assert(value[j] == '#' as u8);
    }
    assert forall|j: int| 0 <= j < path.len() implies ByteClass::Visible.has(#[trigger] path[j]) by {
        assert(ByteClass::Visible.has(value[j]));
    }
    lemma_lenient_component(path, true);
    lemma_terse_reduces_alike(segments_of(path), 0, Seq::empty());
    if let Some(query) = query_of(value) {
        let start = path_end(value) + 1;
        assert forall|j: int| 0 <= j < query.len() implies ByteClass::Visible.has(
            #[trigger] query[j],
        ) && query[j] != '\\' as u8 by {
            assert(query[j] == value[start + j]);
            assert(ByteClass::Visible.has(value[start + j]));
        }
        lemma_lenient_component(query, false);
    }
}

/// Of visible bytes the lenient reading refuses no others.
pub proof fn lemma_lenient_component(s: Seq<u8>, in_path: bool)
    requires
        all_in(s, ByteClass::Visible),
        lacks(s, 0, s.len() as int, '\\' as u8),
    ensures
        component_reason(s, in_path) == escape_reason(s, 0, in_path, false),
{
    lemma_lenient_reason(s, 0, in_path);
    lemma_canonical_visible(s, 0);
    assert forall|j: int| 0 <= j < canonical(s).len() implies canonical(s)[j] < 0x80 by {
        assert(ByteClass::Visible.has(canonical(s)[j]));
    }
    lemma_ascii_is_utf8(canonical(s));
}

/// Every target that is accepted for a method in lower case is accepted leniently too, in the same
/// form and with the same scheme.
pub proof fn lemma_lenient_accepts_more(line: RequestLineModel, in_order: bool, query_first: bool)
    requires
        lowered(line.method) == line.method,
    ensures
        normalized(line, in_order, query_first) matches Ok(target) ==> match normalized_leniently(
            line,
        ) {
            Ok(other) => other.form == target.form && other.scheme == target.scheme,
            Err(_) => false,
        },
{
    lemma_envelope(line.target, in_order);
    if normalized(line, in_order, query_first) is Ok {
        if line.target[0] == '/' as u8 {
            lemma_lenient_path(line.target, query_first);
        } else if let Some((_, start)) = scheme_of(line.target) {
            lemma_scheme_len(line.target);
            let remainder = line.target.skip(start);
            lemma_path_after_authority(line.target, start);
            lemma_lenient_path(path_after_authority(remainder), query_first);
            if any_in(remainder, ByteClass::Only('#' as u8)) {
                let j = choose|j: int|
                    0 <= j < remainder.len() && ByteClass::Only('#' as u8).has(
                        #[trigger] remainder[j],
                    );
                assert(line.target[start + j] == '#' as u8);
            }
        }
    }
}

/// Whether every segment is text.
pub open spec fn all_text(segments: Seq<Seq<u8>>) -> bool {
    forall|k: int| 0 <= k < segments.len() ==> valid_utf8(#[trigger] segments[k])
}

/// The pieces of a split text are texts.
proof fn lemma_split_text(s: Seq<u8>)
    requires
        valid_utf8(s),
    ensures
        all_text(split(s, '/' as u8)),
    decreases s.len(),
{
    let i = first_in(s, ByteClass::Only('/' as u8));
    lemma_first_in(s, ByteClass::Only('/' as u8));
    let pieces = split(s, '/' as u8);
    if i < s.len() {
        lemma_text_around(s, i);
        lemma_split_text(s.skip(i + 1));
        assert forall|k: int| 0 <= k < pieces.len() implies valid_utf8(#[trigger] pieces[k]) by {
            if k > 0 {
                assert(pieces[k] == split(s.skip(i + 1), '/' as u8)[k - 1]);
            }
        }
    } else {
        assert(pieces =~= seq![s]);
    }
}

proof fn lemma_reduced_all_text(segments: Seq<Seq<u8>>, i: int, kept: Seq<Seq<u8>>)
    requires
        0 <= i <= segments.len(),
        all_text(segments),
        all_text(kept),
    ensures
        reduced(segments, i, kept, true) matches Some(left) ==> all_text(left),
    decreases segments.len() - i,
{
    if i < segments.len() {
        let last = i + 1 == segments.len();
        if let Some(next) = kept_after(kept, segments[i], last, true) {
            assert(valid_utf8(Seq::<u8>::empty()));
            assert(valid_utf8(segments[i]));
            assert(all_text(next));
            lemma_reduced_all_text(segments, i + 1, next);
        }
    }
}

/// Segments that are text make up a path that is text.
pub proof fn lemma_joined_text(segments: Seq<Seq<u8>>)
    requires
        all_text(segments),
    ensures
        valid_utf8(joined(segments)),
    decreases segments.len(),
{
    if segments.len() > 0 {
        let less = segments.drop_last();
        assert forall|k: int| 0 <= k < less.len() implies valid_utf8(#[trigger] less[k]) by {
            assert(less[k] == segments[k]);
        }
        lemma_joined_text(less);
        assert(valid_utf8(segments[segments.len() - 1]));
        let slash = seq!['/' as u8];
        lemma_ascii_is_utf8(slash);
        vstd::utf8::valid_utf8_concat(joined(less), slash);
        vstd::utf8::valid_utf8_concat(joined(less) + slash, segments.last());
    }
}

/// The path that is left of a text is text.
pub proof fn lemma_reduced_text(path: Seq<u8>)
    requires
        path.len() > 0,
        path[0] == '/' as u8,
        escape_reason(path, 0, true, true) is None,
        valid_utf8(canonical(path)),
    ensures
        reduced(segments_of(path), 0, Seq::empty(), true) matches Some(left) ==> valid_utf8(
            rooted(left),
        ),
{
    lemma_segments_of_canonical(path, true);
    let whole = canonical(path);
    lemma_text_around(whole, 0);
    lemma_split_text(whole.skip(1));
    lemma_reduced_all_text(segments_of(path), 0, Seq::empty());
    if let Some(left) = reduced(segments_of(path), 0, Seq::empty(), true) {
        lemma_joined_text(left);
        lemma_ascii_is_utf8(seq!['/' as u8]);
    }
}

/// No backslash stands in a component that is taken leniently.
proof fn lemma_lenient_lacks(s: Seq<u8>, i: int, in_path: bool)
    requires
        0 <= i,
        escape_reason(s, i, in_path, true) is None,
    ensures
        lacks(s, i, s.len() as int, '\\' as u8),
    decreases s.len() - i,
{
    if i < s.len() {
        if s[i] == '%' as u8 {
            lemma_lenient_lacks(s, i + 3, in_path);
            assert(is_hex(s[i + 1]) && is_hex(s[i + 2]));
        } else {
            lemma_lenient_lacks(s, i + 1, in_path);
        }
    }
}

/// What makes a leniently normalized path, and what normalizing it again makes of it.
proof fn lemma_lenient_path_canonical(value: Seq<u8>)
    requires
        value.len() > 0,
        value[0] == '/' as u8,
    ensures
        lenient_path_of(value) matches Ok((path_and_query, routing_path)) ==> {
            &&& lenient_path_of(path_and_query) == lenient_path_of(value)
            &&& routing_path.len() > 0
            &&& routing_path[0] == '/' as u8
            &&& !has_dot_segment(routing_path)
            &&& canonical(routing_path) == routing_path
            &&& escape_reason(routing_path, 0, true, true) is None
            &&& routing_path == path_and_query.take(path_end(path_and_query))
            &&& path_and_query[0] == '/' as u8
            &&& routing_path.len() <= path_and_query.len() <= value.len()
            &&& all_in(value, ByteClass::Visible) ==> is_canonical_path(routing_path, 0)
        },
{
    if let Ok((path_and_query, routing_path)) = lenient_path_of(value) {
        let question = ByteClass::Only('?' as u8);
        let number = ByteClass::Only('#' as u8);
        lemma_path_no_longer(value, true);
        lemma_first_in(value, question);
        let path = value.subrange(0, path_end(value));
        assert forall|j: int| 0 <= j < path.len() implies #[trigger] path[j] != '?' as u8 && path[j]
            != '#' as u8 by {
            assert(!question.has(value[j]) && !number.has(value[j]));
        }
        lemma_lenient_lacks(path, 0, true);
        lemma_segments_clean(path, true);
        lemma_reduced_clean(segments_of(path), 0, Seq::empty(), true);
        lemma_reduced_text(path);
        let found = reduced(segments_of(path), 0, Seq::empty(), true).unwrap();
        // A path without segments is the path of one empty segment.
        let empty = Seq::<u8>::empty();
        let left = if found.len() == 0 {
            seq![empty]
        } else {
            found
        };
        assert(joined(left) =~= rooted(found)) by {
            if found.len() == 0 {
                assert(left.drop_last() =~= Seq::<Seq<u8>>::empty());
                assert(joined(left.drop_last()) =~= empty);
            }
        }
        assert(all_clean(left, true)) by {
            assert(canonical(empty) =~= empty);
        }
        assert(no_dots(left));
        lemma_joined_clean(left, true);
        assert forall|k: int| 0 <= k < left.len() implies lacks(
            #[trigger] left[k],
            0,
            left[k].len() as int,
            '/' as u8,
        ) by {
            assert(is_clean(left[k], true));
        }
        lemma_split_joined(left);
        let len = routing_path.len() as int;
        assert forall|j: int| 0 <= j < len implies !question.has(#[trigger] path_and_query[j]) by {
            assert(path_and_query[j] == routing_path[j]);
        }
        lemma_first_in_unique(path_and_query, question, len);
        assert(path_and_query.subrange(0, len) =~= routing_path);
        assert(path_and_query.take(len) =~= routing_path);
        let again = segments_of(routing_path);
        assert(again =~= left) by {
            assert forall|k: int| 0 <= k < left.len() implies again[k] == left[k] by {
                assert(is_clean(left[k], true));
            }
        }
        assert(left.take(0) =~= Seq::<Seq<u8>>::empty());
        lemma_reduced_no_dots(left, 0, true);
        lemma_no_dot_segment(left);
        if all_in(value, ByteClass::Visible) {
            assert forall|j: int| 0 <= j < path.len() implies ByteClass::Visible.has(
                #[trigger] path[j],
            ) by {
                assert(ByteClass::Visible.has(value[j]));
            }
            lemma_segments_visible(path);
            lemma_reduced_visible(segments_of(path), 0, Seq::empty(), true);
            assert(all_visible(left));
            lemma_joined_visible(left);
            lemma_lenient_reason(routing_path, 0, true);
            assert(routing_path.skip(0) =~= routing_path);
            lemma_canonical_path_bytes(routing_path, 0);
        }
        lemma_lenient_query(value);
        if let Some(query) = query_of(value) {
            assert(path_and_query.skip(len + 1) =~= canonical(query));
        }
        assert(!any_in(path_and_query, number)) by {
            assert forall|j: int| 0 <= j < path_and_query.len() implies !number.has(
                #[trigger] path_and_query[j],
            ) by {
                if j < len {
                    assert(path_and_query[j] == routing_path[j]);
                } else if j > len {
                    let made = canonical(query_of(value).unwrap());
                    assert(path_and_query[j] == made[j - len - 1]);
                }
            }
        }
        assert(lenient_path_reason(path_and_query) is None);
    }
}

/// The query of a leniently normalized path is canonical text, and no number sign gets into it.
proof fn lemma_lenient_query(value: Seq<u8>)
    requires
        lenient_path_reason(value) is None,
    ensures
        query_of(value) matches Some(query) ==> {
            &&& canonical(canonical(query)) == canonical(query)
            &&& component_reason(canonical(query), false) is None
            &&& lacks(canonical(query), 0, canonical(query).len() as int, '#' as u8)
        },
{
    lemma_first_in(value, ByteClass::Only('?' as u8));
    if let Some(query) = query_of(value) {
        let made = canonical(query);
        assert(made.skip(0) =~= made);
        lemma_canonical_stable(query, 0, made, 0, false, true);
        assert forall|j: int| 0 <= j < query.len() implies #[trigger] query[j] != '#' as u8 by {
            assert(!ByteClass::Only('#' as u8).has(value[path_end(value) + 1 + j]));
        }
        lemma_canonical_lacks(query, 0, '#' as u8);
    }
}

/// The path that a request is routed by is canonical where it was taken leniently, too: it begins
/// with a slash, has no segment of dots, and its escapes are canonical. Where the target is visible
/// ASCII, it is a path that a route can name.
pub proof fn lemma_lenient_routing_path_is_canonical(line: RequestLineModel)
    ensures
        normalized_leniently(line) matches Ok(target) ==> (target.form == TargetForm::Origin
            || target.form == TargetForm::Absolute ==> {
            &&& target.routing_path.len() > 0
            &&& target.routing_path[0] == '/' as u8
            &&& !has_dot_segment(target.routing_path)
            &&& canonical(target.routing_path) == target.routing_path
            &&& escape_reason(target.routing_path, 0, true, true) is None
            &&& target.routing_path == target.path_and_query.take(path_end(target.path_and_query))
            &&& target.path_and_query.len() <= TARGET_MAX
            &&& all_in(line.target, ByteClass::Visible) ==> is_canonical_path(
                target.routing_path,
                0,
            )
        }),
{
    if normalized_leniently(line) is Ok {
        if line.target.len() > 0 && line.target[0] == '/' as u8 {
            lemma_lenient_path_canonical(line.target);
        } else if let Some((_, start)) = scheme_of(line.target) {
            lemma_scheme_len(line.target);
            let remainder = line.target.skip(start);
            lemma_first_in(remainder, ByteClass::Only('/' as u8));
            lemma_first_in(remainder, ByteClass::Only('?' as u8));
            let value = path_after_authority(remainder);
            let end = authority_end(remainder);
            lemma_lenient_path_canonical(value);
            if all_in(line.target, ByteClass::Visible) {
                assert forall|j: int| 0 <= j < value.len() implies ByteClass::Visible.has(
                    #[trigger] value[j],
                ) by {
                    if remainder.skip(end).len() > 0 && remainder.skip(end)[0] == '/' as u8 {
                        assert(value[j] == line.target[start + end + j]);
                        assert(ByteClass::Visible.has(line.target[start + end + j]));
                    } else if j > 0 {
                        assert(value[j] == line.target[start + end + j - 1]);
                        assert(ByteClass::Visible.has(line.target[start + end + j - 1]));
                    }
                }
            }
        }
    }
}

/// To normalize a leniently normalized origin target leniently again changes nothing.
pub proof fn lemma_lenient_normalizing_is_idempotent(line: RequestLineModel)
    ensures
        normalized_leniently(line) matches Ok(target) ==> (target.form == TargetForm::Origin
            ==> normalized_leniently(
            RequestLineModel { target: target.path_and_query, ..line },
        ) == normalized_leniently(line)),
{
    if normalized_leniently(line) is Ok {
        if line.target.len() > 0 && line.target[0] == '/' as u8 {
            lemma_lenient_path_canonical(line.target);
        }
    }
}

/// The canonical spelling of an authority.
pub fn spell_authority(raw: &[u8], port_required: bool) -> (text: Option<String>)
    ensures
        utf8_opt(text) == authority_text(raw@, port_required),
{
    let authority = parse_endpoint(raw)?;
    if port_required && authority.port.is_none() {
        return None;
    }
    proof {
        lemma_endpoint_host(raw@);
    }
    Some(render_authority(authority))
}

/// An authority as it is spelled in a normalized target.
pub fn render_authority(authority: EffectiveAuthority) -> (text: String)
    requires
        is_ascii(authority@.host),
    ensures
        utf8(text@) == spelled(authority@),
{
    match authority.port {
        None => authority.host,
        Some(port) => {
            let mut out: Vec<u8> = Vec::new();
            append(&mut out, authority.host.as_str().as_bytes());
            out.push(':' as u8);
            let digits: Vec<u8> = render_decimal(port as u64);
            append(&mut out, digits.as_slice());
            proof {
                lemma_digits_of(port as nat);
                assert(out@ =~= spelled(authority@));
                assert forall|j: int| 0 <= j < out@.len() implies out@[j] < 0x80 by {
                    if j > authority@.host.len() {
                        assert(ByteClass::Digit.has(digits@[j - authority@.host.len() - 1]));
                    }
                }
            }
            ascii_text(out.as_slice())
        },
    }
}

/// The host of an endpoint is ASCII.
pub proof fn lemma_endpoint_host(raw: Seq<u8>)
    ensures
        endpoint(raw) matches Some(authority) ==> is_ascii(authority.host),
{
    if endpoint(raw) is Some {
        lemma_endpoint_bytes(raw);
        assert forall|j: int| 0 <= j < raw.len() implies #[trigger] raw[j] < 0x80 by {
            assert(ByteClass::Authority.has(raw[j]));
        }
        lemma_first_in(raw, ByteClass::Only(']' as u8));
        lemma_first_in(raw, ByteClass::Only(':' as u8));
    }
}

/// The scheme of an absolute target, and where what follows it begins.
pub fn find_scheme(target: &[u8]) -> (scheme: Option<(&'static str, usize)>)
    ensures
        match scheme {
            Some((name, start)) => scheme_of(target@) == Some((utf8(name@), start as int)) && start
                <= target@.len() && start >= 7,
            None => scheme_of(target@) is None,
        },
{
    proof {
        lemma_scheme_len(target@);
    }
    if starts_with_any_case(target, "http://".as_bytes()) {
        Some(("http", 7))
    } else if starts_with_any_case(target, "https://".as_bytes()) {
        Some(("https", 8))
    } else {
        None
    }
}

/// Whether a byte string begins with a prefix in lower case, whatever case it is in.
pub fn starts_with_any_case(s: &[u8], prefix: &[u8]) -> (starts: bool)
    ensures
        starts == begins_with(s@, prefix@),
{
    if s.len() < prefix.len() {
        return false;
    }
    let head: &[u8] = &s[0..prefix.len()];
    assert(head@ =~= s@.take(prefix@.len() as int));
    same_lowered(head, prefix)
}

/// Where the authority of an absolute target ends.
pub fn find_authority_end(remainder: &[u8]) -> (end: usize)
    ensures
        end == authority_end(remainder@),
        end <= remainder@.len(),
        end < remainder@.len() ==> remainder@[end as int] == '/' as u8 || remainder@[end as int]
            == '?' as u8,
{
    let slash: usize = find_in(remainder, ByteClass::Only('/' as u8));
    let question: usize = find_in(remainder, ByteClass::Only('?' as u8));
    if slash < question {
        slash
    } else {
        question
    }
}

/// The byte that the escape at `index` stands for, if it is one.
pub fn decode_escape(bytes: &[u8], index: usize) -> (decoded: Option<u8>)
    requires
        index < bytes@.len(),
    ensures
        match decoded {
            Some(b) => is_escape(bytes@, index as int) && b == escaped_byte(bytes@, index as int),
            None => !is_escape(bytes@, index as int),
        },
{
    if bytes.len() - index <= 2 {
        return None;
    }
    let high: u8 = bytes[index + 1];
    let low: u8 = bytes[index + 2];
    if is_hex(high) && is_hex(low) {
        Some(hex_digit_value(high) * 16 + hex_digit_value(low))
    } else {
        None
    }
}

/// Writes a byte that was escaped.
pub fn push_escape(out: &mut Vec<u8>, byte: u8)
    ensures
        final(out)@ == old(out)@ + escape_of(byte),
{
    if is_unreserved(byte) {
        out.push(byte);
    } else {
        out.push('%' as u8);
        out.push(upper_hex_digit(byte / 16));
        out.push(upper_hex_digit(byte % 16));
        assert(out@ =~= old(out)@ + escape_of(byte));
    }
}

/// An upper-case hexadecimal digit.
pub fn upper_hex_digit(value: u8) -> (digit: u8)
    requires
        value < 16,
    ensures
        digit == upper_digit(value as int),
{
    if value < 10 {
        '0' as u8 + value
    } else {
        'A' as u8 + (value - 10)
    }
}

/// Whether the bytes are those of a segment of one dot.
pub fn is_one_dot(segment: &[u8]) -> (dot: bool)
    ensures
        dot == (segment@ == one_dot()),
{
    if segment.len() == 1 && segment[0] == '.' as u8 {
        assert(segment@ =~= one_dot());
        true
    } else {
        false
    }
}

/// Whether the bytes are those of a segment of two dots.
pub fn is_two_dots(segment: &[u8]) -> (dots: bool)
    ensures
        dots == (segment@ == two_dots()),
{
    if segment.len() == 2 && segment[0] == '.' as u8 && segment[1] == '.' as u8 {
        assert(segment@ =~= two_dots());
        true
    } else {
        false
    }
}

/// A path of segments, each after a slash.
pub fn join_segments(segments: &Vec<&[u8]>) -> (path: Vec<u8>)
    ensures
        path@ == joined(slices_of(segments@)),
{
    let mut path: Vec<u8> = Vec::new();
    let mut index: usize = 0;
    let ghost all = slices_of(segments@);
    assert(all.take(0) =~= Seq::<Seq<u8>>::empty());
    while index < segments.len()
        invariant
            index <= segments@.len(),
            all == slices_of(segments@),
            path@ == joined(all.take(index as int)),
        decreases segments@.len() - index,
    {
        path.push('/' as u8);
        append(&mut path, segments[index]);
        proof {
            let longer = all.take(index + 1);
            assert(longer.drop_last() =~= all.take(index as int));
            assert(longer.last() == segments@[index as int]@);
        }
        index += 1;
    }
    assert(all.take(index as int) =~= all);
    path
}

/// The byte strings of a sequence of vectors, in order.
pub open spec fn contents_of(vectors: Seq<Vec<u8>>) -> Seq<Seq<u8>> {
    vectors.map_values(|v: Vec<u8>| v@)
}

/// A path of segments, each after a slash.
pub fn join_owned(segments: &Vec<Vec<u8>>) -> (path: Vec<u8>)
    ensures
        path@ == joined(contents_of(segments@)),
{
    let mut path: Vec<u8> = Vec::new();
    let mut index: usize = 0;
    let ghost all = contents_of(segments@);
    assert(all.take(0) =~= Seq::<Seq<u8>>::empty());
    while index < segments.len()
        invariant
            index <= segments@.len(),
            all == contents_of(segments@),
            path@ == joined(all.take(index as int)),
        decreases segments@.len() - index,
    {
        path.push('/' as u8);
        append(&mut path, segments[index].as_slice());
        proof {
            let longer = all.take(index + 1);
            assert(longer.drop_last() =~= all.take(index as int));
            assert(longer.last() == segments@[index as int]@);
        }
        index += 1;
    }
    assert(all.take(index as int) =~= all);
    path
}

/// A root without anything after it passes, and is left as it is.
pub proof fn lemma_bare_root()
    ensures
        ({
            let root = seq!['/' as u8];
            &&& escape_reason(root, 0, true, false) is None
            &&& segments_of(root) == seq![Seq::<u8>::empty()]
            &&& reduced(segments_of(root), 0, Seq::empty(), false) == Some(
                seq![Seq::<u8>::empty()],
            )
        }),
{
    let root = seq!['/' as u8];
    let empty = Seq::<u8>::empty();
    assert(escape_reason(root, 1, true, false) is None);
    assert(root.skip(1) =~= empty);
    lemma_first_in(empty, ByteClass::Only('/' as u8));
    assert(split(empty, '/' as u8) =~= seq![empty]);
    assert(canonical(empty) =~= empty);
    assert(segments_of(root) =~= seq![empty]);
    let none = Seq::<Seq<u8>>::empty();
    assert(none.push(empty) =~= seq![empty]);
    assert(reduced(seq![empty], 1, seq![empty], false) == Some(seq![empty]));
}

/// The text of visible bytes.
pub fn visible_text(bytes: &[u8]) -> (text: String)
    requires
        all_in(bytes@, ByteClass::Visible),
    ensures
        utf8(text@) == bytes@,
{
    assert forall|j: int| 0 <= j < bytes@.len() implies bytes@[j] < 0x80 by {
        assert(ByteClass::Visible.has(bytes@[j]));
    }
    ascii_text(bytes)
}

/// A target that is the same as a path.
pub fn fixed_target(form: TargetForm, authority: Option<String>, spelling: String) -> (target:
    NormalizedTarget)
    ensures
        target@ == fixed(form, utf8_opt(authority), utf8(spelling@)),
{
    let routing_path: String = spelling.clone();
    NormalizedTarget { form, scheme: None, authority, path_and_query: spelling, routing_path }
}

} // verus!
