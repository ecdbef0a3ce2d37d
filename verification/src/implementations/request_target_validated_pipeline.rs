//! Target normalization as a pipeline: a validated plan, then its transformation.

use vstd::prelude::*;
use crate::bytes::{
    ByteClass, all_in, find_in, is_control, is_hex, lemma_first_in_unique, slices_of, split,
    split_on,
};
use crate::hex::hex_digit_value;
use crate::host::parse_endpoint;
use crate::request_target::{
    TARGET_MAX, authority_text, canonical, contents_of, envelope_fault, escape_of, escape_reason,
    escaped_byte, find_authority_end, find_scheme, first_byte_reason, fixed, fixed_target,
    is_escape, is_one_dot, is_two_dots, join_owned, joined, kept_after, lemma_bare_root,
    lemma_canonical_shifts, lemma_canonical_splits, lemma_endpoint_host, lemma_envelope,
    lemma_path_after_authority, lemma_path_no_longer, lemma_path_visible,
    lemma_segments_of_canonical, normalized, one_dot, path_after_authority, path_end, path_of,
    path_reason, path_target, push_escape, query_of, reduced, render_authority, scheme_of,
    segments_of, spelled, target_fault, two_dots, visible_text, with_query,
};
use crate::route::is_unreserved;
use crate::text::{append, is_ascii, lemma_ascii_literal, same_text, utf8};
use crate::types::{
    EffectiveAuthority, Fault, NormalizedTarget, PolyguardError, RequestLine, RequestLineModel,
    Result, TargetForm, TargetModel, invalid_target, limit_exceeded, outcome,
};

verus! {

enum ValidatedTarget<'a> {
    Asterisk,
    Authority(EffectiveAuthority),
    Origin(ValidatedPath<'a>),
    Absolute { scheme: &'static str, authority: EffectiveAuthority, path: ValidatedPath<'a> },
}

/// A path whose parts have been checked. Without a path it is the root.
struct ValidatedPath<'a> {
    path: Option<&'a [u8]>,
    query: Option<&'a [u8]>,
}

impl<'a> ValidatedPath<'a> {
    /// Whether the parts are those of a path with a query.
    spec fn is_of(self, value: Seq<u8>) -> bool {
        is_parts(self.path, self.query, value)
    }
}

/// Whether a path and a query are those of a value that begins with a slash.
spec fn is_parts(path: Option<&[u8]>, query: Option<&[u8]>, value: Seq<u8>) -> bool {
    &&& 0 < value.len() <= TARGET_MAX
    &&& value[0] == '/' as u8
    &&& all_in(value, ByteClass::Visible)
    &&& value.subrange(0, path_end(value)) == match path {
        Some(path) => path@,
        None => seq!['/' as u8],
    }
    &&& query_of(value) == match query {
        Some(query) => Some(query@),
        None => None,
    }
}

#[derive(Clone, Copy)]
enum PercentToken {
    Literal(u8),
    Encoded(u8),
}

impl PercentToken {
    /// How the token is written.
    spec fn written(self) -> Seq<u8> {
        match self {
            PercentToken::Literal(byte) => seq![byte],
            PercentToken::Encoded(byte) => escape_of(byte),
        }
    }
}

struct PercentTokens<'a> {
    remaining: &'a [u8],
}

impl<'a> PercentTokens<'a> {
    fn new(value: &'a [u8]) -> (tokens: Self)
        ensures
            tokens.remaining == value,
    {
        Self { remaining: value }
    }

    /// Whether what remains has been checked.
    spec fn checked(self, in_path: bool) -> bool {
        escape_reason(self.remaining@, 0, in_path, false) is None
    }

    fn next(&mut self, Ghost(in_path): Ghost<bool>) -> (token: Option<PercentToken>)
        requires
            old(self).checked(in_path),
        ensures
            final(self).checked(in_path),
            match token {
                None => old(self).remaining@.len() == 0 && final(self).remaining@.len() == 0,
                Some(t) => {
                    &&& final(self).remaining@.len() < old(self).remaining@.len()
                    &&& canonical(old(self).remaining@) == t.written() + canonical(
                        final(self).remaining@,
                    )
                    &&& match t {
                        PercentToken::Literal(byte) => {
                            &&& byte == old(self).remaining@[0]
                            &&& byte != '%' as u8
                            &&& final(self).remaining@ == old(self).remaining@.skip(1)
                        },
                        PercentToken::Encoded(byte) => {
                            &&& old(self).remaining@[0] == '%' as u8
                            &&& is_escape(old(self).remaining@, 0)
                            &&& byte == escaped_byte(old(self).remaining@, 0)
                            &&& final(self).remaining@ == old(self).remaining@.skip(3)
                        },
                    }
                },
            },
    {
        if self.remaining.len() == 0 {
            return None;
        }
        let first: u8 = self.remaining[0];
        if first == '%' as u8 {
            proof {
                lemma_canonical_shifts(self.remaining@, 3, 0, in_path, false);
            }
            let high: u8 = hex_digit_value(self.remaining[1]);
            let low: u8 = hex_digit_value(self.remaining[2]);
            self.remaining = &self.remaining[3..self.remaining.len()];
            assert(self.remaining@ =~= old(self).remaining@.skip(3));
            Some(PercentToken::Encoded(high * 16 + low))
        } else {
            proof {
                lemma_canonical_shifts(self.remaining@, 1, 0, in_path, false);
            }
            self.remaining = &self.remaining[1..self.remaining.len()];
            assert(self.remaining@ =~= old(self).remaining@.skip(1));
            Some(PercentToken::Literal(first))
        }
    }
}

/// Normalizes a request target through a pipeline that first validates and then transforms.
pub fn normalize_request_target(request: &RequestLine) -> (result: Result<NormalizedTarget>)
    ensures
        outcome(result) == normalized(request@, true, false),
{
    let plan = validated_plan(request)?;
    Ok(materialize(plan, Ghost(request@)))
}

/// What a plan says of the request that it was made for.
spec fn is_plan(plan: ValidatedTarget<'_>, line: RequestLineModel) -> bool {
    match plan {
        ValidatedTarget::Asterisk => normalized(line, true, false) == Ok::<TargetModel, Fault>(
            fixed(TargetForm::Asterisk, None, seq!['*' as u8]),
        ),
        ValidatedTarget::Authority(authority) => {
            &&& is_ascii(authority@.host)
            &&& normalized(line, true, false) == Ok::<TargetModel, Fault>(
                fixed(TargetForm::Authority, Some(spelled(authority@)), spelled(authority@)),
            )
        },
        ValidatedTarget::Origin(path) => {
            &&& path.is_of(line.target)
            &&& path_reason(line.target, false) is None
            &&& normalized(line, true, false) == path_target(
                TargetForm::Origin,
                None,
                None,
                path_of(line.target, false),
            )
        },
        ValidatedTarget::Absolute { scheme, authority, path } => {
            let value = absolute_value(line.target);
            &&& is_ascii(authority@.host)
            &&& path.is_of(value)
            &&& path_reason(value, false) is None
            &&& normalized(line, true, false) == path_target(
                TargetForm::Absolute,
                Some(utf8(scheme@)),
                Some(spelled(authority@)),
                path_of(value, false),
            )
        },
    }
}

/// The path with a query of an absolute target.
spec fn absolute_value(target: Seq<u8>) -> Seq<u8> {
    path_after_authority(target.skip(scheme_of(target).unwrap().1))
}

fn validated_plan<'a>(request: &'a RequestLine) -> (plan: Result<ValidatedTarget<'a>>)
    ensures
        match plan {
            Ok(p) => is_plan(p, request@),
            Err(e) => normalized(request@, true, false) == Err::<TargetModel, Fault>(e@),
        },
{
    let target: &'a [u8] = request.target.as_str().as_bytes();
    validate_target_boundary(target)?;
    proof {
        lemma_envelope(target@, true);
    }
    if target.len() == 1 && target[0] == '*' as u8 {
        assert(target@ =~= seq!['*' as u8]);
        return if same_text(request.method.as_str(), "options") {
            Ok(ValidatedTarget::Asterisk)
        } else {
            Err(invalid_target("asterisk_method"))
        };
    }
    if same_text(request.method.as_str(), "connect") {
        if target[0] == '/' as u8 || find_scheme(target).is_some() {
            return Err(invalid_target("connect_requires_authority"));
        }
        let authority = validate_authority(target, true)?;
        return Ok(ValidatedTarget::Authority(authority));
    }
    if target[0] == '/' as u8 {
        let path = validate_path(target)?;
        return Ok(ValidatedTarget::Origin(path));
    }
    match find_scheme(target) {
        None => Err(invalid_target("authority_method")),
        Some((scheme, start)) => {
            let remainder: &'a [u8] = &target[start..target.len()];
            proof {
                assert(remainder@ =~= target@.skip(start as int));
                lemma_path_after_authority(target@, start as int);
            }
            validate_absolute(remainder, scheme, Ghost(request@))
        },
    }
}

fn validate_target_boundary(target: &[u8]) -> (checked: Result<()>)
    ensures
        match checked {
            Ok(_) => envelope_fault(target@, true) is None,
            Err(e) => envelope_fault(target@, true) == Some(e@),
        },
{
    if target.len() > TARGET_MAX {
        return Err(limit_exceeded("target_bytes", TARGET_MAX, target.len()));
    }
    if target.len() == 0 {
        return Err(invalid_target("empty_target"));
    }
    let mut index: usize = 0;
    while index < target.len()
        invariant
            index <= target@.len(),
            0 < target@.len() <= TARGET_MAX,
            first_byte_reason(target@, 0) == first_byte_reason(target@, index as int),
        decreases target@.len() - index,
    {
        match target[index] {
            0x23 => return Err(invalid_target("fragment_not_allowed")),
            0x5c => return Err(invalid_target("backslash_not_allowed")),
            0x21..=0x7e => {},
            _ => return Err(invalid_target("invalid_target_byte")),
        }
        index += 1;
    }
    Ok(())
}

fn validate_absolute<'a>(
    remainder: &'a [u8],
    scheme: &'static str,
    Ghost(line): Ghost<RequestLineModel>,
) -> (plan: Result<ValidatedTarget<'a>>)
    requires
        envelope_fault(line.target, true) is None,
        line.target != seq!['*' as u8],
        line.target[0] != '/' as u8,
        line.method != utf8("connect"@),
        scheme_of(line.target) matches Some((name, start)) && (name == utf8(scheme@) && remainder@
            == line.target.skip(start)),
        ({
            let value = path_after_authority(remainder@);
            &&& 0 < value.len() <= TARGET_MAX
            &&& value[0] == '/' as u8
            &&& all_in(value, ByteClass::Visible)
        }),
    ensures
        match plan {
            Ok(p) => is_plan(p, line),
            Err(e) => normalized(line, true, false) == Err::<TargetModel, Fault>(e@),
        },
{
    let end: usize = find_authority_end(remainder);
    let authority = validate_authority(&remainder[0..end], false)?;
    let suffix: &'a [u8] = &remainder[end..remainder.len()];
    let ghost value = path_after_authority(remainder@);
    assert(suffix@ =~= remainder@.skip(end as int));
    let path = if suffix.len() == 0 {
        proof {
            assert(value =~= seq!['/' as u8]);
            lemma_first_in_unique(value, ByteClass::Only('?' as u8), 1);
            assert(value.subrange(0, 1) =~= seq!['/' as u8]);
        }
        validate_path_parts(None, None, Ghost(value))?
    } else if suffix[0] == '?' as u8 {
        let query: &'a [u8] = &suffix[1..suffix.len()];
        proof {
            assert(value[1] == suffix@[0]);
            lemma_first_in_unique(value, ByteClass::Only('?' as u8), 1);
            assert(value.subrange(0, 1) =~= seq!['/' as u8]);
            assert(value.skip(2) =~= query@);
        }
        validate_path_parts(None, Some(query), Ghost(value))?
    } else {
        validate_path(suffix)?
    };
    Ok(ValidatedTarget::Absolute { scheme, authority, path })
}

fn validate_path<'a>(value: &'a [u8]) -> (validated: Result<ValidatedPath<'a>>)
    requires
        0 < value@.len() <= TARGET_MAX,
        value@[0] == '/' as u8,
        all_in(value@, ByteClass::Visible),
    ensures
        match validated {
            Ok(path) => path.is_of(value@) && path_reason(value@, false) is None,
            Err(e) => path_reason(value@, false) matches Some(reason) && e@ == target_fault(reason),
        },
{
    let question: usize = find_in(value, ByteClass::Only('?' as u8));
    let path: &'a [u8] = &value[0..question];
    if question < value.len() {
        let query: &'a [u8] = &value[question + 1..value.len()];
        assert(query@ =~= value@.skip(question + 1));
        validate_path_parts(Some(path), Some(query), Ghost(value@))
    } else {
        validate_path_parts(Some(path), None, Ghost(value@))
    }
}

fn validate_path_parts<'a>(
    path: Option<&'a [u8]>,
    query: Option<&'a [u8]>,
    Ghost(value): Ghost<Seq<u8>>,
) -> (validated: Result<ValidatedPath<'a>>)
    requires
        is_parts(path, query, value),
    ensures
        match validated {
            Ok(p) => p.is_of(value) && path_reason(value, false) is None,
            Err(e) => path_reason(value, false) matches Some(reason) && e@ == target_fault(reason),
        },
{
    proof {
        lemma_path_no_longer(value, false);
        lemma_bare_root();
    }
    if let Some(path) = path {
        validate_percent_encoding(path, true)?;
        validate_no_root_escape(path)?;
    }
    if let Some(query) = query {
        validate_percent_encoding(query, false)?;
    }
    Ok(ValidatedPath { path, query })
}

fn validate_percent_encoding(value: &[u8], reject_separators: bool) -> (checked: Result<()>)
    ensures
        match checked {
            Ok(_) => escape_reason(value@, 0, reject_separators, false) is None,
            Err(e) => escape_reason(value@, 0, reject_separators, false) matches Some(reason) && e@
                == target_fault(reason),
        },
{
    let mut remaining: &[u8] = value;
    while remaining.len() > 0
        invariant
            escape_reason(value@, 0, reject_separators, false) == escape_reason(
                remaining@,
                0,
                reject_separators,
                false,
            ),
        decreases remaining@.len(),
    {
        let ghost before = remaining@;
        if remaining[0] != '%' as u8 {
            proof {
                lemma_canonical_shifts(before, 1, 0, reject_separators, false);
            }
            remaining = &remaining[1..remaining.len()];
            assert(remaining@ =~= before.skip(1));
            continue;
        }
        if remaining.len() < 3 || !is_hex(remaining[1]) || !is_hex(remaining[2]) {
            return Err(invalid_target("invalid_percent_encoding"));
        }
        let decoded: u8 = hex_digit_value(remaining[1]) * 16 + hex_digit_value(remaining[2]);
        if reject_separators && (decoded == '/' as u8 || decoded == '\\' as u8) {
            return Err(invalid_target("encoded_separator"));
        }
        if is_control(decoded) {
            return Err(invalid_target("encoded_control"));
        }
        proof {
            lemma_canonical_shifts(before, 3, 0, reject_separators, false);
        }
        remaining = &remaining[3..remaining.len()];
        assert(remaining@ =~= before.skip(3));
    }
    Ok(())
}

/// The depth that a path is at never goes below the root. The depth is the number of segments that
/// are kept, so far.
fn validate_no_root_escape(path: &[u8]) -> (checked: Result<()>)
    requires
        path@.len() > 0,
        path@[0] == '/' as u8,
        escape_reason(path@, 0, true, false) is None,
    ensures
        match checked {
            Ok(_) => reduced(segments_of(path@), 0, Seq::empty(), false) is Some,
            Err(e) => {
                &&& reduced(segments_of(path@), 0, Seq::empty(), false) is None
                &&& e@ == target_fault("path_traversal"@)
            },
        },
{
    let tail: &[u8] = &path[1..path.len()];
    proof {
        assert(tail@ =~= path@.skip(1));
        lemma_segments_of_canonical(path@, false);
        lemma_canonical_splits(tail@, false);
    }
    let segments: Vec<&[u8]> = split_on(tail, '/' as u8);
    let ghost raw = split(tail@, '/' as u8);
    let ghost made = segments_of(path@);
    let ghost mut kept: Seq<Seq<u8>> = Seq::empty();
    let mut depth: usize = 0;
    let mut index: usize = 0;
    assert(slices_of(segments@).len() == segments@.len());
    while index < segments.len()
        invariant
            index <= segments@.len(),
            segments@.len() == raw.len(),
            raw == slices_of(segments@),
            made.len() == raw.len(),
            made == segments_of(path@),
            forall|k: int| 0 <= k < raw.len() ==> #[trigger] made[k] == canonical(raw[k]),
            forall|k: int|
                0 <= k < raw.len() ==> escape_reason(#[trigger] raw[k], 0, true, false) is None,
            depth <= index,
            index < raw.len() ==> depth == kept.len(),
            reduced(made, 0, Seq::empty(), false) == reduced(made, index as int, kept, false),
        decreases segments@.len() - index,
    {
        let ghost segment = made[index as int];
        let ghost last = index + 1 == made.len();
        assert(raw[index as int] == segments@[index as int]@);
        match decoded_dot_kind(segments[index]) {
            Some(1) => {},
            Some(2) => {
                if depth == 0 {
                    return Err(invalid_target("path_traversal"));
                }
                depth -= 1;
            },
            _ => {
                depth += 1;
            },
        }
        proof {
            kept = kept_after(kept, segment, last, false).unwrap();
        }
        index += 1;
    }
    Ok(())
}

/// One for a segment that stands for one dot, two for one that stands for two.
fn decoded_dot_kind(segment: &[u8]) -> (kind: Option<u8>)
    requires
        escape_reason(segment@, 0, true, false) is None,
    ensures
        match kind {
            Some(n) => {
                &&& n == 1 || n == 2
                &&& n == 1 ==> canonical(segment@) == one_dot()
                &&& n == 2 ==> canonical(segment@) == two_dots()
            },
            None => canonical(segment@) != one_dot() && canonical(segment@) != two_dots(),
        },
{
    let mut tokens = PercentTokens::new(segment);
    let ghost whole = canonical(segment@);
    let first = tokens.next(Ghost(true));
    let ghost after_first = canonical(tokens.remaining@);
    let second = tokens.next(Ghost(true));
    let ghost after_second = canonical(tokens.remaining@);
    let third = tokens.next(Ghost(true));
    proof {
        assert(canonical(Seq::<u8>::empty()) =~= Seq::<u8>::empty());
        assert(one_dot().len() == 1 && one_dot()[0] == '.' as u8);
        assert(two_dots().len() == 2 && two_dots()[0] == '.' as u8 && two_dots()[1] == '.' as u8);
        if let Some(token) = first {
            lemma_written(token);
            assert(whole[0] == token.written()[0]);
            if second is None {
                assert(after_first =~= Seq::<u8>::empty());
                assert(whole =~= token.written());
            }
            if let Some(next) = second {
                lemma_written(next);
                assert(after_first[0] == next.written()[0]);
                if third is None {
                    assert(after_second =~= Seq::<u8>::empty());
                    assert(whole =~= token.written() + next.written());
                }
                if let Some(other) = third {
                    lemma_written(other);
                    assert(whole.len() >= 3);
                }
            }
        }
    }
    match (first, second, third) {
        (Some(token), None, None) => if decoded_unreserved(token) == '.' as u8 {
            assert(whole =~= one_dot());
            Some(1)
        } else {
            None
        },
        (Some(token), Some(next), None) => {
            if decoded_unreserved(token) == '.' as u8 && decoded_unreserved(next) == '.' as u8 {
                assert(whole =~= two_dots());
                Some(2)
            } else {
                proof {
                    if whole == two_dots() {
                        assert(token.written().len() == 1);
                        assert(whole[1] == after_first[0]);
                    }
                }
                None
            }
        },
        _ => {
            proof {
                if first is None {
                    assert(segment@ =~= Seq::<u8>::empty());
                    assert(whole =~= Seq::<u8>::empty());
                }
            }
            None
        },
    }
}

/// A token is written as one byte, or as three of which the first is a percent sign.
proof fn lemma_written(token: PercentToken)
    ensures
        token.written().len() == 1 || (token.written().len() == 3 && token.written()[0]
            == '%' as u8),
{
}

fn validate_authority(value: &[u8], port_required: bool) -> (validated: Result<EffectiveAuthority>)
    ensures
        match validated {
            Ok(authority) => {
                &&& authority_text(value@, port_required) == Some(spelled(authority@))
                &&& is_ascii(authority@.host)
            },
            Err(e) => {
                &&& authority_text(value@, port_required) is None
                &&& e@ == Fault::InvalidAuthority
            },
        },
{
    proof {
        lemma_endpoint_host(value@);
    }
    match parse_endpoint(value) {
        None => Err(PolyguardError::InvalidAuthority),
        Some(authority) => if port_required && authority.port.is_none() {
            Err(PolyguardError::InvalidAuthority)
        } else {
            Ok(authority)
        },
    }
}

fn materialize(plan: ValidatedTarget<'_>, Ghost(line): Ghost<RequestLineModel>) -> (target:
    NormalizedTarget)
    requires
        is_plan(plan, line),
    ensures
        normalized(line, true, false) == Ok::<TargetModel, Fault>(target@),
{
    match plan {
        ValidatedTarget::Asterisk => {
            proof {
                reveal_strlit("*");
                lemma_ascii_literal("*"@);
                assert(utf8("*"@) =~= seq!['*' as u8]);
            }
            fixed_target(TargetForm::Asterisk, None, "*".to_owned())
        },
        ValidatedTarget::Authority(authority) => {
            let text: String = render_authority(authority);
            fixed_target(TargetForm::Authority, Some(text.clone()), text)
        },
        ValidatedTarget::Origin(path) => {
            let (path_and_query, routing_path) = canonical_path(path, Ghost(line.target));
            NormalizedTarget {
                form: TargetForm::Origin,
                scheme: None,
                authority: None,
                path_and_query,
                routing_path,
            }
        },
        ValidatedTarget::Absolute { scheme, authority, path } => {
            let (path_and_query, routing_path) = canonical_path(
                path,
                Ghost(absolute_value(line.target)),
            );
            NormalizedTarget {
                form: TargetForm::Absolute,
                scheme: Some(scheme.to_owned()),
                authority: Some(render_authority(authority)),
                path_and_query,
                routing_path,
            }
        },
    }
}

fn canonical_path(path: ValidatedPath<'_>, Ghost(value): Ghost<Seq<u8>>) -> (texts: (
    String,
    String,
))
    requires
        path.is_of(value),
        path_reason(value, false) is None,
    ensures
        path_of(value, false) == Ok::<(Seq<u8>, Seq<u8>), Fault>(
            (utf8(texts.0@), utf8(texts.1@)),
        ),
{
    proof {
        lemma_path_no_longer(value, false);
        lemma_path_visible(value);
    }
    let root: [u8; 1] = ['/' as u8];
    assert(root@ =~= seq!['/' as u8]);
    let raw_path: &[u8] = match path.path {
        Some(raw) => raw,
        None => root.as_slice(),
    };
    let kept: Vec<Vec<u8>> = kept_segments(raw_path);
    let routing_path: Vec<u8> = join_owned(&kept);
    let routing_text: String = visible_text(routing_path.as_slice());
    let mut path_and_query: Vec<u8> = routing_path;
    if let Some(query) = path.query {
        path_and_query.push('?' as u8);
        let component: Vec<u8> = canonical_component(query, Ghost(false));
        append(&mut path_and_query, component.as_slice());
    }
    proof {
        let left = reduced(segments_of(raw_path@), 0, Seq::empty(), false).unwrap();
        assert(path_and_query@ =~= with_query(joined(left), query_of(value)));
    }
    (visible_text(path_and_query.as_slice()), routing_text)
}

/// The segments that are left of a path that does not lead out of the root.
fn kept_segments(raw_path: &[u8]) -> (kept: Vec<Vec<u8>>)
    requires
        raw_path@.len() > 0,
        raw_path@[0] == '/' as u8,
        escape_reason(raw_path@, 0, true, false) is None,
        reduced(segments_of(raw_path@), 0, Seq::empty(), false) is Some,
    ensures
        reduced(segments_of(raw_path@), 0, Seq::empty(), false) == Some(contents_of(kept@)),
{
    let tail: &[u8] = &raw_path[1..raw_path.len()];
    proof {
        assert(tail@ =~= raw_path@.skip(1));
        lemma_segments_of_canonical(raw_path@, false);
        lemma_canonical_splits(tail@, false);
    }
    let segments: Vec<&[u8]> = split_on(tail, '/' as u8);
    let ghost raw = split(tail@, '/' as u8);
    let ghost made = segments_of(raw_path@);
    let mut kept: Vec<Vec<u8>> = Vec::new();
    let mut index: usize = 0;
    assert(slices_of(segments@).len() == segments@.len());
    assert(contents_of(kept@) =~= Seq::<Seq<u8>>::empty());
    while index < segments.len()
        invariant
            index <= segments@.len(),
            segments@.len() == raw.len(),
            raw == slices_of(segments@),
            made.len() == raw.len(),
            made == segments_of(raw_path@),
            forall|k: int| 0 <= k < raw.len() ==> #[trigger] made[k] == canonical(raw[k]),
            forall|k: int|
                0 <= k < raw.len() ==> escape_reason(#[trigger] raw[k], 0, true, false) is None,
            reduced(made, 0, Seq::empty(), false) is Some,
            reduced(made, 0, Seq::empty(), false) == reduced(
                made,
                index as int,
                contents_of(kept@),
                false,
            ),
        decreases segments@.len() - index,
    {
        let last: bool = index + 1 == segments.len();
        assert(raw[index as int] == segments@[index as int]@);
        let segment: Vec<u8> = canonical_component(segments[index], Ghost(true));
        assert(segment@ == made[index as int]);
        let ghost before = contents_of(kept@);
        if is_one_dot(segment.as_slice()) {
            if last {
                let empty: Vec<u8> = Vec::new();
                kept.push(empty);
                assert(contents_of(kept@) =~= before.push(Seq::empty()));
            }
        } else if is_two_dots(segment.as_slice()) {
            let _ = kept.pop();
            assert(contents_of(kept@) =~= before.drop_last());
            if last {
                let empty: Vec<u8> = Vec::new();
                kept.push(empty);
                assert(contents_of(kept@) =~= before.drop_last().push(Seq::empty()));
            }
        } else {
            kept.push(segment);
            assert(contents_of(kept@) =~= before.push(segment@));
        }
        index += 1;
    }
    kept
}

fn canonical_component(value: &[u8], Ghost(in_path): Ghost<bool>) -> (component: Vec<u8>)
    requires
        escape_reason(value@, 0, in_path, false) is None,
    ensures
        component@ == canonical(value@),
{
    let mut tokens = PercentTokens::new(value);
    let mut output: Vec<u8> = Vec::new();
    assert(output@ + canonical(tokens.remaining@) =~= canonical(value@));
    loop
        invariant
            tokens.checked(in_path),
            output@ + canonical(tokens.remaining@) == canonical(value@),
        decreases tokens.remaining@.len(),
    {
        let ghost before = output@;
        let ghost rest = canonical(tokens.remaining@);
        match tokens.next(Ghost(in_path)) {
            None => {
                assert(rest =~= Seq::<u8>::empty());
                assert(output@ =~= canonical(value@));
                return output;
            },
            Some(PercentToken::Literal(byte)) => {
                output.push(byte);
            },
            Some(PercentToken::Encoded(byte)) => {
                push_escape(&mut output, byte);
            },
        }
        assert(output@ + canonical(tokens.remaining@) =~= before + rest);
    }
}

fn decoded_unreserved(token: PercentToken) -> (byte: u8)
    ensures
        byte == match token {
            PercentToken::Literal(byte) => byte,
            PercentToken::Encoded(byte) => if is_unreserved(byte) {
                byte
            } else {
                '%' as u8
            },
        },
        byte == token.written()[0],
{
    match token {
        PercentToken::Literal(byte) => byte,
        PercentToken::Encoded(byte) => if is_unreserved(byte) {
            byte
        } else {
            '%' as u8
        },
    }
}

} // verus!
