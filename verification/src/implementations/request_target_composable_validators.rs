//! Target normalization by composable validation passes, followed by rendering.

use vstd::prelude::*;
use crate::bytes::{
    ByteClass, all_bytes_in, all_in, any_byte_in, any_in, find_in, is_control,
    lemma_first_in_unique, slices_of, split, split_on,
};
use crate::host::parse_endpoint;
use crate::request_target::{
    TARGET_MAX, authority_text, canonical, canonical_from, contents_of, decode_escape,
    envelope_fault, escape_reason, escaped_byte, find_authority_end, find_scheme, fixed,
    fixed_target, is_escape, is_one_dot, is_two_dots, join_owned, joined, kept_after,
    lemma_bare_root, lemma_canonical_splits, lemma_endpoint_host, lemma_envelope,
    lemma_path_after_authority, lemma_path_no_longer, lemma_path_visible,
    lemma_segments_of_canonical, normalized, one_dot, path_after_authority, path_end, path_of,
    path_reason, path_target, push_escape, query_of, query_reason, reduced, render_authority,
    scheme_of, segments_of, spelled, target_fault, two_dots, visible_text, with_query,
};
use crate::text::{is_ascii, lemma_ascii_literal, same_text, utf8};
use crate::types::{
    EffectiveAuthority, Fault, NormalizedTarget, PolyguardError, RequestLine, RequestLineModel,
    Result, TargetForm, TargetModel, invalid_target, limit_exceeded, outcome,
};

verus! {

/// The parts of a checked target. A target that is only an authority, or is fixed, has no path.
struct ValidatedParts<'a> {
    form: TargetForm,
    scheme: Option<&'static str>,
    authority: Option<EffectiveAuthority>,
    path: Option<&'a [u8]>,
    query: Option<&'a [u8]>,
    fixed: bool,
}

#[derive(Clone, Copy, PartialEq, Eq, Structural)]
enum ComponentKind {
    Path,
    Query,
}

#[derive(Clone, Copy)]
enum ComponentToken {
    Literal(u8),
    Encoded(u8),
}

struct ComponentTokens<'a> {
    bytes: &'a [u8],
    offset: usize,
}

impl<'a> ComponentTokens<'a> {
    fn new(value: &'a [u8]) -> (tokens: Self)
        ensures
            tokens.bytes == value,
            tokens.offset == 0,
    {
        Self { bytes: value, offset: 0 }
    }

    fn next(&mut self) -> (token: Option<Result<ComponentToken>>)
        ensures
            final(self).bytes == old(self).bytes,
            old(self).offset <= old(self).bytes@.len() ==> final(self).offset
                <= final(self).bytes@.len(),
            ({
                let bytes = old(self).bytes@;
                let at = old(self).offset as int;
                match token {
                    None => at >= bytes.len() && final(self).offset == at,
                    Some(Ok(ComponentToken::Literal(byte))) => {
                        &&& at < bytes.len()
                        &&& byte == bytes[at]
                        &&& byte != '%' as u8
                        &&& final(self).offset == at + 1
                    },
                    Some(Ok(ComponentToken::Encoded(byte))) => {
                        &&& at < bytes.len()
                        &&& bytes[at] == '%' as u8
                        &&& is_escape(bytes, at)
                        &&& byte == escaped_byte(bytes, at)
                        &&& final(self).offset == at + 3
                    },
                    Some(Err(e)) => {
                        &&& at < bytes.len()
                        &&& bytes[at] == '%' as u8
                        &&& !is_escape(bytes, at)
                        &&& e@ == target_fault("invalid_percent_encoding"@)
                        &&& final(self).offset == bytes.len()
                    },
                }
            }),
    {
        if self.offset >= self.bytes.len() {
            return None;
        }
        let byte: u8 = self.bytes[self.offset];
        if byte != '%' as u8 {
            self.offset += 1;
            return Some(Ok(ComponentToken::Literal(byte)));
        }
        match decode_escape(self.bytes, self.offset) {
            Some(value) => {
                self.offset += 3;
                Some(Ok(ComponentToken::Encoded(value)))
            },
            None => {
                self.offset = self.bytes.len();
                Some(Err(invalid_target("invalid_percent_encoding")))
            },
        }
    }
}

/// Normalizes through composable validation passes followed by rendering, which only allocates.
pub fn normalize_request_target(request: &RequestLine) -> (result: Result<NormalizedTarget>)
    ensures
        outcome(result) == normalized(request@, false, false),
{
    validate_envelope(request.target.as_str().as_bytes())?;
    let parts = validate_and_decompose(request)?;
    Ok(render(parts, Ghost(request@)))
}

fn validate_envelope(target: &[u8]) -> (checked: Result<()>)
    ensures
        match checked {
            Ok(_) => envelope_fault(target@, false) is None,
            Err(e) => envelope_fault(target@, false) == Some(e@),
        },
{
    if target.len() > TARGET_MAX {
        return Err(limit_exceeded("target_bytes", TARGET_MAX, target.len()));
    }
    require_nonempty(target)?;
    require_visible_ascii(target)?;
    reject_fragment(target)?;
    reject_backslash(target)
}

fn require_nonempty(target: &[u8]) -> (checked: Result<()>)
    ensures
        match checked {
            Ok(_) => target@.len() > 0,
            Err(e) => target@.len() == 0 && e@ == target_fault("empty_target"@),
        },
{
    if target.len() == 0 {
        Err(invalid_target("empty_target"))
    } else {
        Ok(())
    }
}

fn require_visible_ascii(target: &[u8]) -> (checked: Result<()>)
    ensures
        match checked {
            Ok(_) => all_in(target@, ByteClass::Visible),
            Err(e) => !all_in(target@, ByteClass::Visible) && e@ == target_fault(
                "invalid_target_byte"@,
            ),
        },
{
    if all_bytes_in(target, ByteClass::Visible) {
        Ok(())
    } else {
        Err(invalid_target("invalid_target_byte"))
    }
}

fn reject_fragment(target: &[u8]) -> (checked: Result<()>)
    ensures
        match checked {
            Ok(_) => !any_in(target@, ByteClass::Only('#' as u8)),
            Err(e) => any_in(target@, ByteClass::Only('#' as u8)) && e@ == target_fault(
                "fragment_not_allowed"@,
            ),
        },
{
    if any_byte_in(target, ByteClass::Only('#' as u8)) {
        Err(invalid_target("fragment_not_allowed"))
    } else {
        Ok(())
    }
}

fn reject_backslash(target: &[u8]) -> (checked: Result<()>)
    ensures
        match checked {
            Ok(_) => !any_in(target@, ByteClass::Only('\\' as u8)),
            Err(e) => any_in(target@, ByteClass::Only('\\' as u8)) && e@ == target_fault(
                "backslash_not_allowed"@,
            ),
        },
{
    if any_byte_in(target, ByteClass::Only('\\' as u8)) {
        Err(invalid_target("backslash_not_allowed"))
    } else {
        Ok(())
    }
}

/// Whether a path and a query are those of a value that begins with a slash. Without a path it is
/// the root.
spec fn is_parts(path: Option<&[u8]>, query: Option<&[u8]>, value: Seq<u8>) -> bool {
    &&& 0 < value.len() <= TARGET_MAX
    &&& value[0] == '/' as u8
    &&& all_in(value, ByteClass::Visible)
    &&& value.subrange(0, path_end(value)) == match path {
        Some(path) => path@,
        None => seq!['/' as u8],
    }
    &&& query_of(value) == match query {
        Some(query) => Some(query@),
        None => None,
    }
}

/// The value that the path and the query of a target come from.
spec fn value_of(target: Seq<u8>) -> Seq<u8> {
    if target[0] == '/' as u8 {
        target
    } else {
        path_after_authority(target.skip(scheme_of(target).unwrap().1))
    }
}

/// What parts say of the request that they were made for.
spec fn are_parts_of(parts: ValidatedParts<'_>, line: RequestLineModel) -> bool {
    let spelling = match parts.authority {
        Some(authority) => Some(spelled(authority@)),
        None => None,
    };
    &&& parts.authority matches Some(authority) ==> is_ascii(authority@.host)
    &&& if parts.fixed {
        normalized(line, false, false) == Ok::<TargetModel, Fault>(
            fixed(TargetForm::Asterisk, None, seq!['*' as u8]),
        )
    } else if parts.form is Authority {
        &&& parts.authority is Some
        &&& normalized(line, false, false) == Ok::<TargetModel, Fault>(
            fixed(TargetForm::Authority, spelling, spelling.unwrap()),
        )
    } else {
        let value = value_of(line.target);
        &&& is_parts(parts.path, parts.query, value)
        &&& path_reason(value, false) is None
        &&& normalized(line, false, false) == path_target(
            parts.form,
            match parts.scheme {
                Some(scheme) => Some(utf8(scheme@)),
                None => None,
            },
            spelling,
            path_of(value, false),
        )
    }
}

fn validate_and_decompose<'a>(request: &'a RequestLine) -> (parts: Result<ValidatedParts<'a>>)
    requires
        envelope_fault(request@.target, false) is None,
    ensures
        match parts {
            Ok(p) => are_parts_of(p, request@),
            Err(e) => normalized(request@, false, false) == Err::<TargetModel, Fault>(e@),
        },
{
    let raw: &'a [u8] = request.target.as_str().as_bytes();
    proof {
        lemma_envelope(raw@, false);
    }
    if raw.len() == 1 && raw[0] == '*' as u8 {
        assert(raw@ =~= seq!['*' as u8]);
        return if same_text(request.method.as_str(), "options") {
            Ok(
                ValidatedParts {
                    form: TargetForm::Asterisk,
                    scheme: None,
                    authority: None,
                    path: None,
                    query: None,
                    fixed: true,
                },
            )
        } else {
            Err(invalid_target("asterisk_method"))
        };
    }
    if same_text(request.method.as_str(), "connect") {
        if raw[0] == '/' as u8 || find_scheme(raw).is_some() {
            return Err(invalid_target("connect_requires_authority"));
        }
        let authority = validate_authority(raw, true)?;
        return Ok(
            ValidatedParts {
                form: TargetForm::Authority,
                scheme: None,
                authority: Some(authority),
                path: None,
                query: None,
                fixed: false,
            },
        );
    }
    if raw[0] == '/' as u8 {
        let (path, query) = split_query(raw);
        proof {
            lemma_path_no_longer(raw@, false);
        }
        validate_path(path)?;
        validate_query(query)?;
        return Ok(
            ValidatedParts {
                form: TargetForm::Origin,
                scheme: None,
                authority: None,
                path: Some(path),
                query,
                fixed: false,
            },
        );
    }
    match find_scheme(raw) {
        None => Err(invalid_target("authority_method")),
        Some((scheme, start)) => {
            let remainder: &'a [u8] = &raw[start..raw.len()];
            proof {
                assert(remainder@ =~= raw@.skip(start as int));
                lemma_path_after_authority(raw@, start as int);
            }
            validate_absolute(remainder, scheme, Ghost(request@))
        },
    }
}

fn validate_absolute<'a>(
    remainder: &'a [u8],
    scheme: &'static str,
    Ghost(line): Ghost<RequestLineModel>,
) -> (parts: Result<ValidatedParts<'a>>)
    requires
        envelope_fault(line.target, false) is None,
        line.target != seq!['*' as u8],
        line.target[0] != '/' as u8,
        line.method != utf8("connect"@),
        scheme_of(line.target) matches Some((name, start)) && (name == utf8(scheme@) && remainder@
            == line.target.skip(start)),
        ({
            let value = path_after_authority(remainder@);
            &&& 0 < value.len() <= TARGET_MAX
            &&& value[0] == '/' as u8
            &&& all_in(value, ByteClass::Visible)
        }),
    ensures
        match parts {
            Ok(p) => are_parts_of(p, line),
            Err(e) => normalized(line, false, false) == Err::<TargetModel, Fault>(e@),
        },
{
    let end: usize = find_authority_end(remainder);
    let authority = validate_authority(&remainder[0..end], false)?;
    let tail: &'a [u8] = &remainder[end..remainder.len()];
    let ghost value = path_after_authority(remainder@);
    proof {
        assert(tail@ =~= remainder@.skip(end as int));
        lemma_path_no_longer(value, false);
        lemma_bare_root();
    }
    let (path, query): (Option<&'a [u8]>, Option<&'a [u8]>) = if tail.len() == 0 {
        proof {
            assert(value =~= seq!['/' as u8]);
            lemma_first_in_unique(value, ByteClass::Only('?' as u8), 1);
            assert(value.subrange(0, 1) =~= seq!['/' as u8]);
        }
        (None, None)
    } else if tail[0] == '?' as u8 {
        let query: &'a [u8] = &tail[1..tail.len()];
        proof {
            assert(value[1] == tail@[0]);
            lemma_first_in_unique(value, ByteClass::Only('?' as u8), 1);
            assert(value.subrange(0, 1) =~= seq!['/' as u8]);
            assert(value.skip(2) =~= query@);
        }
        (None, Some(query))
    } else {
        let (path, query) = split_query(tail);
        (Some(path), query)
    };
    if let Some(path) = path {
        validate_path(path)?;
    }
    validate_query(query)?;
    Ok(
        ValidatedParts {
            form: TargetForm::Absolute,
            scheme: Some(scheme),
            authority: Some(authority),
            path,
            query,
            fixed: false,
        },
    )
}

fn split_query<'a>(value: &'a [u8]) -> (parts: (&'a [u8], Option<&'a [u8]>))
    ensures
        parts.0@ == value@.subrange(0, path_end(value@)),
        query_of(value@) == match parts.1 {
            Some(query) => Some(query@),
            None => None,
        },
{
    let question: usize = find_in(value, ByteClass::Only('?' as u8));
    if question < value.len() {
        let query: &'a [u8] = &value[question + 1..value.len()];
        assert(query@ =~= value@.skip(question + 1));
        (&value[0..question], Some(query))
    } else {
        assert(value@ =~= value@.subrange(0, question as int));
        (value, None)
    }
}

fn validate_path(path: &[u8]) -> (checked: Result<()>)
    requires
        path@.len() > 0,
        path@[0] == '/' as u8,
    ensures
        ({
            let escapes = reduced(segments_of(path@), 0, Seq::empty(), false) is None;
            let reason = if escape_reason(path@, 0, true, false) is Some {
                escape_reason(path@, 0, true, false)
            } else if escapes {
                Some("path_traversal"@)
            } else {
                None
            };
            match checked {
                Ok(_) => reason is None,
                Err(e) => reason is Some && e@ == target_fault(reason.unwrap()),
            }
        }),
{
    validate_component(path, ComponentKind::Path)?;
    validate_root_boundary(path)
}

fn validate_query(query: Option<&[u8]>) -> (checked: Result<()>)
    ensures
        ({
            let reason = query_reason(
                match query {
                    Some(query) => Some(query@),
                    None => None,
                },
            );
            match checked {
                Ok(_) => reason is None,
                Err(e) => reason is Some && e@ == target_fault(reason.unwrap()),
            }
        }),
{
    match query {
        None => Ok(()),
        Some(value) => validate_component(value, ComponentKind::Query),
    }
}

fn validate_component(value: &[u8], kind: ComponentKind) -> (checked: Result<()>)
    ensures
        match checked {
            Ok(_) => escape_reason(value@, 0, kind is Path, false) is None,
            Err(e) => escape_reason(value@, 0, kind is Path, false) matches Some(reason) && e@
                == target_fault(reason),
        },
{
    let in_path: bool = matches!(kind, ComponentKind::Path);
    let mut tokens = ComponentTokens::new(value);
    loop
        invariant
            in_path == (kind is Path),
            tokens.bytes == value,
            tokens.offset <= value@.len(),
            escape_reason(value@, 0, in_path, false) == escape_reason(
                value@,
                tokens.offset as int,
                in_path,
                false,
            ),
        decreases value@.len() - tokens.offset,
    {
        match tokens.next() {
            None => return Ok(()),
            Some(Err(error)) => return Err(error),
            Some(Ok(ComponentToken::Literal(_))) => {},
            Some(Ok(ComponentToken::Encoded(byte))) => {
                if in_path && (byte == '/' as u8 || byte == '\\' as u8) {
                    return Err(invalid_target("encoded_separator"));
                }
                if is_control(byte) {
                    return Err(invalid_target("encoded_control"));
                }
            },
        }
    }
}

fn validate_root_boundary(path: &[u8]) -> (checked: Result<()>)
    requires
        path@.len() > 0,
        path@[0] == '/' as u8,
        escape_reason(path@, 0, true, false) is None,
    ensures
        match checked {
            Ok(_) => reduced(segments_of(path@), 0, Seq::empty(), false) is Some,
            Err(e) => {
                &&& reduced(segments_of(path@), 0, Seq::empty(), false) is None
                &&& e@ == target_fault("path_traversal"@)
            },
        },
{
    let tail: &[u8] = &path[1..path.len()];
    proof {
        assert(tail@ =~= path@.skip(1));
        lemma_segments_of_canonical(path@, false);
        lemma_canonical_splits(tail@, false);
    }
    let segments: Vec<&[u8]> = split_on(tail, '/' as u8);
    let ghost raw = split(tail@, '/' as u8);
    let ghost made = segments_of(path@);
    let ghost mut kept: Seq<Seq<u8>> = Seq::empty();
    let mut depth: usize = 0;
    let mut index: usize = 0;
    assert(slices_of(segments@).len() == segments@.len());
    while index < segments.len()
        invariant
            index <= segments@.len(),
            segments@.len() == raw.len(),
            raw == slices_of(segments@),
            made.len() == raw.len(),
            made == segments_of(path@),
            forall|k: int| 0 <= k < raw.len() ==> #[trigger] made[k] == canonical(raw[k]),
            forall|k: int|
                0 <= k < raw.len() ==> escape_reason(#[trigger] raw[k], 0, true, false) is None,
            depth <= index,
            index < raw.len() ==> depth == kept.len(),
            reduced(made, 0, Seq::empty(), false) == reduced(made, index as int, kept, false),
        decreases segments@.len() - index,
    {
        let ghost segment = made[index as int];
        let ghost last = index + 1 == made.len();
        assert(raw[index as int] == segments@[index as int]@);
        let dots: u8 = dot_segment(segments[index]);
        if dots == 2 {
            if depth == 0 {
                return Err(invalid_target("path_traversal"));
            }
            depth -= 1;
        } else if dots != 1 {
            depth += 1;
        }
        proof {
            kept = kept_after(kept, segment, last, false).unwrap();
        }
        index += 1;
    }
    Ok(())
}

/// One for a segment that stands for one dot, two for one that stands for two, zero for others.
fn dot_segment(segment: &[u8]) -> (dots: u8)
    requires
        escape_reason(segment@, 0, true, false) is None,
    ensures
        dots == 1 <==> canonical(segment@) == one_dot(),
        dots == 2 <==> canonical(segment@) == two_dots(),
{
    let canonical_segment: Vec<u8> = render_component(segment, Ghost(true));
    if is_one_dot(canonical_segment.as_slice()) {
        assert(one_dot().len() == 1 && two_dots().len() == 2);
        1
    } else if is_two_dots(canonical_segment.as_slice()) {
        2
    } else {
        0
    }
}

fn validate_authority(raw: &[u8], port_required: bool) -> (validated: Result<EffectiveAuthority>)
    ensures
        match validated {
            Ok(authority) => {
                &&& authority_text(raw@, port_required) == Some(spelled(authority@))
                &&& is_ascii(authority@.host)
            },
            Err(e) => {
                &&& authority_text(raw@, port_required) is None
                &&& e@ == Fault::InvalidAuthority
            },
        },
{
    proof {
        lemma_endpoint_host(raw@);
    }
    match parse_endpoint(raw) {
        None => Err(PolyguardError::InvalidAuthority),
        Some(authority) => if port_required && authority.port.is_none() {
            Err(PolyguardError::InvalidAuthority)
        } else {
            Ok(authority)
        },
    }
}

fn render(parts: ValidatedParts<'_>, Ghost(line): Ghost<RequestLineModel>) -> (target:
    NormalizedTarget)
    requires
        are_parts_of(parts, line),
    ensures
        normalized(line, false, false) == Ok::<TargetModel, Fault>(target@),
{
    if parts.fixed {
        proof {
            reveal_strlit("*");
            lemma_ascii_literal("*"@);
            assert(utf8("*"@) =~= seq!['*' as u8]);
        }
        return fixed_target(TargetForm::Asterisk, None, "*".to_owned());
    }
    let authority: Option<String> = match parts.authority {
        Some(authority) => Some(render_authority(authority)),
        None => None,
    };
    if matches!(parts.form, TargetForm::Authority) {
        if let Some(text) = authority {
            return fixed_target(TargetForm::Authority, Some(text.clone()), text);
        }
        return fixed_target(TargetForm::Authority, None, String::new());
    }
    let ghost value = value_of(line.target);
    proof {
        lemma_path_no_longer(value, false);
        lemma_path_visible(value);
    }
    let root: [u8; 1] = ['/' as u8];
    assert(root@ =~= seq!['/' as u8]);
    let raw_path: &[u8] = match parts.path {
        Some(path) => path,
        None => root.as_slice(),
    };
    let routing_path: Vec<u8> = render_path(raw_path);
    let routing_text: String = visible_text(routing_path.as_slice());
    let mut path_and_query: Vec<u8> = routing_path;
    if let Some(query) = parts.query {
        path_and_query.push('?' as u8);
        render_component_into(&mut path_and_query, query, Ghost(false));
    }
    proof {
        let left = reduced(segments_of(raw_path@), 0, Seq::empty(), false).unwrap();
        assert(path_and_query@ =~= with_query(joined(left), query_of(value)));
    }
    NormalizedTarget {
        form: parts.form,
        scheme: match parts.scheme {
            Some(scheme) => Some(scheme.to_owned()),
            None => None,
        },
        authority,
        path_and_query: visible_text(path_and_query.as_slice()),
        routing_path: routing_text,
    }
}

fn render_path(path: &[u8]) -> (rendered: Vec<u8>)
    requires
        path@.len() > 0,
        path@[0] == '/' as u8,
        escape_reason(path@, 0, true, false) is None,
        reduced(segments_of(path@), 0, Seq::empty(), false) is Some,
    ensures
        reduced(segments_of(path@), 0, Seq::empty(), false) matches Some(left) && rendered@
            == joined(left),
{
    let tail: &[u8] = &path[1..path.len()];
    proof {
        assert(tail@ =~= path@.skip(1));
        lemma_segments_of_canonical(path@, false);
        lemma_canonical_splits(tail@, false);
    }
    let segments: Vec<&[u8]> = split_on(tail, '/' as u8);
    let ghost raw = split(tail@, '/' as u8);
    let ghost made = segments_of(path@);
    let mut output: Vec<Vec<u8>> = Vec::new();
    let mut index: usize = 0;
    assert(slices_of(segments@).len() == segments@.len());
    assert(contents_of(output@) =~= Seq::<Seq<u8>>::empty());
    while index < segments.len()
        invariant
            index <= segments@.len(),
            segments@.len() == raw.len(),
            raw == slices_of(segments@),
            made.len() == raw.len(),
            made == segments_of(path@),
            forall|k: int| 0 <= k < raw.len() ==> #[trigger] made[k] == canonical(raw[k]),
            forall|k: int|
                0 <= k < raw.len() ==> escape_reason(#[trigger] raw[k], 0, true, false) is None,
            reduced(made, 0, Seq::empty(), false) is Some,
            reduced(made, 0, Seq::empty(), false) == reduced(
                made,
                index as int,
                contents_of(output@),
                false,
            ),
        decreases segments@.len() - index,
    {
        let last: bool = index + 1 == segments.len();
        assert(raw[index as int] == segments@[index as int]@);
        let segment: Vec<u8> = render_component(segments[index], Ghost(true));
        assert(segment@ == made[index as int]);
        let ghost before = contents_of(output@);
        let dot: bool = is_one_dot(segment.as_slice());
        let dots: bool = is_two_dots(segment.as_slice());
        if dots {
            let _ = output.pop();
            assert(contents_of(output@) =~= before.drop_last());
        }
        let ghost fewer = contents_of(output@);
        if (dot || dots) && last {
            let empty: Vec<u8> = Vec::new();
            output.push(empty);
            assert(contents_of(output@) =~= fewer.push(Seq::empty()));
        } else if !dot && !dots {
            output.push(segment);
            assert(contents_of(output@) =~= before.push(segment@));
        }
        index += 1;
    }
    join_owned(&output)
}

fn render_component(value: &[u8], Ghost(in_path): Ghost<bool>) -> (rendered: Vec<u8>)
    requires
        escape_reason(value@, 0, in_path, false) is None,
    ensures
        rendered@ == canonical(value@),
{
    let mut output: Vec<u8> = Vec::new();
    render_component_into(&mut output, value, Ghost(in_path));
    assert(output@ =~= canonical(value@));
    output
}

fn render_component_into(output: &mut Vec<u8>, value: &[u8], Ghost(in_path): Ghost<bool>)
    requires
        escape_reason(value@, 0, in_path, false) is None,
    ensures
        final(output)@ == old(output)@ + canonical(value@),
{
    let mut tokens = ComponentTokens::new(value);
    let ghost before = output@;
    loop
        invariant
            before == old(output)@,
            tokens.bytes == value,
            tokens.offset <= value@.len(),
            escape_reason(value@, tokens.offset as int, in_path, false) is None,
            output@ + canonical_from(value@, tokens.offset as int) == before + canonical(value@),
        decreases value@.len() - tokens.offset,
    {
        let ghost so_far = output@;
        let ghost rest = canonical_from(value@, tokens.offset as int);
        match tokens.next() {
            None => {
                assert(so_far + rest =~= so_far);
                return;
            },
            Some(Err(_)) => return,
            Some(Ok(ComponentToken::Literal(byte))) => output.push(byte),
            Some(Ok(ComponentToken::Encoded(byte))) => push_escape(output, byte),
        }
        assert(output@ + canonical_from(value@, tokens.offset as int) =~= so_far + rest);
    }
}

} // verus!
