//! Target normalization by an explicit table of methods and forms.

use vstd::prelude::*;
use crate::bytes::{ByteClass, all_in, find_in, is_control, slices_of, split, split_on};
use crate::request_target::{
    TARGET_MAX, authority_end, authority_text, canonical, canonical_from, decode_escape,
    envelope_fault, escape_reason, find_authority_end, first_byte_reason, fixed_target,
    is_one_dot, is_two_dots, join_segments, joined, lemma_envelope, lemma_path_after_authority,
    lemma_path_no_longer, lemma_path_visible, lemma_scheme_len, lemma_segments_of_canonical,
    normalized, path_after_authority, path_of, path_target, push_escape, query_of, reduced,
    scheme_of, segments_of, spell_authority, starts_with_any_case, target_fault, visible_text,
    with_query,
};
use crate::text::{append, lemma_ascii_literal, lemma_utf8_injective, same_text, utf8};
use crate::types::{
    Fault, NormalizedTarget, PolyguardError, RequestLine, Result, TargetForm, TargetModel,
    invalid_target, limit_exceeded, outcome,
};

verus! {

#[derive(Clone, Copy)]
enum MethodKind {
    Connect,
    Options,
    Other,
}

#[derive(Clone, Copy)]
enum TargetSyntax<'a> {
    Asterisk,
    Origin(&'a [u8]),
    Absolute { scheme: Scheme, remainder: &'a [u8] },
    Unclassified(&'a [u8]),
}

#[derive(Clone, Copy)]
enum Scheme {
    Http,
    Https,
}

impl Scheme {
    fn name(self) -> (name: &'static str)
        ensures
            name@ == match self {
                Scheme::Http => "http"@,
                Scheme::Https => "https"@,
            },
    {
        match self {
            Self::Http => "http",
            Self::Https => "https",
        }
    }
}

#[derive(Clone, Copy, PartialEq, Eq, Structural)]
enum PortRule {
    Optional,
    Required,
}

#[derive(Clone, Copy, PartialEq, Eq, Structural)]
enum PercentContext {
    Path,
    Query,
}

struct CanonicalPath {
    path_and_query: String,
    routing_path: String,
}

/// Normalizes a preserved HTTP/1.1 request target using an explicit method and form rule table.
pub fn normalize_request_target(request: &RequestLine) -> (result: Result<NormalizedTarget>)
    ensures
        outcome(result) == normalized(request@, true, false),
{
    let target: &[u8] = request.target.as_str().as_bytes();
    checked_boundary(target)?;
    proof {
        lemma_envelope(target@, true);
    }
    let method = if same_text(request.method.as_str(), "connect") {
        MethodKind::Connect
    } else if same_text(request.method.as_str(), "options") {
        MethodKind::Options
    } else {
        MethodKind::Other
    };
    proof {
        lemma_methods_differ();
    }
    match (method, classify_syntax(target)) {
        (MethodKind::Options, TargetSyntax::Asterisk) => {
            proof {
                reveal_strlit("*");
                lemma_ascii_literal("*"@);
                assert(utf8("*"@) =~= seq!['*' as u8]);
            }
            Ok(fixed_target(TargetForm::Asterisk, None, "*".to_owned()))
        },
        (MethodKind::Connect | MethodKind::Other, TargetSyntax::Asterisk) => Err(
            invalid_target("asterisk_method"),
        ),
        (MethodKind::Connect, TargetSyntax::Unclassified(authority)) => {
            let spelling: String = canonical_authority(authority, PortRule::Required)?;
            Ok(fixed_target(TargetForm::Authority, Some(spelling.clone()), spelling))
        },
        (MethodKind::Connect, TargetSyntax::Origin(_)) => Err(
            invalid_target("connect_requires_authority"),
        ),
        (MethodKind::Connect, TargetSyntax::Absolute { .. }) => Err(
            invalid_target("connect_requires_authority"),
        ),
        (MethodKind::Options | MethodKind::Other, TargetSyntax::Origin(value)) => {
            let path = canonical_path(value)?;
            Ok(
                NormalizedTarget {
                    form: TargetForm::Origin,
                    scheme: None,
                    authority: None,
                    path_and_query: path.path_and_query,
                    routing_path: path.routing_path,
                },
            )
        },
        (MethodKind::Options | MethodKind::Other, TargetSyntax::Absolute { scheme, remainder }) => {
            normalize_absolute(scheme, remainder, target)
        },
        (MethodKind::Options | MethodKind::Other, TargetSyntax::Unclassified(_)) => Err(
            invalid_target("authority_method"),
        ),
    }
}

/// The two methods that have forms of their own are not the same.
proof fn lemma_methods_differ()
    ensures
        utf8("connect"@) != utf8("options"@),
{
    reveal_strlit("connect");
    reveal_strlit("options");
    lemma_utf8_injective("connect"@, "options"@);
    assert("connect"@[0] == 'c' && "options"@[0] == 'o');
}

fn checked_boundary(target: &[u8]) -> (checked: Result<()>)
    ensures
        match checked {
            Ok(_) => envelope_fault(target@, true) is None,
            Err(e) => envelope_fault(target@, true) == Some(e@),
        },
{
    let actual: usize = target.len();
    if actual > TARGET_MAX {
        return Err(limit_exceeded("target_bytes", TARGET_MAX, actual));
    }
    if target.len() == 0 {
        return Err(invalid_target("empty_target"));
    }
    let mut index: usize = 0;
    while index < target.len()
        invariant
            index <= target@.len(),
            0 < target@.len() <= TARGET_MAX,
            first_byte_reason(target@, 0) == first_byte_reason(target@, index as int),
        decreases target@.len() - index,
    {
        match target[index] {
            0x23 => return Err(invalid_target("fragment_not_allowed")),
            0x5c => return Err(invalid_target("backslash_not_allowed")),
            0x21..=0x7e => {},
            _ => return Err(invalid_target("invalid_target_byte")),
        }
        index += 1;
    }
    Ok(())
}

fn classify_syntax<'a>(target: &'a [u8]) -> (syntax: TargetSyntax<'a>)
    requires
        target@.len() > 0,
    ensures
        match syntax {
            TargetSyntax::Asterisk => target@ == seq!['*' as u8],
            TargetSyntax::Origin(value) => {
                &&& target@ != seq!['*' as u8]
                &&& target@[0] == '/' as u8
                &&& value == target
            },
            TargetSyntax::Absolute { scheme, remainder } => {
                &&& target@ != seq!['*' as u8]
                &&& target@[0] != '/' as u8
                &&& scheme_of(target@) matches Some((name, start)) && (name == utf8(
                    match scheme {
                        Scheme::Http => "http"@,
                        Scheme::Https => "https"@,
                    },
                ) && 7 <= start <= target@.len() && remainder@ == target@.skip(start))
            },
            TargetSyntax::Unclassified(value) => {
                &&& target@ != seq!['*' as u8]
                &&& target@[0] != '/' as u8
                &&& scheme_of(target@) is None
                &&& value == target
            },
        },
{
    if target.len() == 1 && target[0] == '*' as u8 {
        assert(target@ =~= seq!['*' as u8]);
        TargetSyntax::Asterisk
    } else if target[0] == '/' as u8 {
        TargetSyntax::Origin(target)
    } else {
        proof {
            lemma_scheme_len(target@);
        }
        if starts_with_any_case(target, "http://".as_bytes()) {
            let remainder: &'a [u8] = &target[7..target.len()];
            assert(remainder@ =~= target@.skip(7));
            TargetSyntax::Absolute { scheme: Scheme::Http, remainder }
        } else if starts_with_any_case(target, "https://".as_bytes()) {
            let remainder: &'a [u8] = &target[8..target.len()];
            assert(remainder@ =~= target@.skip(8));
            TargetSyntax::Absolute { scheme: Scheme::Https, remainder }
        } else {
            TargetSyntax::Unclassified(target)
        }
    }
}

fn normalize_absolute(scheme: Scheme, remainder: &[u8], target: &[u8]) -> (result: Result<
    NormalizedTarget,
>)
    requires
        envelope_fault(target@, true) is None,
        7 <= target@.len() - remainder@.len(),
        remainder@ == target@.skip(target@.len() - remainder@.len()),
    ensures
        ({
            let authority = authority_text(
                remainder@.subrange(0, authority_end(remainder@)),
                false,
            );
            let name = utf8(
                match scheme {
                    Scheme::Http => "http"@,
                    Scheme::Https => "https"@,
                },
            );
            outcome(result) == if authority is None {
                Err::<TargetModel, Fault>(Fault::InvalidAuthority)
            } else {
                path_target(
                    TargetForm::Absolute,
                    Some(name),
                    authority,
                    path_of(path_after_authority(remainder@), false),
                )
            }
        }),
{
    let end: usize = find_authority_end(remainder);
    let spelling: String = canonical_authority(&remainder[0..end], PortRule::Optional)?;
    let suffix: &[u8] = &remainder[end..remainder.len()];
    assert(suffix@ =~= remainder@.skip(end as int));
    let mut path_input: Vec<u8> = Vec::new();
    if suffix.len() == 0 || suffix[0] != '/' as u8 {
        path_input.push('/' as u8);
    }
    append(&mut path_input, suffix);
    proof {
        assert(path_input@ =~= path_after_authority(remainder@));
        lemma_envelope(target@, true);
        lemma_path_after_authority(target@, target@.len() - remainder@.len());
    }
    let path = canonical_path(path_input.as_slice())?;
    Ok(
        NormalizedTarget {
            form: TargetForm::Absolute,
            scheme: Some(scheme.name().to_owned()),
            authority: Some(spelling),
            path_and_query: path.path_and_query,
            routing_path: path.routing_path,
        },
    )
}

fn canonical_path(input: &[u8]) -> (result: Result<CanonicalPath>)
    requires
        0 < input@.len() <= TARGET_MAX,
        input@[0] == '/' as u8,
        all_in(input@, ByteClass::Visible),
    ensures
        match result {
            Ok(path) => path_of(input@, false) == Ok::<(Seq<u8>, Seq<u8>), Fault>(
                (utf8(path.path_and_query@), utf8(path.routing_path@)),
            ),
            Err(e) => path_of(input@, false) == Err::<(Seq<u8>, Seq<u8>), Fault>(e@),
        },
{
    let question: usize = find_in(input, ByteClass::Only('?' as u8));
    let raw_path: &[u8] = &input[0..question];
    proof {
        lemma_path_no_longer(input@, false);
        lemma_path_visible(input@);
    }
    let decoded_path: Vec<u8> = normalize_percent_encoding(raw_path, PercentContext::Path)?;
    proof {
        lemma_segments_of_canonical(raw_path@, false);
    }
    let routing_path: Vec<u8> = remove_dot_segments(decoded_path.as_slice())?;
    let routing_text: String = visible_text(routing_path.as_slice());
    let mut path_and_query: Vec<u8> = routing_path;
    if question < input.len() {
        let raw_query: &[u8] = &input[question + 1..input.len()];
        assert(raw_query@ =~= input@.skip(question + 1));
        let query: Vec<u8> = normalize_percent_encoding(raw_query, PercentContext::Query)?;
        path_and_query.push('?' as u8);
        append(&mut path_and_query, query.as_slice());
    }
    proof {
        let left = reduced(segments_of(raw_path@), 0, Seq::empty(), false).unwrap();
        assert(path_and_query@ =~= with_query(joined(left), query_of(input@)));
    }
    if path_and_query.len() > TARGET_MAX {
        return Err(limit_exceeded("target_bytes", TARGET_MAX, path_and_query.len()));
    }
    Ok(
        CanonicalPath {
            path_and_query: visible_text(path_and_query.as_slice()),
            routing_path: routing_text,
        },
    )
}

fn normalize_percent_encoding(value: &[u8], context: PercentContext) -> (result: Result<Vec<u8>>)
    ensures
        match escape_reason(value@, 0, context is Path, false) {
            Some(reason) => result is Err && result->Err_0@ == target_fault(reason),
            None => result is Ok && result->Ok_0@ == canonical(value@),
        },
{
    let in_path: bool = matches!(context, PercentContext::Path);
    let mut output: Vec<u8> = Vec::new();
    let mut index: usize = 0;
    assert(output@ + canonical_from(value@, 0) =~= canonical(value@));
    while index < value.len()
        invariant
            index <= value@.len(),
            in_path == (context is Path),
            output@ + canonical_from(value@, index as int) == canonical(value@),
            escape_reason(value@, 0, in_path, false) == escape_reason(
                value@,
                index as int,
                in_path,
                false,
            ),
        decreases value@.len() - index,
    {
        let ghost before = output@;
        let ghost rest = canonical_from(value@, index as int);
        if value[index] == '%' as u8 {
            let decoded: u8 = match decode_escape(value, index) {
                Some(decoded) => decoded,
                None => return Err(invalid_target("invalid_percent_encoding")),
            };
            if in_path && (decoded == '/' as u8 || decoded == '\\' as u8) {
                return Err(invalid_target("encoded_separator"));
            }
            if is_control(decoded) {
                return Err(invalid_target("encoded_control"));
            }
            push_escape(&mut output, decoded);
            assert(output@ + canonical_from(value@, index + 3) =~= before + rest);
            index += 3;
        } else {
            output.push(value[index]);
            assert(output@ + canonical_from(value@, index + 1) =~= before + rest);
            index += 1;
        }
    }
    assert(output@ + canonical_from(value@, index as int) =~= output@);
    Ok(output)
}

fn remove_dot_segments(path: &[u8]) -> (result: Result<Vec<u8>>)
    requires
        path@.len() > 0,
    ensures
        match reduced(split(path@.skip(1), '/' as u8), 0, Seq::empty(), false) {
            Some(left) => result is Ok && result->Ok_0@ == joined(left),
            None => result is Err && result->Err_0@ == target_fault("path_traversal"@),
        },
{
    let tail: &[u8] = &path[1..path.len()];
    assert(tail@ =~= path@.skip(1));
    let segments: Vec<&[u8]> = split_on(tail, '/' as u8);
    let ghost pieces = split(tail@, '/' as u8);
    let mut kept: Vec<&[u8]> = Vec::new();
    let mut index: usize = 0;
    let empty: &[u8] = &path[0..0];
    assert(empty@ =~= Seq::<u8>::empty());
    assert(slices_of(kept@) =~= Seq::<Seq<u8>>::empty());
    assert(slices_of(segments@).len() == segments@.len());
    while index < segments.len()
        invariant
            index <= segments@.len(),
            pieces == split(path@.skip(1), '/' as u8),
            pieces == slices_of(segments@),
            pieces.len() == segments@.len(),
            empty@ == Seq::<u8>::empty(),
            reduced(pieces, 0, Seq::empty(), false) == reduced(
                pieces,
                index as int,
                slices_of(kept@),
                false,
            ),
        decreases segments@.len() - index,
    {
        let final_segment: bool = index + 1 == segments.len();
        let segment: &[u8] = segments[index];
        let ghost before = slices_of(kept@);
        assert(pieces[index as int] == segment@);
        if is_one_dot(segment) {
            if final_segment {
                kept.push(empty);
                assert(slices_of(kept@) =~= before.push(Seq::empty()));
            }
        } else if is_two_dots(segment) {
            if kept.pop().is_none() {
                return Err(invalid_target("path_traversal"));
            }
            assert(slices_of(kept@) =~= before.drop_last());
            if final_segment {
                kept.push(empty);
                assert(slices_of(kept@) =~= before.drop_last().push(Seq::empty()));
            }
        } else {
            kept.push(segment);
            assert(slices_of(kept@) =~= before.push(segment@));
        }
        index += 1;
    }
    Ok(join_segments(&kept))
}

fn canonical_authority(value: &[u8], port_rule: PortRule) -> (result: Result<String>)
    ensures
        match authority_text(value@, port_rule is Required) {
            Some(text) => result is Ok && utf8(result->Ok_0@) == text,
            None => result is Err && result->Err_0@ == Fault::InvalidAuthority,
        },
{
    match spell_authority(value, matches!(port_rule, PortRule::Required)) {
        Some(spelling) => Ok(spelling),
        None => Err(PolyguardError::InvalidAuthority),
    }
}

} // verus!
