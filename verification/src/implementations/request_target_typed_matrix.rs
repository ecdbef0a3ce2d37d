//! Target normalization through a typed matrix of methods and forms.

use vstd::prelude::*;
use vstd::utf8::*;
use crate::bytes::{
    ByteClass, any_byte_in, any_in, find_in, is_control, lemma_first_in, lowered, same_lowered,
    slices_of, split, split_on,
};
use crate::host::{endpoint, lemma_endpoint_bytes, parse_endpoint};
use crate::request_target::{
    TARGET_MAX, authority_end, authority_target, canonical, canonical_from, component_reason,
    decode_escape, escape_reason, find_authority_end, fixed_target, is_one_dot, is_two_dots,
    join_segments, kept_authority_text, lemma_endpoint_host, lemma_path_no_longer,
    lemma_reduced_text, lemma_scheme_len, lemma_segments_of_canonical, lenient_path_of,
    normalized_leniently, path_after_authority, path_target, port_text, push_escape, query_of,
    reduced, rooted, scheme_of, segments_of, starts_with_any_case, target_fault, target_too_long,
    with_query,
};
use crate::text::{
    append, ascii_text, decode_text, is_ascii, lemma_ascii_is_utf8, lemma_ascii_literal,
    lemma_utf8_injective, utf8,
};
use crate::types::{
    Fault, NormalizedTarget, PolyguardError, RequestLine, RequestLineModel, Result, TargetForm,
    TargetModel, invalid_target, limit_exceeded, outcome,
};

verus! {

#[derive(Clone, Copy)]
enum MethodKind {
    Connect,
    Options,
    Other,
}

#[derive(Clone, Copy)]
enum TargetKind<'a> {
    Asterisk,
    Origin(&'a [u8]),
    Absolute { scheme: Scheme, remainder: &'a [u8] },
    Unclassified(&'a [u8]),
}

#[derive(Clone, Copy)]
enum Scheme {
    Http,
    Https,
}

impl Scheme {
    spec fn spelling(self) -> Seq<char> {
        match self {
            Scheme::Http => "http"@,
            Scheme::Https => "https"@,
        }
    }

    fn text(self) -> (text: &'static str)
        ensures
            text@ == self.spelling(),
    {
        match self {
            Self::Http => "http",
            Self::Https => "https",
        }
    }
}

struct Boundary<'a> {
    method: MethodKind,
    target: TargetKind<'a>,
}

struct CanonicalPath {
    path_and_query: String,
    routing_path: String,
}

impl CanonicalPath {
    spec fn texts(self) -> (Seq<u8>, Seq<u8>) {
        (utf8(self.path_and_query@), utf8(self.routing_path@))
    }
}

struct CanonicalAuthority(String);

#[derive(Clone, Copy, PartialEq, Eq, Structural)]
enum AuthorityPort {
    Required,
    Optional,
}

#[derive(Clone, Copy, PartialEq, Eq, Structural)]
enum EscapeContext {
    Path,
    Query,
}

/// Normalizes a request target through a typed method and form rule matrix.
pub fn normalize_request_target(request: &RequestLine) -> (result: Result<NormalizedTarget>)
    ensures
        outcome(result) == normalized_leniently(request@),
{
    let boundary = Boundary::check(request)?;
    match (boundary.method, boundary.target) {
        (MethodKind::Options, TargetKind::Asterisk) => {
            proof {
                reveal_strlit("*");
                lemma_ascii_literal("*"@);
                assert(utf8("*"@) =~= seq!['*' as u8]);
            }
            Ok(fixed_target(TargetForm::Asterisk, None, "*".to_owned()))
        },
        (MethodKind::Connect | MethodKind::Other, TargetKind::Asterisk) => Err(
            invalid_target("asterisk_method"),
        ),
        (MethodKind::Connect, TargetKind::Unclassified(raw)) => authority_result(raw),
        (MethodKind::Connect, TargetKind::Origin(_)) => Err(invalid_target("connect_form")),
        (MethodKind::Connect, TargetKind::Absolute { .. }) => Err(invalid_target("connect_form")),
        (MethodKind::Options | MethodKind::Other, TargetKind::Origin(raw)) => origin_result(raw),
        (MethodKind::Options | MethodKind::Other, TargetKind::Absolute { scheme, remainder }) => {
            absolute_result(scheme, remainder)
        },
        (MethodKind::Options | MethodKind::Other, TargetKind::Unclassified(_)) => Err(
            invalid_target("invalid_form"),
        ),
    }
}

impl<'a> Boundary<'a> {
    /// What the boundary says of the request.
    spec fn is_of(self, line: RequestLineModel) -> bool {
        let target = line.target;
        &&& target.len() <= TARGET_MAX
        &&& match self.method {
            MethodKind::Connect => lowered(line.method) == utf8("connect"@) && lowered(line.method)
                != utf8("options"@),
            MethodKind::Options => lowered(line.method) == utf8("options"@) && lowered(line.method)
                != utf8("connect"@),
            MethodKind::Other => lowered(line.method) != utf8("connect"@) && lowered(line.method)
                != utf8("options"@),
        }
        &&& match self.target {
            TargetKind::Asterisk => target == seq!['*' as u8],
            TargetKind::Origin(raw) => {
                &&& target != seq!['*' as u8]
                &&& target.len() > 0
                &&& target[0] == '/' as u8
                &&& raw@ == target
            },
            TargetKind::Absolute { scheme, remainder } => {
                &&& target != seq!['*' as u8]
                &&& target.len() > 0
                &&& target[0] != '/' as u8
                &&& scheme_of(target) matches Some((name, start)) && (name == utf8(
                    scheme.spelling(),
                ) && 7 <= start <= target.len() && remainder@ == target.skip(start))
            },
            TargetKind::Unclassified(raw) => {
                &&& target != seq!['*' as u8]
                &&& !(target.len() > 0 && target[0] == '/' as u8)
                &&& scheme_of(target) is None
                &&& raw@ == target
            },
        }
    }

    fn check(request: &'a RequestLine) -> (boundary: Result<Self>)
        ensures
            match boundary {
                Ok(b) => b.is_of(request@),
                Err(e) => {
                    &&& request@.target.len() > TARGET_MAX
                    &&& e@ == target_too_long(request@.target.len() as int)
                },
            },
    {
        let raw: &'a [u8] = request.target.as_str().as_bytes();
        let actual: usize = raw.len();
        if actual > TARGET_MAX {
            return Err(limit_exceeded("target_bytes", TARGET_MAX, actual));
        }
        proof {
            reveal_strlit("connect");
            reveal_strlit("options");
            lemma_utf8_injective("connect"@, "options"@);
            assert("connect"@[0] == 'c' && "options"@[0] == 'o');
            lemma_scheme_len(raw@);
        }
        let spelled_method: &[u8] = request.method.as_str().as_bytes();
        let method = if same_lowered(spelled_method, "connect".as_bytes()) {
            MethodKind::Connect
        } else if same_lowered(spelled_method, "options".as_bytes()) {
            MethodKind::Options
        } else {
            MethodKind::Other
        };
        let target = if raw.len() == 1 && raw[0] == '*' as u8 {
            assert(raw@ =~= seq!['*' as u8]);
            TargetKind::Asterisk
        } else if raw.len() > 0 && raw[0] == '/' as u8 {
            TargetKind::Origin(raw)
        } else if starts_with_any_case(raw, "http://".as_bytes()) {
            let remainder: &'a [u8] = &raw[7..raw.len()];
            assert(remainder@ =~= raw@.skip(7));
            TargetKind::Absolute { scheme: Scheme::Http, remainder }
        } else if starts_with_any_case(raw, "https://".as_bytes()) {
            let remainder: &'a [u8] = &raw[8..raw.len()];
            assert(remainder@ =~= raw@.skip(8));
            TargetKind::Absolute { scheme: Scheme::Https, remainder }
        } else {
            TargetKind::Unclassified(raw)
        };
        Ok(Self { method, target })
    }
}

fn origin_result(raw: &[u8]) -> (result: Result<NormalizedTarget>)
    requires
        0 < raw@.len() <= TARGET_MAX,
        raw@[0] == '/' as u8,
    ensures
        outcome(result) == path_target(TargetForm::Origin, None, None, lenient_path_of(raw@)),
{
    let canonical = canonical_path_query(raw)?;
    Ok(
        NormalizedTarget {
            form: TargetForm::Origin,
            scheme: None,
            authority: None,
            path_and_query: canonical.path_and_query,
            routing_path: canonical.routing_path,
        },
    )
}

fn absolute_result(scheme: Scheme, remainder: &[u8]) -> (result: Result<NormalizedTarget>)
    requires
        remainder@.len() + 7 <= TARGET_MAX,
    ensures
        ({
            let authority = kept_authority_text(
                remainder@.subrange(0, authority_end(remainder@)),
                false,
            );
            outcome(result) == if any_in(remainder@, ByteClass::Only('#' as u8)) {
                Err::<TargetModel, Fault>(target_fault("fragment"@))
            } else if authority is None {
                Err(Fault::InvalidAuthority)
            } else {
                path_target(
                    TargetForm::Absolute,
                    Some(utf8(scheme.spelling())),
                    authority,
                    lenient_path_of(path_after_authority(remainder@)),
                )
            }
        }),
{
    if any_byte_in(remainder, ByteClass::Only('#' as u8)) {
        return Err(invalid_target("fragment"));
    }
    let end: usize = find_authority_end(remainder);
    let authority = CanonicalAuthority::parse(&remainder[0..end], AuthorityPort::Optional)?;
    let tail: &[u8] = &remainder[end..remainder.len()];
    assert(tail@ =~= remainder@.skip(end as int));
    let mut path: Vec<u8> = Vec::new();
    if tail.len() == 0 || tail[0] != '/' as u8 {
        path.push('/' as u8);
    }
    append(&mut path, tail);
    assert(path@ =~= path_after_authority(remainder@));
    let canonical = canonical_path_query(path.as_slice())?;
    Ok(
        NormalizedTarget {
            form: TargetForm::Absolute,
            scheme: Some(scheme.text().to_owned()),
            authority: Some(authority.0),
            path_and_query: canonical.path_and_query,
            routing_path: canonical.routing_path,
        },
    )
}

fn authority_result(raw: &[u8]) -> (result: Result<NormalizedTarget>)
    ensures
        outcome(result) == authority_target(kept_authority_text(raw@, true)),
{
    let authority = CanonicalAuthority::parse(raw, AuthorityPort::Required)?;
    let text: String = authority.0;
    Ok(fixed_target(TargetForm::Authority, Some(text.clone()), text))
}

impl CanonicalAuthority {
    fn parse(raw: &[u8], port_rule: AuthorityPort) -> (authority: Result<Self>)
        ensures
            match authority {
                Ok(a) => kept_authority_text(raw@, port_rule is Required) == Some(utf8(a.0@)),
                Err(e) => {
                    &&& kept_authority_text(raw@, port_rule is Required) is None
                    &&& e@ == Fault::InvalidAuthority
                },
            },
    {
        let parsed = match parse_endpoint(raw) {
            Some(parsed) => parsed,
            None => return Err(PolyguardError::InvalidAuthority),
        };
        proof {
            lemma_endpoint_host(raw@);
            lemma_endpoint_bytes(raw@);
        }
        if parsed.port.is_none() {
            return match port_rule {
                AuthorityPort::Required => Err(PolyguardError::InvalidAuthority),
                AuthorityPort::Optional => Ok(Self(parsed.host)),
            };
        }
        let port: &[u8] = port_slice(raw);
        let mut rendered: Vec<u8> = Vec::new();
        append(&mut rendered, parsed.host.as_str().as_bytes());
        rendered.push(':' as u8);
        append(&mut rendered, port);
        proof {
            assert(rendered@ =~= parsed@.host + seq![':' as u8] + port_text(raw@));
            assert forall|j: int| 0 <= j < rendered@.len() implies rendered@[j] < 0x80 by {
                if j > parsed@.host.len() {
                    assert(rendered@[j] == port@[j - parsed@.host.len() - 1]);
                }
            }
        }
        Ok(Self(ascii_text(rendered.as_slice())))
    }
}

/// The text of the port of an authority that has one.
fn port_slice<'a>(raw: &'a [u8]) -> (port: &'a [u8])
    requires
        endpoint(raw@) matches Some(authority) && authority.port is Some,
    ensures
        port@ == port_text(raw@),
        is_ascii(port@),
{
    proof {
        lemma_endpoint_bytes(raw@);
        lemma_first_in(raw@, ByteClass::Only(']' as u8));
        lemma_first_in(raw@, ByteClass::Only(':' as u8));
        assert forall|j: int| 0 <= j < raw@.len() implies #[trigger] raw@[j] < 0x80 by {
            assert(ByteClass::Authority.has(raw@[j]));
        }
    }
    if raw[0] == '[' as u8 {
        let close: usize = find_in(raw, ByteClass::Only(']' as u8));
        let port: &'a [u8] = &raw[close + 2..raw.len()];
        assert(port@ =~= raw@.skip(close + 2));
        port
    } else {
        let colon: usize = find_in(raw, ByteClass::Only(':' as u8));
        let port: &'a [u8] = &raw[colon + 1..raw.len()];
        assert(port@ =~= raw@.skip(colon + 1));
        port
    }
}

fn canonical_path_query(raw: &[u8]) -> (result: Result<CanonicalPath>)
    requires
        0 < raw@.len() <= TARGET_MAX,
        raw@[0] == '/' as u8,
    ensures
        match result {
            Ok(path) => lenient_path_of(raw@) == Ok::<(Seq<u8>, Seq<u8>), Fault>(path.texts()),
            Err(e) => lenient_path_of(raw@) == Err::<(Seq<u8>, Seq<u8>), Fault>(e@),
        },
{
    if any_byte_in(raw, ByteClass::Only('#' as u8)) {
        return Err(invalid_target("fragment"));
    }
    let question: usize = find_in(raw, ByteClass::Only('?' as u8));
    let path: &[u8] = &raw[0..question];
    proof {
        lemma_path_no_longer(raw@, true);
    }
    let decoded_path: String = canonical_escapes(path, EscapeContext::Path)?;
    proof {
        lemma_segments_of_canonical(path@, true);
    }
    let routing_path: Vec<u8> = reduce_dot_segments(decoded_path.as_str().as_bytes())?;
    let ghost left = reduced(segments_of(path@), 0, Seq::empty(), true).unwrap();
    let mut path_and_query: Vec<u8> = Vec::new();
    append(&mut path_and_query, routing_path.as_slice());
    if question < raw.len() {
        let value: &[u8] = &raw[question + 1..raw.len()];
        assert(value@ =~= raw@.skip(question + 1));
        let query: String = canonical_escapes(value, EscapeContext::Query)?;
        path_and_query.push('?' as u8);
        append(&mut path_and_query, query.as_str().as_bytes());
    }
    proof {
        lemma_reduced_text(path@);
        assert(path_and_query@ =~= with_query(rooted(left), query_of(raw@)));
        lemma_with_query_text(rooted(left), query_of(raw@));
    }
    if path_and_query.len() > TARGET_MAX {
        return Err(limit_exceeded("target_bytes", TARGET_MAX, path_and_query.len()));
    }
    Ok(
        CanonicalPath {
            path_and_query: known_text(path_and_query),
            routing_path: known_text(routing_path),
        },
    )
}

proof fn lemma_with_query_text(path: Seq<u8>, query: Option<Seq<u8>>)
    requires
        valid_utf8(path),
        query matches Some(q) ==> valid_utf8(canonical(q)),
    ensures
        valid_utf8(with_query(path, query)),
{
    if let Some(q) = query {
        let mark = seq!['?' as u8];
        lemma_ascii_is_utf8(mark);
        valid_utf8_concat(path, mark);
        valid_utf8_concat(path + mark, canonical(q));
    }
}

/// The text of bytes that are known to be text.
fn known_text(bytes: Vec<u8>) -> (text: String)
    requires
        valid_utf8(bytes@),
    ensures
        utf8(text@) == bytes@,
{
    match decode_text(bytes) {
        Some(text) => text,
        None => String::new(),
    }
}

fn canonical_escapes(raw: &[u8], context: EscapeContext) -> (result: Result<String>)
    ensures
        match component_reason(raw@, context is Path) {
            Some(reason) => result is Err && result->Err_0@ == target_fault(reason),
            None => result is Ok && utf8(result->Ok_0@) == canonical(raw@),
        },
{
    let in_path: bool = matches!(context, EscapeContext::Path);
    let mut output: Vec<u8> = Vec::new();
    let mut cursor: usize = 0;
    assert(output@ + canonical_from(raw@, 0) =~= canonical(raw@));
    while cursor < raw.len()
        invariant
            cursor <= raw@.len(),
            in_path == (context is Path),
            output@ + canonical_from(raw@, cursor as int) == canonical(raw@),
            escape_reason(raw@, 0, in_path, true) == escape_reason(
                raw@,
                cursor as int,
                in_path,
                true,
            ),
        decreases raw@.len() - cursor,
    {
        let byte: u8 = raw[cursor];
        let ghost before = output@;
        let ghost rest = canonical_from(raw@, cursor as int);
        if byte == '\\' as u8 || byte == ' ' as u8 || is_control(byte) {
            return Err(invalid_target("forbidden_character"));
        }
        if byte == '%' as u8 {
            let decoded: u8 = match decode_escape(raw, cursor) {
                Some(decoded) => decoded,
                None => return Err(invalid_target("invalid_percent_encoding")),
            };
            if in_path && (decoded == '/' as u8 || decoded == '\\' as u8) {
                return Err(invalid_target("encoded_separator"));
            }
            if is_control(decoded) {
                return Err(invalid_target("encoded_control"));
            }
            push_escape(&mut output, decoded);
            assert(output@ + canonical_from(raw@, cursor + 3) =~= before + rest);
            cursor += 3;
        } else {
            output.push(byte);
            assert(output@ + canonical_from(raw@, cursor + 1) =~= before + rest);
            cursor += 1;
        }
    }
    assert(output@ + canonical_from(raw@, cursor as int) =~= output@);
    match decode_text(output) {
        Some(text) => Ok(text),
        None => Err(invalid_target("invalid_encoding")),
    }
}

fn reduce_dot_segments(path: &[u8]) -> (result: Result<Vec<u8>>)
    requires
        path@.len() > 0,
        path@[0] == '/' as u8,
    ensures
        match reduced(split(path@.skip(1), '/' as u8), 0, Seq::empty(), true) {
            Some(left) => result is Ok && result->Ok_0@ == rooted(left),
            None => result is Err && result->Err_0@ == target_fault("path_traversal"@),
        },
{
    let tail: &[u8] = &path[1..path.len()];
    assert(tail@ =~= path@.skip(1));
    let segments: Vec<&[u8]> = split_on(tail, '/' as u8);
    let ghost pieces = split(tail@, '/' as u8);
    let mut kept: Vec<&[u8]> = Vec::new();
    let mut index: usize = 0;
    let empty: &[u8] = &path[0..0];
    assert(empty@ =~= Seq::<u8>::empty());
    assert(slices_of(kept@) =~= Seq::<Seq<u8>>::empty());
    assert(slices_of(segments@).len() == segments@.len());
    while index < segments.len()
        invariant
            index <= segments@.len(),
            pieces == split(path@.skip(1), '/' as u8),
            pieces == slices_of(segments@),
            pieces.len() == segments@.len(),
            empty@ == Seq::<u8>::empty(),
            reduced(pieces, 0, Seq::empty(), true) == reduced(
                pieces,
                index as int,
                slices_of(kept@),
                true,
            ),
        decreases segments@.len() - index,
    {
        let last: bool = index + 1 == segments.len();
        let segment: &[u8] = segments[index];
        let ghost before = slices_of(kept@);
        assert(pieces[index as int] == segment@);
        if is_one_dot(segment) {
            if last {
                kept.push(empty);
                assert(slices_of(kept@) =~= before.push(Seq::empty()));
            }
        } else if is_two_dots(segment) {
            if kept.pop().is_none() {
                return Err(invalid_target("path_traversal"));
            }
            let ghost fewer = slices_of(kept@);
            assert(fewer =~= before.drop_last());
            let ends_empty: bool = kept.len() == 0 || kept[kept.len() - 1].len() == 0;
            proof {
                if kept@.len() > 0 {
                    assert(fewer.last() == kept@.last()@);
                    if kept@.last()@.len() == 0 {
                        assert(fewer.last() =~= Seq::<u8>::empty());
                    }
                }
            }
            if last && !ends_empty {
                kept.push(empty);
                assert(slices_of(kept@) =~= fewer.push(Seq::empty()));
            }
        } else {
            kept.push(segment);
            assert(slices_of(kept@) =~= before.push(segment@));
        }
        index += 1;
    }
    if kept.len() == 0 {
        let mut root: Vec<u8> = Vec::new();
        root.push('/' as u8);
        assert(root@ =~= seq!['/' as u8]);
        return Ok(root);
    }
    Ok(join_segments(&kept))
}

} // verus!
