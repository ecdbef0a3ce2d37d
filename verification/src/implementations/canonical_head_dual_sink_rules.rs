//! Canonical head by the same emission rules into a counter and into a buffer.

use vstd::prelude::*;
use crate::body_framing::CONTENT_LENGTH_LIMIT;
use crate::canonical_head::{
    FieldRule, HEAD_LIMIT, HeadInput, WireHost, append_endpoint, append_upper, are_removed_names,
    closing_texts, constructed, crlf, effective_host, endpoint_text, field_rule_text, field_text,
    forwarding_texts, framing_texts, is_form_fitting, is_head, is_head_field, is_head_field_text,
    is_lower_token_text, is_path_fitting, is_quoted_wire_value, kept_texts,
    lemma_forwarding_bytes, lemma_framing_bytes, lemma_head_parts, lemma_head_size,
    lemma_kept_step, lemma_two_lines, opening_texts, read_effective_host, request_text,
    terminated, uppered,
};
use crate::decimal::render_decimal;
use crate::header::FIELD_MAX;
use crate::request_line::MAX_METHOD_BYTES;
use crate::text::{append, utf8};
use crate::types::{
    AuthorityModel, BodyFraming, CanonicalRequestHead, EffectiveAuthority, Fault, FieldModel,
    ForwardingModel, ForwardingResult, HeaderField, NormalizedTarget, PolyguardError, Result,
    SanitizedHeaders, SanitizedModel, limit_exceeded, outcome,
};

verus! {

/// Where a head is emitted to.
pub trait HeadSink: Sized {
    /// Whether the sink is in the state that it has after `content`.
    spec fn shows(&self, content: Seq<u8>) -> bool;

    fn bytes(&mut self, bytes: &[u8]) -> (done: Option<()>)
        ensures
            forall|content: Seq<u8>| #[trigger]
                old(self).shows(content) ==> {
                    &&& done is Some ==> final(self).shows(content + bytes@)
                    &&& content.len() + bytes@.len() <= usize::MAX ==> done is Some
                },
    ;

    fn upper_ascii(&mut self, bytes: &[u8]) -> (done: Option<()>)
        ensures
            forall|content: Seq<u8>| #[trigger]
                old(self).shows(content) ==> {
                    &&& done is Some ==> final(self).shows(content + uppered(bytes@))
                    &&& content.len() + bytes@.len() <= usize::MAX ==> done is Some
                },
    ;
}

/// Counts what is emitted.
pub struct Counter(pub usize);

impl HeadSink for Counter {
    open spec fn shows(&self, content: Seq<u8>) -> bool {
        self.0 == content.len()
    }

    fn bytes(&mut self, bytes: &[u8]) -> (done: Option<()>) {
        match self.0.checked_add(bytes.len()) {
            Some(count) => {
                self.0 = count;
                Some(())
            },
            None => None,
        }
    }

    fn upper_ascii(&mut self, bytes: &[u8]) -> (done: Option<()>) {
        self.bytes(bytes)
    }
}

/// Keeps what is emitted.
impl HeadSink for Vec<u8> {
    open spec fn shows(&self, content: Seq<u8>) -> bool {
        self@ == content
    }

    fn bytes(&mut self, bytes: &[u8]) -> (done: Option<()>) {
        append(self, bytes);
        Some(())
    }

    fn upper_ascii(&mut self, bytes: &[u8]) -> (done: Option<()>) {
        append_upper(self, bytes);
        Some(())
    }
}

/// What a counter and a buffer show agrees: the counter has counted the bytes that the buffer keeps.
pub proof fn lemma_sinks_agree(counter: Counter, buffer: Vec<u8>, content: Seq<u8>)
    requires
        counter.shows(content),
        buffer.shows(content),
    ensures
        counter.0 == buffer@.len(),
{
}

/// What a sink shows after `more` has been emitted to one that showed `content`. Only a content
/// that is longer than can be counted may fail.
pub open spec fn emits<S: HeadSink>(
    sink: S,
    done: Option<()>,
    content: Seq<u8>,
    more: Seq<u8>,
) -> bool {
    &&& done is Some ==> sink.shows(content + more)
    &&& content.len() + more.len() <= usize::MAX ==> done is Some
}

/// The parts of a head that the validation hands on.
pub struct TrustedView<'a> {
    pub method: &'a [u8],
    pub path: &'a [u8],
    pub host: WireHost<'a>,
}

impl<'a> TrustedView<'a> {
    /// The request line and the Host line.
    pub open spec fn opening(self, port: Option<u16>) -> Seq<Seq<u8>> {
        seq![
            request_text(self.method@, self.path@),
            field_text(utf8("Host"@), endpoint_text(self.host@, port)),
        ]
    }
}

/// The bytes of a head, whether its parts are valid or not.
pub open spec fn emission(
    trusted: TrustedView,
    authority: AuthorityModel,
    headers: SanitizedModel,
    framing: BodyFraming,
    forwarding: ForwardingModel,
) -> Seq<u8> {
    terminated(trusted.opening(authority.port)) + terminated(kept_texts(headers.fields))
        + terminated(forwarding_texts(forwarding)) + terminated(framing_texts(framing))
        + terminated(closing_texts())
}

/// Constructs a canonical head: the emission rules run twice, first to count.
#[verifier::spinoff_prover]
#[verifier::rlimit(80)]
pub fn construct_canonical_upstream_head(
    method: &str,
    target: &NormalizedTarget,
    authority: &EffectiveAuthority,
    headers: &SanitizedHeaders,
    framing: &BodyFraming,
    forwarding: &ForwardingResult,
) -> (result: Result<CanonicalRequestHead>)
    ensures
        outcome(result) == constructed(
            (HeadInput {
                method: utf8(method@),
                target: target@,
                authority: authority@,
                headers: headers@,
                framing: *framing,
                forwarding: forwarding@,
            }),
            true,
        ),
{
    let ghost input = HeadInput {
        method: utf8(method@),
        target: target@,
        authority: authority@,
        headers: headers@,
        framing: *framing,
        forwarding: forwarding@,
    };
    // Phase 1: turn the public models into a small trusted view. No output is allocated here.
    let trusted: TrustedView = validate_boundary(
        method,
        target,
        authority,
        headers,
        framing,
        forwarding,
    )?;
    proof {
        lemma_head_size(input, true);
        lemma_head_parts(input);
        assert(trusted.opening(authority.port) =~= opening_texts(input));
    }
    // Phase 2: execute the emission rules against a counting sink for an exact size preflight.
    let mut counter: Counter = Counter(0);
    assert(counter.shows(Seq::<u8>::empty()));
    if emit_head(
        &mut counter,
        &trusted,
        authority,
        headers,
        framing,
        forwarding,
    ).is_none() {
        return Err(limit_exceeded("canonical_head_bytes", HEAD_LIMIT, usize::MAX));
    }
    if counter.0 > HEAD_LIMIT {
        return Err(limit_exceeded("canonical_head_bytes", HEAD_LIMIT, counter.0));
    }
    // Phase 3: run the same rules into the one allocation.
    let mut bytes: Vec<u8> = Vec::new();
    assert(bytes.shows(Seq::<u8>::empty()));
    if emit_head(
        &mut bytes,
        &trusted,
        authority,
        headers,
        framing,
        forwarding,
    ).is_none() {
        return Err(PolyguardError::SerializationInvariant);
    }
    Ok(CanonicalRequestHead { bytes, body_framing: *framing })
}

/// Validates every input, each by itself.
fn validate_boundary<'a>(
    method: &'a str,
    target: &'a NormalizedTarget,
    authority: &'a EffectiveAuthority,
    headers: &SanitizedHeaders,
    framing: &BodyFraming,
    forwarding: &ForwardingResult,
) -> (result: Result<TrustedView<'a>>)
    ensures
        ({
            let input = HeadInput {
                method: utf8(method@),
                target: target@,
                authority: authority@,
                headers: headers@,
                framing: *framing,
                forwarding: forwarding@,
            };
            match result {
                Ok(trusted) => {
                    &&& is_head(input, true)
                    &&& trusted.method@ == input.method
                    &&& trusted.path@ == input.target.path_and_query
                    &&& effective_host(input.authority) == Some(trusted.host@)
                },
                Err(error) => !is_head(input, true) && error@ == Fault::SerializationInvariant,
            }
        }),
{
    if !is_lower_token_text(method.as_bytes(), MAX_METHOD_BYTES) {
        return Err(PolyguardError::SerializationInvariant);
    }
    let host: WireHost<'a> = match read_effective_host(authority) {
        Some(host) => host,
        None => return Err(PolyguardError::SerializationInvariant),
    };
    if !is_form_fitting(target, authority, &host, true) || !is_path_fitting(target, true) {
        return Err(PolyguardError::SerializationInvariant);
    }
    if headers.fields.len() > FIELD_MAX {
        return Err(PolyguardError::SerializationInvariant);
    }
    let mut index: usize = 0;
    while index < headers.fields.len()
        invariant
            index <= headers.fields@.len(),
            forall|i: int| 0 <= i < index ==> is_head_field(#[trigger] headers@.fields[i]),
        decreases headers.fields@.len() - index,
    {
        assert(headers@.fields[index as int] == headers.fields@[index as int]@);
        if !is_head_field_text(&headers.fields[index]) {
            return Err(PolyguardError::SerializationInvariant);
        }
        index += 1;
    }
    if !are_removed_names(&headers.removed_names) {
        return Err(PolyguardError::SerializationInvariant);
    }
    if let BodyFraming::ContentLength(length) = framing {
        if *length > CONTENT_LENGTH_LIMIT {
            return Err(PolyguardError::SerializationInvariant);
        }
    }
    if !is_quoted_wire_value(forwarding.forwarded.as_str().as_bytes()) || !is_quoted_wire_value(
        forwarding.x_forwarded_for.as_str().as_bytes(),
    ) || !is_quoted_wire_value(forwarding.x_forwarded_proto.as_str().as_bytes())
        || !is_quoted_wire_value(forwarding.x_forwarded_host.as_str().as_bytes()) {
        return Err(PolyguardError::SerializationInvariant);
    }
    Ok(
        TrustedView {
            method: method.as_bytes(),
            path: target.path_and_query.as_str().as_bytes(),
            host,
        },
    )
}

fn emit_line_break<S: HeadSink>(sink: &mut S, Ghost(content): Ghost<Seq<u8>>) -> (done: Option<()>)
    requires
        old(sink).shows(content),
    ensures
        emits(*final(sink), done, content, crlf()),
{
    let line_break: [u8; 2] = ['\r' as u8, '\n' as u8];
    assert(line_break@ =~= crlf());
    sink.bytes(line_break.as_slice())
}

/// Emits the line of a field.
fn emit_field<S: HeadSink>(
    sink: &mut S,
    name: &[u8],
    value: &[u8],
    Ghost(content): Ghost<Seq<u8>>,
) -> (done: Option<()>)
    requires
        old(sink).shows(content),
    ensures
        emits(*final(sink), done, content, field_text(name@, value@) + crlf()),
{
    if sink.bytes(name).is_none() {
        return None;
    }
    if sink.bytes(": ".as_bytes()).is_none() {
        return None;
    }
    if sink.bytes(value).is_none() {
        return None;
    }
    let ghost written = content + name@ + utf8(": "@) + value@;
    assert(written + crlf() =~= content + (field_text(name@, value@) + crlf()));
    emit_line_break(sink, Ghost(written))
}

/// Emits the request line and the Host line.
fn emit_opening<S: HeadSink>(sink: &mut S, trusted: &TrustedView<'_>, port: Option<u16>) -> (done:
    Option<()>)
    requires
        old(sink).shows(Seq::<u8>::empty()),
    ensures
        emits(*final(sink), done, Seq::<u8>::empty(), terminated(trusted.opening(port))),
{
    let ghost empty = Seq::<u8>::empty();
    let ghost lines = trusted.opening(port);
    let space: [u8; 1] = [' ' as u8];
    let ghost request = empty + uppered(trusted.method@) + space@ + trusted.path@ + utf8(
        " HTTP/1.1"@,
    );
    proof {
        lemma_two_lines(lines[0], lines[1]);
        assert(lines =~= seq![lines[0], lines[1]]);
        assert(space@ =~= seq![' ' as u8]);
        assert(request =~= lines[0]);
        assert((request + crlf()) + (lines[1] + crlf()) =~= empty + terminated(lines));
    }
    if sink.upper_ascii(trusted.method).is_none() {
        return None;
    }
    if sink.bytes(space.as_slice()).is_none() {
        return None;
    }
    if sink.bytes(trusted.path).is_none() {
        return None;
    }
    if sink.bytes(" HTTP/1.1".as_bytes()).is_none() {
        return None;
    }
    if emit_line_break(sink, Ghost(request)).is_none() {
        return None;
    }
    let mut host: Vec<u8> = Vec::new();
    append_endpoint(&mut host, &trusted.host, port);
    assert(host@ =~= endpoint_text(trusted.host@, port));
    emit_field(sink, "Host".as_bytes(), host.as_slice(), Ghost(request + crlf()))
}

/// The fields before a place take no more bytes than all fields.
proof fn lemma_kept_grows(fields: Seq<FieldModel>, i: int)
    requires
        0 <= i <= fields.len(),
    ensures
        terminated(kept_texts(fields.take(i))).len() <= terminated(kept_texts(fields)).len(),
    decreases fields.len() - i,
{
    if i < fields.len() {
        lemma_kept_step(fields, i);
        lemma_kept_grows(fields, i + 1);
    } else {
        assert(fields.take(i) =~= fields);
    }
}

/// Emits the fields that are passed on.
fn emit_fields<S: HeadSink>(
    sink: &mut S,
    headers: &SanitizedHeaders,
    Ghost(content): Ghost<Seq<u8>>,
) -> (done: Option<()>)
    requires
        old(sink).shows(content),
    ensures
        emits(*final(sink), done, content, terminated(kept_texts(headers@.fields))),
{
    let ghost fields = headers@.fields;
    let mut index: usize = 0;
    proof {
        assert(fields.take(0) =~= Seq::<FieldModel>::empty());
        assert(content =~= content + terminated(kept_texts(fields.take(0))));
    }
    while index < headers.fields.len()
        invariant
            index <= headers.fields@.len(),
            fields == headers@.fields,
            sink.shows(content + terminated(kept_texts(fields.take(index as int)))),
        decreases headers.fields@.len() - index,
    {
        let field: &HeaderField = &headers.fields[index];
        let ghost before = terminated(kept_texts(fields.take(index as int)));
        let ghost line = field_text(field@.name, field@.value);
        proof {
            assert(fields[index as int] == field@);
            lemma_kept_step(fields, index as int);
            lemma_kept_grows(fields, index + 1);
            assert((content + before) + (line + crlf()) =~= content + (before + line + crlf()));
        }
        if matches!(field_rule_text(field.name.as_str()), FieldRule::Keep) {
            if emit_field(
                sink,
                field.name.as_str().as_bytes(),
                field.value.as_slice(),
                Ghost(content + before),
            ).is_none() {
                return None;
            }
        }
        index += 1;
    }
    assert(fields.take(index as int) =~= fields);
    Some(())
}

/// Emits the lines of the forwarding fields.
fn emit_forwarding<S: HeadSink>(
    sink: &mut S,
    forwarding: &ForwardingResult,
    Ghost(content): Ghost<Seq<u8>>,
) -> (done: Option<()>)
    requires
        old(sink).shows(content),
    ensures
        emits(*final(sink), done, content, terminated(forwarding_texts(forwarding@))),
{
    let ghost lines = forwarding_texts(forwarding@);
    let ghost one = content + (lines[0] + crlf());
    let ghost two = one + (lines[1] + crlf());
    let ghost three = two + (lines[2] + crlf());
    proof {
        lemma_forwarding_bytes(forwarding@);
        assert(three + (lines[3] + crlf()) =~= content + terminated(lines));
    }
    if emit_field(
        sink,
        "Forwarded".as_bytes(),
        forwarding.forwarded.as_str().as_bytes(),
        Ghost(content),
    ).is_none() {
        return None;
    }
    if emit_field(
        sink,
        "X-Forwarded-For".as_bytes(),
        forwarding.x_forwarded_for.as_str().as_bytes(),
        Ghost(one),
    ).is_none() {
        return None;
    }
    if emit_field(
        sink,
        "X-Forwarded-Proto".as_bytes(),
        forwarding.x_forwarded_proto.as_str().as_bytes(),
        Ghost(two),
    ).is_none() {
        return None;
    }
    emit_field(
        sink,
        "X-Forwarded-Host".as_bytes(),
        forwarding.x_forwarded_host.as_str().as_bytes(),
        Ghost(three),
    )
}

/// Emits the line on the body.
fn emit_framing<S: HeadSink>(
    sink: &mut S,
    framing: &BodyFraming,
    Ghost(content): Ghost<Seq<u8>>,
) -> (done: Option<()>)
    requires
        old(sink).shows(content),
    ensures
        emits(*final(sink), done, content, terminated(framing_texts(*framing))),
{
    proof {
        lemma_framing_bytes(*framing);
        assert(content + Seq::<u8>::empty() =~= content);
    }
    match framing {
        BodyFraming::NoBody => Some(()),
        BodyFraming::ContentLength(length) => {
            let digits: Vec<u8> = render_decimal(*length);
            emit_field(sink, "Content-Length".as_bytes(), digits.as_slice(), Ghost(content))
        },
        BodyFraming::Chunked => emit_field(
            sink,
            "Transfer-Encoding".as_bytes(),
            "chunked".as_bytes(),
            Ghost(content),
        ),
    }
}

/// Emits the end of the head.
fn emit_closing<S: HeadSink>(sink: &mut S, Ghost(content): Ghost<Seq<u8>>) -> (done: Option<()>)
    requires
        old(sink).shows(content),
    ensures
        emits(*final(sink), done, content, terminated(closing_texts())),
{
    let ghost lines = closing_texts();
    let ghost closed = content + (lines[0] + crlf());
    proof {
        lemma_two_lines(lines[0], lines[1]);
        assert(lines =~= seq![lines[0], lines[1]]);
        assert(closed + crlf() =~= content + terminated(lines));
    }
    if emit_field(sink, "Connection".as_bytes(), "close".as_bytes(), Ghost(content)).is_none() {
        return None;
    }
    emit_line_break(sink, Ghost(closed))
}

/// The emission rules, which are the same for every sink.
pub fn emit_head<S: HeadSink>(
    sink: &mut S,
    trusted: &TrustedView<'_>,
    authority: &EffectiveAuthority,
    headers: &SanitizedHeaders,
    framing: &BodyFraming,
    forwarding: &ForwardingResult,
) -> (done: Option<()>)
    requires
        old(sink).shows(Seq::<u8>::empty()),
    ensures
        done is Some ==> final(sink).shows(
            emission(*trusted, authority@, headers@, *framing, forwarding@),
        ),
        emission(*trusted, authority@, headers@, *framing, forwarding@).len() <= usize::MAX ==> done
            is Some,
{
    let ghost opening = terminated(trusted.opening(authority.port));
    let ghost fields = opening + terminated(kept_texts(headers@.fields));
    let ghost forwarded = fields + terminated(forwarding_texts(forwarding@));
    let ghost framed = forwarded + terminated(framing_texts(*framing));
    assert(Seq::<u8>::empty() + opening =~= opening);
    if emit_opening(sink, trusted, authority.port).is_none() {
        return None;
    }
    if emit_fields(sink, headers, Ghost(opening)).is_none() {
        return None;
    }
    if emit_forwarding(sink, forwarding, Ghost(fields)).is_none() {
        return None;
    }
    if emit_framing(sink, framing, Ghost(forwarded)).is_none() {
        return None;
    }
    emit_closing(sink, Ghost(framed))
}

} // verus!
