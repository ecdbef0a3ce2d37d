//! Canonical head from validated wrapper values and one table of lines.

use vstd::prelude::*;
use crate::body_framing::CONTENT_LENGTH_LIMIT;
use crate::canonical_head::{
    FieldRule, HEAD_LIMIT, HeadInput, WireHost, append_decimal, append_endpoint,
    append_field_line, append_line_break, append_request_line, are_head_fields, are_removed_names,
    are_wire_values, closing_texts, constructed, crlf, decimal_len, effective_host, endpoint_len,
    endpoint_text, field_rule_text, field_text, forwarding_texts, framing_texts, head_texts,
    is_form_fitting, is_head, is_head_field, is_head_field_text, is_lower_token_text,
    is_path_fitting, is_plain_wire_value, is_wire_value, kept_texts, lemma_fixed_lengths,
    lemma_head_size, lemma_terminated_push, opening_texts, read_effective_host, request_text,
    terminated,
};
use crate::decimal::digits_of;
use crate::header::FIELD_MAX;
use crate::request_line::MAX_METHOD_BYTES;
use crate::text::{append, utf8};
use crate::types::{
    BodyFraming, CanonicalRequestHead, EffectiveAuthority, Fault, FieldModel, ForwardingResult,
    HeaderField, NormalizedTarget, PolyguardError, Result, SanitizedHeaders, fields_of,
    limit_exceeded, outcome,
};

verus! {

/// A head whose parts have all been validated.
struct ValidatedHead<'a> {
    method: &'a [u8],
    target: &'a [u8],
    host: WireHost<'a>,
    port: Option<u16>,
    fields: &'a Vec<HeaderField>,
    forwarding: &'a ForwardingResult,
    framing: BodyFraming,
}

/// One line of a head.
enum WireLine<'a> {
    Request(&'a [u8], &'a [u8]),
    Host(WireHost<'a>, Option<u16>),
    Bytes(&'a [u8], &'a [u8]),
    Decimal(&'a [u8], u64),
    Empty,
}

impl<'a> WireLine<'a> {
    spec fn text(self) -> Seq<u8> {
        match self {
            WireLine::Request(method, target) => request_text(method@, target@),
            WireLine::Host(host, port) => field_text(utf8("Host"@), endpoint_text(host@, port)),
            WireLine::Bytes(name, value) => field_text(name@, value@),
            WireLine::Decimal(name, value) => field_text(name@, digits_of(value as nat)),
            WireLine::Empty => Seq::empty(),
        }
    }

    /// Whether the line is short enough for its size to be computed.
    spec fn small(self) -> bool {
        match self {
            WireLine::Request(method, target) => method@.len() <= 100 && target@.len() <= 10_000,
            WireLine::Host(host, port) => host@.text.len() < 300,
            WireLine::Bytes(name, value) => name@.len() <= 200 && value@.len() <= 10_000,
            WireLine::Decimal(name, value) => name@.len() <= 200,
            WireLine::Empty => true,
        }
    }

    fn encoded_len(&self) -> (len: usize)
        requires
            self.small(),
        ensures
            len == self.text().len() + 2,
            len < 20_000,
    {
        proof {
            lemma_fixed_lengths();
        }
        match self {
            WireLine::Request(method, target) => method.len() + 1 + target.len() + 11,
            WireLine::Host(host, port) => endpoint_len(host, *port) + 8,
            WireLine::Bytes(name, value) => name.len() + 2 + value.len() + 2,
            WireLine::Decimal(name, value) => name.len() + 2 + decimal_len(*value) + 2,
            WireLine::Empty => 2,
        }
    }

    fn append_to(&self, out: &mut Vec<u8>)
        ensures
            final(out)@ == old(out)@ + self.text() + crlf(),
    {
        match self {
            WireLine::Request(method, target) => {
                append_request_line(out, *method, *target);
            },
            WireLine::Host(host, port) => {
                append(out, "Host".as_bytes());
                append(out, ": ".as_bytes());
                append_endpoint(out, host, *port);
                append_line_break(out);
            },
            WireLine::Bytes(name, value) => {
                append_field_line(out, *name, *value);
            },
            WireLine::Decimal(name, value) => {
                append(out, *name);
                append(out, ": ".as_bytes());
                append_decimal(out, *value);
                append_line_break(out);
            },
            WireLine::Empty => {
                append_line_break(out);
            },
        }
        assert(out@ =~= old(out)@ + self.text() + crlf());
    }
}

spec fn texts(lines: Seq<WireLine>) -> Seq<Seq<u8>> {
    lines.map_values(|line: WireLine| line.text())
}

/// Construct a canonical head from fully validated wrapper values and one line recipe.
#[verifier::spinoff_prover]
#[verifier::rlimit(80)]
pub fn construct_canonical_upstream_head(
    method: &str,
    target: &NormalizedTarget,
    authority: &EffectiveAuthority,
    headers: &SanitizedHeaders,
    framing: &BodyFraming,
    forwarding: &ForwardingResult,
) -> (result: Result<CanonicalRequestHead>)
    ensures
        outcome(result) == constructed(
            (HeadInput {
                method: utf8(method@),
                target: target@,
                authority: authority@,
                headers: headers@,
                framing: *framing,
                forwarding: forwarding@,
            }),
            false,
        ),
{
    let ghost input = HeadInput {
        method: utf8(method@),
        target: target@,
        authority: authority@,
        headers: headers@,
        framing: *framing,
        forwarding: forwarding@,
    };
    let head: ValidatedHead = validate(method, target, authority, headers, framing, forwarding)?;
    proof {
        lemma_head_size(input, false);
    }
    let lines: Vec<WireLine> = head.lines(Ghost(input));
    let serialized_len: usize = encoded_size(&lines);
    if serialized_len > HEAD_LIMIT {
        return Err(limit_exceeded("canonical_head_bytes", HEAD_LIMIT, serialized_len));
    }
    let mut bytes: Vec<u8> = Vec::new();
    let mut index: usize = 0;
    assert(texts(lines@).take(0) =~= Seq::<Seq<u8>>::empty());
    while index < lines.len()
        invariant
            index <= lines@.len(),
            bytes@ == terminated(texts(lines@).take(index as int)),
        decreases lines@.len() - index,
    {
        lines[index].append_to(&mut bytes);
        proof {
            let done = texts(lines@).take(index as int);
            assert(texts(lines@).take(index + 1) =~= done.push(lines@[index as int].text()));
            lemma_terminated_push(done, lines@[index as int].text());
        }
        index += 1;
    }
    assert(texts(lines@).take(index as int) =~= texts(lines@));
    Ok(CanonicalRequestHead { bytes, body_framing: *framing })
}

/// How many bytes the lines take.
fn encoded_size(lines: &Vec<WireLine>) -> (size: usize)
    requires
        lines@.len() <= 200,
        forall|k: int| 0 <= k < lines@.len() ==> (#[trigger] lines@[k]).small(),
    ensures
        size == terminated(texts(lines@)).len(),
{
    let mut size: usize = 0;
    let mut index: usize = 0;
    assert(texts(lines@).take(0) =~= Seq::<Seq<u8>>::empty());
    while index < lines.len()
        invariant
            index <= lines@.len() <= 200,
            forall|k: int| 0 <= k < lines@.len() ==> (#[trigger] lines@[k]).small(),
            size == terminated(texts(lines@).take(index as int)).len(),
            size <= 20_000 * index,
        decreases lines@.len() - index,
    {
        proof {
            let done = texts(lines@).take(index as int);
            assert(texts(lines@).take(index + 1) =~= done.push(lines@[index as int].text()));
            lemma_terminated_push(done, lines@[index as int].text());
        }
        size = size.saturating_add(lines[index].encoded_len());
        index += 1;
    }
    assert(texts(lines@).take(index as int) =~= texts(lines@));
    size
}

/// Validates every part of a head.
fn validate<'a>(
    method: &'a str,
    target: &'a NormalizedTarget,
    authority: &'a EffectiveAuthority,
    headers: &'a SanitizedHeaders,
    framing: &'a BodyFraming,
    forwarding: &'a ForwardingResult,
) -> (result: Result<ValidatedHead<'a>>)
    ensures
        ({
            let input = HeadInput {
                method: utf8(method@),
                target: target@,
                authority: authority@,
                headers: headers@,
                framing: *framing,
                forwarding: forwarding@,
            };
            match result {
                Ok(head) => is_head(input, false) && head.stands_for(input),
                Err(error) => !is_head(input, false) && error@ == Fault::SerializationInvariant,
            }
        }),
{
    if !is_lower_token_text(method.as_bytes(), MAX_METHOD_BYTES) {
        return Err(PolyguardError::SerializationInvariant);
    }
    let host: WireHost<'a> = match read_effective_host(authority) {
        Some(host) => host,
        None => return Err(PolyguardError::SerializationInvariant),
    };
    let framed: bool = match framing {
        BodyFraming::ContentLength(length) => *length <= CONTENT_LENGTH_LIMIT,
        _ => true,
    };
    if !is_form_fitting(target, authority, &host, false) || !is_path_fitting(target, false)
        || !are_end_to_end(headers) || !are_forwarding_values(forwarding) || !framed {
        return Err(PolyguardError::SerializationInvariant);
    }
    Ok(
        ValidatedHead {
            method: method.as_bytes(),
            target: target.path_and_query.as_str().as_bytes(),
            host,
            port: authority.port,
            fields: &headers.fields,
            forwarding,
            framing: *framing,
        },
    )
}

fn are_end_to_end(headers: &SanitizedHeaders) -> (valid: bool)
    ensures
        valid == are_head_fields(headers@),
{
    if headers.fields.len() > FIELD_MAX {
        return false;
    }
    let mut index: usize = 0;
    while index < headers.fields.len()
        invariant
            index <= headers.fields@.len(),
            forall|i: int| 0 <= i < index ==> is_head_field(#[trigger] headers@.fields[i]),
        decreases headers.fields@.len() - index,
    {
        assert(headers@.fields[index as int] == headers.fields@[index as int]@);
        if !is_head_field_text(&headers.fields[index]) {
            return false;
        }
        index += 1;
    }
    are_removed_names(&headers.removed_names)
}

fn are_forwarding_values(forwarding: &ForwardingResult) -> (valid: bool)
    ensures
        valid == are_wire_values(forwarding@, false),
{
    let values: [&str; 4] = [
        forwarding.forwarded.as_str(),
        forwarding.x_forwarded_for.as_str(),
        forwarding.x_forwarded_proto.as_str(),
        forwarding.x_forwarded_host.as_str(),
    ];
    let mut index: usize = 0;
    while index < 4
        invariant
            index <= 4,
            values@[0]@ == forwarding.forwarded@,
            values@[1]@ == forwarding.x_forwarded_for@,
            values@[2]@ == forwarding.x_forwarded_proto@,
            values@[3]@ == forwarding.x_forwarded_host@,
            forall|k: int| 0 <= k < index ==> is_wire_value(utf8((#[trigger] values@[k])@), false),
        decreases 4 - index,
    {
        if !is_plain_wire_value(values[index].as_bytes()) {
            return false;
        }
        index += 1;
    }
    assert(is_wire_value(utf8(values@[0]@), false));
    assert(is_wire_value(utf8(values@[1]@), false));
    assert(is_wire_value(utf8(values@[2]@), false));
    assert(is_wire_value(utf8(values@[3]@), false));
    true
}

impl<'a> ValidatedHead<'a> {
    spec fn stands_for(self, input: HeadInput) -> bool {
        &&& self.method@ == input.method
        &&& self.target@ == input.target.path_and_query
        &&& effective_host(input.authority) == Some(self.host@)
        &&& self.port == input.authority.port
        &&& fields_of(self.fields@) == input.headers.fields
        &&& self.forwarding@ == input.forwarding
        &&& self.framing == input.framing
    }

    /// The lines of the head: the one table of their order.
    fn lines(&self, Ghost(input): Ghost<HeadInput>) -> (lines: Vec<WireLine<'a>>)
        requires
            is_head(input, false),
            self.stands_for(input),
            effective_host(input.authority).unwrap().text.len() < 300,
        ensures
            texts(lines@) == head_texts(input),
            lines@.len() <= 200,
            forall|k: int| 0 <= k < lines@.len() ==> (#[trigger] lines@[k]).small(),
    {
        let mut lines: Vec<WireLine<'a>> = Vec::new();
        lines.push(WireLine::Request(self.method, self.target));
        lines.push(WireLine::Host(self.host, self.port));
        assert(texts(lines@) =~= opening_texts(input));
        self.push_kept(&mut lines, Ghost(input));
        self.push_forwarding(&mut lines, Ghost(input));
        self.push_closing(&mut lines);
        assert(texts(lines@) =~= head_texts(input));
        lines
    }

    /// The lines of the fields that are passed on.
    fn push_kept(&self, lines: &mut Vec<WireLine<'a>>, Ghost(input): Ghost<HeadInput>)
        requires
            fields_of(self.fields@) == input.headers.fields,
            are_head_fields(input.headers),
            forall|k: int| 0 <= k < old(lines)@.len() ==> (#[trigger] old(lines)@[k]).small(),
        ensures
            texts(final(lines)@) == texts(old(lines)@) + kept_texts(input.headers.fields),
            final(lines)@.len() <= old(lines)@.len() + FIELD_MAX,
            forall|k: int| 0 <= k < final(lines)@.len() ==> (#[trigger] final(lines)@[k]).small(),
    {
        let ghost fields = input.headers.fields;
        let ghost first = texts(lines@);
        let mut index: usize = 0;
        assert(fields.take(0) =~= Seq::<FieldModel>::empty());
        assert(texts(lines@) =~= first + kept_texts(fields.take(0)));
        while index < self.fields.len()
            invariant
                index <= self.fields@.len() <= FIELD_MAX,
                fields == fields_of(self.fields@),
                fields == input.headers.fields,
                are_head_fields(input.headers),
                texts(lines@) == first + kept_texts(fields.take(index as int)),
                lines@.len() <= old(lines)@.len() + index,
                forall|k: int| 0 <= k < lines@.len() ==> (#[trigger] lines@[k]).small(),
            decreases self.fields@.len() - index,
        {
            let field: &'a HeaderField = &self.fields[index];
            let ghost before = texts(lines@);
            proof {
                assert(fields[index as int] == field@);
                assert(is_head_field(fields[index as int]));
                assert(fields.take(index + 1).drop_last() =~= fields.take(index as int));
            }
            if matches!(field_rule_text(field.name.as_str()), FieldRule::Keep) {
                lines.push(
                    WireLine::Bytes(field.name.as_str().as_bytes(), field.value.as_slice()),
                );
                assert(texts(lines@) =~= before.push(field_text(field@.name, field@.value)));
                assert(texts(lines@) =~= first + kept_texts(fields.take(index + 1)));
            }
            index += 1;
        }
        assert(fields.take(index as int) =~= fields);
    }

    fn push_forwarding(&self, lines: &mut Vec<WireLine<'a>>, Ghost(input): Ghost<HeadInput>)
        requires
            self.forwarding@ == input.forwarding,
            are_wire_values(input.forwarding, false),
            forall|k: int| 0 <= k < old(lines)@.len() ==> (#[trigger] old(lines)@[k]).small(),
        ensures
            texts(final(lines)@) == texts(old(lines)@) + forwarding_texts(input.forwarding),
            final(lines)@.len() == old(lines)@.len() + 4,
            forall|k: int| 0 <= k < final(lines)@.len() ==> (#[trigger] final(lines)@[k]).small(),
    {
        proof {
            lemma_fixed_lengths();
        }
        lines.push(
            WireLine::Bytes("Forwarded".as_bytes(), self.forwarding.forwarded.as_str().as_bytes()),
        );
        lines.push(
            WireLine::Bytes(
                "X-Forwarded-For".as_bytes(),
                self.forwarding.x_forwarded_for.as_str().as_bytes(),
            ),
        );
        lines.push(
            WireLine::Bytes(
                "X-Forwarded-Proto".as_bytes(),
                self.forwarding.x_forwarded_proto.as_str().as_bytes(),
            ),
        );
        lines.push(
            WireLine::Bytes(
                "X-Forwarded-Host".as_bytes(),
                self.forwarding.x_forwarded_host.as_str().as_bytes(),
            ),
        );
        assert(texts(lines@) =~= texts(old(lines)@) + forwarding_texts(input.forwarding));
    }

    fn push_closing(&self, lines: &mut Vec<WireLine<'a>>)
        requires
            forall|k: int| 0 <= k < old(lines)@.len() ==> (#[trigger] old(lines)@[k]).small(),
        ensures
            texts(final(lines)@) == texts(old(lines)@) + framing_texts(self.framing)
                + closing_texts(),
            final(lines)@.len() <= old(lines)@.len() + 3,
            forall|k: int| 0 <= k < final(lines)@.len() ==> (#[trigger] final(lines)@[k]).small(),
    {
        proof {
            lemma_fixed_lengths();
        }
        match self.framing {
            BodyFraming::NoBody => {},
            BodyFraming::ContentLength(length) => {
                lines.push(WireLine::Decimal("Content-Length".as_bytes(), length));
            },
            BodyFraming::Chunked => {
                lines.push(WireLine::Bytes("Transfer-Encoding".as_bytes(), "chunked".as_bytes()));
            },
        }
        assert(texts(lines@) =~= texts(old(lines)@) + framing_texts(self.framing));
        lines.push(WireLine::Bytes("Connection".as_bytes(), "close".as_bytes()));
        lines.push(WireLine::Empty);
        assert(texts(lines@) =~= texts(old(lines)@) + framing_texts(self.framing)
            + closing_texts());
    }
}

} // verus!
