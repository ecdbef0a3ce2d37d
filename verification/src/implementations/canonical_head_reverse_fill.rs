//! Canonical head by filling one image from tail to head.

use vstd::prelude::*;
use crate::body_framing::CONTENT_LENGTH_LIMIT;
use crate::canonical_head::{
    FieldRule, HEAD_LIMIT, HeadInput, WireHost, append_upper, are_head_fields, are_removed_names,
    closing_texts, constructed, crlf, decimal_len, effective_host, endpoint_len, endpoint_text,
    field_rule, field_rule_text, field_text, follows, forwarding_texts, framing_texts, head_bytes,
    is_form_fitting, is_head, is_head_field, is_head_field_text, is_lower_token_text,
    is_path_fitting, is_plain_wire_value, is_retained, kept_texts, lemma_fixed_lengths,
    lemma_head_parts, lemma_head_size, lemma_kept_step, lemma_kept_step_back, lemma_part_bytes,
    lemma_part_sizes, lemma_retain, lemma_retain_none, opening_texts, read_effective_host,
    request_text, terminated, uppered,
};
use crate::decimal::render_decimal;
use crate::header::FIELD_MAX;
use crate::request_line::MAX_METHOD_BYTES;
use crate::text::utf8;
use crate::types::{
    BodyFraming, CanonicalRequestHead, EffectiveAuthority, FieldModel, ForwardingResult,
    HeaderField, NormalizedTarget, PolyguardError, Result, SanitizedHeaders, fields_of,
    limit_exceeded, outcome,
};

verus! {

struct Validated<'a> {
    method: &'a [u8],
    route: &'a [u8],
    host: WireHost<'a>,
    port: Option<u16>,
    fields: &'a Vec<HeaderField>,
    retained: u128,
    forwarding: &'a ForwardingResult,
    framing: BodyFraming,
}

impl<'a> Validated<'a> {
    spec fn stands_for(self, input: HeadInput) -> bool {
        &&& self.method@ == input.method
        &&& self.route@ == input.target.path_and_query
        &&& effective_host(input.authority) == Some(self.host@)
        &&& self.port == input.authority.port
        &&& fields_of(self.fields@) == input.headers.fields
        &&& follows(self.retained, input.headers.fields, input.headers.fields.len() as int)
        &&& self.forwarding@ == input.forwarding
        &&& self.framing == input.framing
    }

    /// How long the head is.
    fn wire_len(&self, Ghost(input): Ghost<HeadInput>) -> (len: usize)
        requires
            is_head(input, false),
            self.stands_for(input),
        ensures
            len == head_bytes(input).len(),
    {
        proof {
            lemma_head_size(input, false);
            lemma_head_parts(input);
            lemma_part_sizes(input);
        }
        let opening: usize = self.method.len() + self.route.len() + endpoint_len(
            &self.host,
            self.port,
        ) + 20;
        let retained: usize = self.retained_len(Ghost(input));
        let forwarding: usize = self.forwarding.forwarded.as_str().as_bytes().len()
            + self.forwarding.x_forwarded_for.as_str().as_bytes().len()
            + self.forwarding.x_forwarded_proto.as_str().as_bytes().len()
            + self.forwarding.x_forwarded_host.as_str().as_bytes().len() + 73;
        let framing: usize = match self.framing {
            BodyFraming::NoBody => 0,
            BodyFraming::ContentLength(value) => decimal_len(value) + 18,
            BodyFraming::Chunked => 28,
        };
        opening + retained + forwarding + framing + 21
    }

    /// How many bytes the fields whose bits are set take.
    fn retained_len(&self, Ghost(input): Ghost<HeadInput>) -> (len: usize)
        requires
            is_head(input, false),
            self.stands_for(input),
        ensures
            len == terminated(kept_texts(input.headers.fields)).len(),
            len <= 8324 * 128,
    {
        let ghost fields = input.headers.fields;
        let mut len: usize = 0;
        let mut index: usize = 0;
        assert(fields.take(0) =~= Seq::<FieldModel>::empty());
        while index < self.fields.len()
            invariant
                index <= self.fields@.len() <= FIELD_MAX,
                fields == input.headers.fields,
                self.stands_for(input),
                is_head(input, false),
                len == terminated(kept_texts(fields.take(index as int))).len(),
                len <= 8324 * index,
            decreases self.fields@.len() - index,
        {
            let field: &HeaderField = &self.fields[index];
            proof {
                assert(fields[index as int] == field@);
                assert(is_head_field(fields[index as int]));
                lemma_kept_step(fields, index as int);
                lemma_fixed_lengths();
                assert(is_retained(self.retained, index as int) == (field_rule(field@.name)
                    == FieldRule::Keep));
            }
            if self.retained & (1u128 << (index as u32)) != 0 {
                len = len + field.name.as_str().as_bytes().len() + 2 + field.value.len() + 2;
            }
            index += 1;
        }
        assert(fields.take(index as int) =~= fields);
        len
    }
}

/// An image that is filled from its end.
struct ReverseWriter {
    bytes: Vec<u8>,
    cursor: usize,
}

impl ReverseWriter {
    spec fn well_formed(self) -> bool {
        self.cursor <= self.bytes@.len()
    }

    /// What has been written.
    spec fn tail(self) -> Seq<u8> {
        self.bytes@.skip(self.cursor as int)
    }

    fn new(size: usize) -> (writer: Self)
        ensures
            writer.well_formed(),
            writer.cursor == size,
            writer.tail() == Seq::<u8>::empty(),
    {
        let writer = ReverseWriter { bytes: vec![0u8; size], cursor: size };
        assert(writer.tail() =~= Seq::<u8>::empty());
        writer
    }

    /// Puts bytes before those that have been written.
    fn prepend(&mut self, value: &[u8])
        requires
            old(self).well_formed(),
            value@.len() <= old(self).cursor,
        ensures
            final(self).well_formed(),
            final(self).cursor == old(self).cursor - value@.len(),
            final(self).tail() == value@ + old(self).tail(),
    {
        let start: usize = self.cursor - value.len();
        let mut index: usize = 0;
        while index < value.len()
            invariant
                index <= value@.len(),
                old(self).well_formed(),
                self.bytes@.len() == old(self).bytes@.len(),
                self.cursor == old(self).cursor,
                start == self.cursor - value@.len(),
                forall|k: int| self.cursor <= k < self.bytes@.len() ==> self.bytes@[k] == old(
                    self,
                ).bytes@[k],
                forall|k: int| 0 <= k < index ==> self.bytes@[start + k] == value@[k],
            decreases value@.len() - index,
        {
            self.bytes.set(start + index, value[index]);
            index += 1;
        }
        self.cursor = start;
        assert(self.tail() =~= value@ + old(self).tail());
    }

    fn prepend_field(&mut self, name: &[u8], value: &[u8])
        requires
            old(self).well_formed(),
            field_text(name@, value@).len() + 2 <= old(self).cursor,
        ensures
            final(self).well_formed(),
            final(self).cursor == old(self).cursor - field_text(name@, value@).len() - 2,
            final(self).tail() == field_text(name@, value@) + crlf() + old(self).tail(),
    {
        self.prepend_line_break();
        self.prepend(value);
        self.prepend(": ".as_bytes());
        self.prepend(name);
        assert(self.tail() =~= field_text(name@, value@) + crlf() + old(self).tail());
    }

    fn prepend_line_break(&mut self)
        requires
            old(self).well_formed(),
            2 <= old(self).cursor,
        ensures
            final(self).well_formed(),
            final(self).cursor == old(self).cursor - 2,
            final(self).tail() == crlf() + old(self).tail(),
    {
        let line_break: [u8; 2] = ['\r' as u8, '\n' as u8];
        self.prepend(line_break.as_slice());
        assert(line_break@ =~= crlf());
    }

    fn prepend_host(&mut self, host: &WireHost, port: Option<u16>)
        requires
            old(self).well_formed(),
            field_text(utf8("Host"@), endpoint_text(host@, port)).len() + 2 <= old(self).cursor,
        ensures
            final(self).well_formed(),
            final(self).cursor == old(self).cursor - field_text(
                utf8("Host"@),
                endpoint_text(host@, port),
            ).len() - 2,
            final(self).tail() == field_text(utf8("Host"@), endpoint_text(host@, port)) + crlf()
                + old(self).tail(),
    {
        self.prepend_line_break();
        if let Some(number) = port {
            let digits: Vec<u8> = render_decimal(number as u64);
            self.prepend(digits.as_slice());
            let colon: [u8; 1] = [':' as u8];
            self.prepend(colon.as_slice());
            assert(colon@ =~= seq![':' as u8]);
        }
        if host.is_v6 {
            let close: [u8; 1] = [']' as u8];
            self.prepend(close.as_slice());
            assert(close@ =~= seq![']' as u8]);
        }
        self.prepend(host.text);
        if host.is_v6 {
            let open: [u8; 1] = ['[' as u8];
            self.prepend(open.as_slice());
            assert(open@ =~= seq!['[' as u8]);
        }
        assert(self.tail() =~= endpoint_text(host@, port) + crlf() + old(self).tail());
        self.prepend(": ".as_bytes());
        self.prepend("Host".as_bytes());
        assert(self.tail() =~= field_text(utf8("Host"@), endpoint_text(host@, port)) + crlf() + old(
            self,
        ).tail());
    }

    fn prepend_request(&mut self, method: &[u8], route: &[u8])
        requires
            old(self).well_formed(),
            request_text(method@, route@).len() + 2 <= old(self).cursor,
        ensures
            final(self).well_formed(),
            final(self).cursor == old(self).cursor - request_text(method@, route@).len() - 2,
            final(self).tail() == request_text(method@, route@) + crlf() + old(self).tail(),
    {
        self.prepend_line_break();
        self.prepend(" HTTP/1.1".as_bytes());
        self.prepend(route);
        let space: [u8; 1] = [' ' as u8];
        self.prepend(space.as_slice());
        assert(space@ =~= seq![' ' as u8]);
        let mut upper: Vec<u8> = Vec::new();
        append_upper(&mut upper, method);
        assert(upper@ =~= uppered(method@));
        self.prepend(upper.as_slice());
        assert(self.tail() =~= request_text(method@, route@) + crlf() + old(self).tail());
    }

    fn finish(self) -> (bytes: Vec<u8>)
        requires
            self.cursor == 0,
        ensures
            bytes@ == self.tail(),
    {
        assert(self.tail() =~= self.bytes@);
        self.bytes
    }
}

/// Validate every model, then fill one exact-size wire image from tail to head.
#[verifier::spinoff_prover]
#[verifier::rlimit(80)]
pub fn construct_canonical_upstream_head(
    method: &str,
    target: &NormalizedTarget,
    authority: &EffectiveAuthority,
    headers: &SanitizedHeaders,
    framing: &BodyFraming,
    forwarding: &ForwardingResult,
) -> (result: Result<CanonicalRequestHead>)
    ensures
        outcome(result) == constructed(
            (HeadInput {
                method: utf8(method@),
                target: target@,
                authority: authority@,
                headers: headers@,
                framing: *framing,
                forwarding: forwarding@,
            }),
            false,
        ),
{
    let ghost input = HeadInput {
        method: utf8(method@),
        target: target@,
        authority: authority@,
        headers: headers@,
        framing: *framing,
        forwarding: forwarding@,
    };
    let trusted: Validated = match validate(
        method,
        target,
        authority,
        headers,
        framing,
        forwarding,
    ) {
        Some(trusted) => trusted,
        None => return Err(PolyguardError::SerializationInvariant),
    };
    let output_len: usize = trusted.wire_len(Ghost(input));
    if output_len > HEAD_LIMIT {
        return Err(limit_exceeded("canonical_head_bytes", HEAD_LIMIT, output_len));
    }
    let mut writer: ReverseWriter = ReverseWriter::new(output_len);
    fill_end(&mut writer, &trusted, Ghost(input));
    fill_retained(&mut writer, &trusted, Ghost(input));
    fill_opening(&mut writer, &trusted, Ghost(input));
    let bytes: Vec<u8> = writer.finish();
    Ok(CanonicalRequestHead { bytes, body_framing: *framing })
}

/// What stands after the fields that are passed on.
spec fn end_bytes(input: HeadInput) -> Seq<u8> {
    terminated(forwarding_texts(input.forwarding)) + terminated(framing_texts(input.framing))
        + terminated(closing_texts())
}

fn fill_end(writer: &mut ReverseWriter, trusted: &Validated, Ghost(input): Ghost<HeadInput>)
    requires
        old(writer).well_formed(),
        old(writer).cursor == head_bytes(input).len(),
        old(writer).tail() == Seq::<u8>::empty(),
        trusted.stands_for(input),
    ensures
        final(writer).well_formed(),
        final(writer).cursor == terminated(opening_texts(input)).len() + terminated(
            kept_texts(input.headers.fields),
        ).len(),
        final(writer).tail() == end_bytes(input),
{
    proof {
        lemma_head_parts(input);
    }
    fill_closing(writer, trusted.framing, Ghost(input));
    fill_forwarding(writer, trusted.forwarding, Ghost(input));
    assert(writer.tail() =~= end_bytes(input));
}

/// The lines on the body and at the end.
fn fill_closing(writer: &mut ReverseWriter, framing: BodyFraming, Ghost(input): Ghost<HeadInput>)
    requires
        old(writer).well_formed(),
        framing == input.framing,
        old(writer).cursor >= terminated(framing_texts(framing)).len() + terminated(
            closing_texts(),
        ).len(),
        old(writer).tail() == Seq::<u8>::empty(),
    ensures
        final(writer).well_formed(),
        final(writer).cursor == old(writer).cursor - terminated(framing_texts(framing)).len()
            - terminated(closing_texts()).len(),
        final(writer).tail() == terminated(framing_texts(framing)) + terminated(closing_texts()),
{
    proof {
        lemma_part_bytes(input);
    }
    writer.prepend_line_break();
    writer.prepend_field("Connection".as_bytes(), "close".as_bytes());
    assert(writer.tail() =~= terminated(closing_texts()));
    match framing {
        BodyFraming::NoBody => {},
        BodyFraming::ContentLength(value) => {
            let digits: Vec<u8> = render_decimal(value);
            writer.prepend_field("Content-Length".as_bytes(), digits.as_slice());
        },
        BodyFraming::Chunked => {
            writer.prepend_field("Transfer-Encoding".as_bytes(), "chunked".as_bytes());
        },
    }
    assert(writer.tail() =~= terminated(framing_texts(framing)) + terminated(closing_texts()));
}

/// The lines of the forwarding fields.
fn fill_forwarding(
    writer: &mut ReverseWriter,
    forwarding: &ForwardingResult,
    Ghost(input): Ghost<HeadInput>,
)
    requires
        old(writer).well_formed(),
        forwarding@ == input.forwarding,
        old(writer).cursor >= terminated(forwarding_texts(input.forwarding)).len(),
    ensures
        final(writer).well_formed(),
        final(writer).cursor == old(writer).cursor - terminated(
            forwarding_texts(input.forwarding),
        ).len(),
        final(writer).tail() == terminated(forwarding_texts(input.forwarding)) + old(writer).tail(),
{
    proof {
        lemma_part_bytes(input);
    }
    writer.prepend_field(
        "X-Forwarded-Host".as_bytes(),
        forwarding.x_forwarded_host.as_str().as_bytes(),
    );
    writer.prepend_field(
        "X-Forwarded-Proto".as_bytes(),
        forwarding.x_forwarded_proto.as_str().as_bytes(),
    );
    writer.prepend_field(
        "X-Forwarded-For".as_bytes(),
        forwarding.x_forwarded_for.as_str().as_bytes(),
    );
    writer.prepend_field("Forwarded".as_bytes(), forwarding.forwarded.as_str().as_bytes());
    assert(writer.tail() =~= terminated(forwarding_texts(input.forwarding)) + old(writer).tail());
}

fn fill_retained(writer: &mut ReverseWriter, trusted: &Validated, Ghost(input): Ghost<HeadInput>)
    requires
        old(writer).well_formed(),
        old(writer).cursor == terminated(opening_texts(input)).len() + terminated(
            kept_texts(input.headers.fields),
        ).len(),
        old(writer).tail() == end_bytes(input),
        input.headers.fields.len() <= FIELD_MAX,
        trusted.stands_for(input),
    ensures
        final(writer).well_formed(),
        final(writer).cursor == terminated(opening_texts(input)).len(),
        final(writer).tail() == terminated(kept_texts(input.headers.fields)) + end_bytes(input),
{
    let ghost fields = input.headers.fields;
    let ghost opening = terminated(opening_texts(input)).len();
    let mut index: usize = trusted.fields.len();
    proof {
        assert(fields.skip(index as int) =~= Seq::<FieldModel>::empty());
        assert(fields.take(index as int) =~= fields);
        assert(writer.tail() =~= terminated(kept_texts(fields.skip(index as int))) + end_bytes(
            input,
        ));
    }
    while index > 0
        invariant
            index <= trusted.fields@.len() <= FIELD_MAX,
            fields == input.headers.fields,
            trusted.stands_for(input),
            writer.well_formed(),
            writer.cursor == opening + terminated(kept_texts(fields.take(index as int))).len(),
            writer.tail() == terminated(kept_texts(fields.skip(index as int))) + end_bytes(input),
        decreases index,
    {
        index -= 1;
        let field: &HeaderField = &trusted.fields[index];
        proof {
            assert(fields[index as int] == field@);
            lemma_kept_step(fields, index as int);
            lemma_kept_step_back(fields, index as int);
            assert(is_retained(trusted.retained, index as int) == (field_rule(field@.name)
                == FieldRule::Keep));
        }
        if trusted.retained & (1u128 << (index as u32)) != 0 {
            writer.prepend_field(field.name.as_str().as_bytes(), field.value.as_slice());
        }
        assert(writer.tail() =~= terminated(kept_texts(fields.skip(index as int))) + end_bytes(
            input,
        ));
    }
    proof {
        assert(fields.take(0) =~= Seq::<FieldModel>::empty());
        assert(fields.skip(0) =~= fields);
        assert(terminated(kept_texts(fields.take(0))).len() == 0);
    }
}

#[verifier::spinoff_prover]
#[verifier::rlimit(80)]
fn fill_opening(writer: &mut ReverseWriter, trusted: &Validated, Ghost(input): Ghost<HeadInput>)
    requires
        old(writer).well_formed(),
        old(writer).cursor == terminated(opening_texts(input)).len(),
        old(writer).tail() == terminated(kept_texts(input.headers.fields)) + end_bytes(input),
        trusted.stands_for(input),
    ensures
        final(writer).well_formed(),
        final(writer).cursor == 0,
        final(writer).tail() == head_bytes(input),
{
    proof {
        lemma_head_parts(input);
        lemma_part_bytes(input);
    }
    writer.prepend_host(&trusted.host, trusted.port);
    writer.prepend_request(trusted.method, trusted.route);
    assert(writer.tail() =~= head_bytes(input));
}

/// Validates every part of a head.
fn validate<'a>(
    method: &'a str,
    target: &'a NormalizedTarget,
    authority: &'a EffectiveAuthority,
    headers: &'a SanitizedHeaders,
    framing: &'a BodyFraming,
    forwarding: &'a ForwardingResult,
) -> (validated: Option<Validated<'a>>)
    ensures
        ({
            let input = HeadInput {
                method: utf8(method@),
                target: target@,
                authority: authority@,
                headers: headers@,
                framing: *framing,
                forwarding: forwarding@,
            };
            match validated {
                Some(trusted) => is_head(input, false) && trusted.stands_for(input),
                None => !is_head(input, false),
            }
        }),
{
    let host: WireHost<'a> = match read_effective_host(authority) {
        Some(host) => host,
        None => return None,
    };
    let retained: u128 = match retain(headers) {
        Some(retained) => retained,
        None => return None,
    };
    if let BodyFraming::ContentLength(length) = framing {
        if *length > CONTENT_LENGTH_LIMIT {
            return None;
        }
    }
    if is_lower_token_text(method.as_bytes(), MAX_METHOD_BYTES) && is_form_fitting(
        target,
        authority,
        &host,
        false,
    ) && is_path_fitting(target, false) && is_plain_wire_value(
        forwarding.forwarded.as_str().as_bytes(),
    ) && is_plain_wire_value(forwarding.x_forwarded_for.as_str().as_bytes())
        && is_plain_wire_value(forwarding.x_forwarded_proto.as_str().as_bytes())
        && is_plain_wire_value(forwarding.x_forwarded_host.as_str().as_bytes()) {
        Some(
            Validated {
                method: method.as_bytes(),
                route: target.path_and_query.as_str().as_bytes(),
                host,
                port: authority.port,
                fields: &headers.fields,
                retained,
                forwarding,
                framing: *framing,
            },
        )
    } else {
        None
    }
}

/// The bits of the fields that are passed on, where every field is valid.
fn retain(headers: &SanitizedHeaders) -> (retained: Option<u128>)
    ensures
        match retained {
            Some(mask) => are_head_fields(headers@) && follows(
                mask,
                headers@.fields,
                headers@.fields.len() as int,
            ),
            None => !are_head_fields(headers@),
        },
{
    if headers.fields.len() > FIELD_MAX {
        return None;
    }
    let mut mask: u128 = 0;
    let mut index: usize = 0;
    proof {
        assert forall|i: int| 0 <= i < 128 implies !(#[trigger] is_retained(0u128, i)) by {
            lemma_retain_none(i as u32);
        }
    }
    while index < headers.fields.len()
        invariant
            index <= headers.fields@.len() <= FIELD_MAX,
            forall|i: int| 0 <= i < index ==> is_head_field(#[trigger] headers@.fields[i]),
            follows(mask, headers@.fields, index as int),
        decreases headers.fields@.len() - index,
    {
        let field: &HeaderField = &headers.fields[index];
        assert(headers@.fields[index as int] == field@);
        if !is_head_field_text(field) {
            return None;
        }
        if matches!(field_rule_text(field.name.as_str()), FieldRule::Keep) {
            let ghost before = mask;
            mask = mask | (1u128 << (index as u32));
            proof {
                assert forall|i: int| 0 <= i < 128 implies #[trigger] is_retained(mask, i) == (
                is_retained(before, i) || i == index) by {
                    lemma_retain(before, index as u32, i as u32);
                }
            }
        }
        index += 1;
    }
    if are_removed_names(&headers.removed_names) {
        Some(mask)
    } else {
        None
    }
}

} // verus!
