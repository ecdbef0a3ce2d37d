//! Canonical head in phases: validate, size, emit.

use vstd::prelude::*;
use crate::body_framing::CONTENT_LENGTH_LIMIT;
use crate::canonical_head::{
    FieldRule, HEAD_LIMIT, HeadInput, WireHost, append_closing, append_field_line,
    append_forwarding, append_opening, are_head_fields, are_removed_names, are_wire_values,
    constructed, decimal_len, effective_host, endpoint_len, field_rule_text, form_fits,
    framing_fits, head_bytes, head_too_long, is_form_fitting, is_head, is_head_field,
    is_head_field_text, is_lower_token, is_lower_token_text, is_path_fitting, is_plain_wire_value,
    kept_texts, lemma_fixed_lengths, lemma_head_parts, lemma_head_size, lemma_kept_step,
    lemma_part_sizes, opening_texts, path_fits, read_effective_host, terminated,
};
use crate::decimal::clamped;
use crate::header::FIELD_MAX;
use crate::request_line::MAX_METHOD_BYTES;
use crate::text::utf8;
use crate::types::{
    BodyFraming, CanonicalRequestHead, EffectiveAuthority, Fault, FieldModel, ForwardingResult,
    HeaderField, NormalizedTarget, PolyguardError, Result, SanitizedHeaders, limit_exceeded,
    outcome,
};

verus! {

struct SizeBudget {
    total: usize,
}

impl SizeBudget {
    fn new() -> (budget: Self)
        ensures
            budget.total == 0,
    {
        SizeBudget { total: 0 }
    }

    fn enlarge(&mut self, amount: usize)
        ensures
            final(self).total == clamped(old(self).total + amount),
    {
        self.total = self.total.saturating_add(amount);
    }

    fn finish(self) -> (result: Result<usize>)
        ensures
            match result {
                Ok(total) => total == self.total && total <= HEAD_LIMIT,
                Err(error) => self.total > HEAD_LIMIT && error@ == head_too_long(self.total as int),
            },
    {
        if self.total > HEAD_LIMIT {
            Err(limit_exceeded("canonical_head_bytes", HEAD_LIMIT, self.total))
        } else {
            Ok(self.total)
        }
    }
}

/// Validate, size, and serialize a canonical request head in independent phases.
#[verifier::spinoff_prover]
#[verifier::rlimit(80)]
pub fn construct_canonical_upstream_head(
    method: &str,
    target: &NormalizedTarget,
    authority: &EffectiveAuthority,
    headers: &SanitizedHeaders,
    framing: &BodyFraming,
    forwarding: &ForwardingResult,
) -> (result: Result<CanonicalRequestHead>)
    ensures
        outcome(result) == constructed(
            (HeadInput {
                method: utf8(method@),
                target: target@,
                authority: authority@,
                headers: headers@,
                framing: *framing,
                forwarding: forwarding@,
            }),
            false,
        ),
{
    let ghost input = HeadInput {
        method: utf8(method@),
        target: target@,
        authority: authority@,
        headers: headers@,
        framing: *framing,
        forwarding: forwarding@,
    };
    // Phase 1: make the entire public boundary trusted before allocating output.
    validate_method(method)?;
    let host: WireHost = validate_effective_authority(authority)?;
    validate_target(target, authority, &host)?;
    validate_headers(headers)?;
    validate_framing(framing)?;
    validate_forwarding(forwarding)?;
    assert(is_head(input, false));

    // Phase 2: compute the exact serialized size and enforce the inclusive limit.
    serialized_size(method, target, authority, &host, headers, framing, forwarding)?;

    // Phase 3: emit once, using the same closed rule table.
    let mut bytes: Vec<u8> = Vec::new();
    append_opening(
        &mut bytes,
        method.as_bytes(),
        target.path_and_query.as_str().as_bytes(),
        &host,
        authority.port,
    );
    emit_kept_fields(&mut bytes, headers);
    append_forwarding(&mut bytes, forwarding);
    append_closing(&mut bytes, framing);
    proof {
        lemma_head_parts(input);
        assert(bytes@ =~= head_bytes(input));
    }
    Ok(CanonicalRequestHead { bytes, body_framing: *framing })
}

fn validate_method(method: &str) -> (result: Result<()>)
    ensures
        result is Ok == is_lower_token(utf8(method@), MAX_METHOD_BYTES as int),
        result matches Err(error) ==> error@ == Fault::SerializationInvariant,
{
    if is_lower_token_text(method.as_bytes(), MAX_METHOD_BYTES) {
        Ok(())
    } else {
        Err(PolyguardError::SerializationInvariant)
    }
}

fn validate_effective_authority<'a>(authority: &'a EffectiveAuthority) -> (result: Result<
    WireHost<'a>,
>)
    ensures
        match result {
            Ok(host) => effective_host(authority@) == Some(host@),
            Err(error) => effective_host(authority@) is None && error@
                == Fault::SerializationInvariant,
        },
{
    match read_effective_host(authority) {
        Some(host) => Ok(host),
        None => Err(PolyguardError::SerializationInvariant),
    }
}

fn validate_target(
    target: &NormalizedTarget,
    authority: &EffectiveAuthority,
    host: &WireHost,
) -> (result: Result<()>)
    requires
        effective_host(authority@) == Some(host@),
    ensures
        result is Ok == (form_fits(target@, authority@, false) && path_fits(target@, false)),
        result matches Err(error) ==> error@ == Fault::SerializationInvariant,
{
    if is_form_fitting(target, authority, host, false) && is_path_fitting(target, false) {
        Ok(())
    } else {
        Err(PolyguardError::SerializationInvariant)
    }
}

fn validate_headers(headers: &SanitizedHeaders) -> (result: Result<()>)
    ensures
        result is Ok == are_head_fields(headers@),
        result matches Err(error) ==> error@ == Fault::SerializationInvariant,
{
    if headers.fields.len() > FIELD_MAX {
        return Err(PolyguardError::SerializationInvariant);
    }
    let mut index: usize = 0;
    while index < headers.fields.len()
        invariant
            index <= headers.fields@.len(),
            forall|i: int| 0 <= i < index ==> is_head_field(#[trigger] headers@.fields[i]),
        decreases headers.fields@.len() - index,
    {
        assert(headers@.fields[index as int] == headers.fields@[index as int]@);
        if !is_head_field_text(&headers.fields[index]) {
            return Err(PolyguardError::SerializationInvariant);
        }
        index += 1;
    }
    if are_removed_names(&headers.removed_names) {
        Ok(())
    } else {
        Err(PolyguardError::SerializationInvariant)
    }
}

fn validate_framing(framing: &BodyFraming) -> (result: Result<()>)
    ensures
        result is Ok == framing_fits(*framing),
        result matches Err(error) ==> error@ == Fault::SerializationInvariant,
{
    if let BodyFraming::ContentLength(length) = framing {
        if *length > CONTENT_LENGTH_LIMIT {
            return Err(PolyguardError::SerializationInvariant);
        }
    }
    Ok(())
}

fn validate_forwarding(forwarding: &ForwardingResult) -> (result: Result<()>)
    ensures
        result is Ok == are_wire_values(forwarding@, false),
        result matches Err(error) ==> error@ == Fault::SerializationInvariant,
{
    if is_plain_wire_value(forwarding.forwarded.as_str().as_bytes()) && is_plain_wire_value(
        forwarding.x_forwarded_for.as_str().as_bytes(),
    ) && is_plain_wire_value(forwarding.x_forwarded_proto.as_str().as_bytes())
        && is_plain_wire_value(forwarding.x_forwarded_host.as_str().as_bytes()) {
        Ok(())
    } else {
        Err(PolyguardError::SerializationInvariant)
    }
}

fn serialized_size(
    method: &str,
    target: &NormalizedTarget,
    authority: &EffectiveAuthority,
    host: &WireHost,
    headers: &SanitizedHeaders,
    framing: &BodyFraming,
    forwarding: &ForwardingResult,
) -> (result: Result<usize>)
    requires
        effective_host(authority@) == Some(host@),
        is_head(
            (HeadInput {
                method: utf8(method@),
                target: target@,
                authority: authority@,
                headers: headers@,
                framing: *framing,
                forwarding: forwarding@,
            }),
            false,
        ),
    ensures
        ({
            let size = head_bytes(
                HeadInput {
                    method: utf8(method@),
                    target: target@,
                    authority: authority@,
                    headers: headers@,
                    framing: *framing,
                    forwarding: forwarding@,
                },
            ).len();
            match result {
                Ok(total) => total == size && size <= HEAD_LIMIT,
                Err(error) => size > HEAD_LIMIT && error@ == head_too_long(size as int),
            }
        }),
{
    let ghost input = HeadInput {
        method: utf8(method@),
        target: target@,
        authority: authority@,
        headers: headers@,
        framing: *framing,
        forwarding: forwarding@,
    };
    proof {
        lemma_head_size(input, false);
        lemma_head_parts(input);
        lemma_part_sizes(input);
    }
    let mut size: SizeBudget = SizeBudget::new();
    size.enlarge(method.as_bytes().len() + target.path_and_query.as_str().as_bytes().len() + 12);
    size.enlarge(endpoint_len(host, authority.port) + 8);
    let ghost opening = terminated(opening_texts(input)).len();
    assert(size.total == opening);
    let mut index: usize = 0;
    assert(headers@.fields.take(0) =~= Seq::<FieldModel>::empty());
    while index < headers.fields.len()
        invariant
            index <= headers.fields@.len() <= FIELD_MAX,
            opening < 10_000,
            are_head_fields(headers@),
            size.total == opening + terminated(kept_texts(headers@.fields.take(index as int))).len(),
            size.total <= 10_000 + 8324 * index,
        decreases headers.fields@.len() - index,
    {
        let field: &HeaderField = &headers.fields[index];
        proof {
            assert(headers@.fields[index as int] == field@);
            assert(is_head_field(headers@.fields[index as int]));
            lemma_kept_step(headers@.fields, index as int);
            lemma_fixed_lengths();
        }
        if matches!(field_rule_text(field.name.as_str()), FieldRule::Keep) {
            size.enlarge(field.name.as_str().as_bytes().len() + 2 + field.value.len() + 2);
        }
        index += 1;
    }
    assert(headers@.fields.take(index as int) =~= headers@.fields);
    size.enlarge(
        forwarding.forwarded.as_str().as_bytes().len()
            + forwarding.x_forwarded_for.as_str().as_bytes().len()
            + forwarding.x_forwarded_proto.as_str().as_bytes().len()
            + forwarding.x_forwarded_host.as_str().as_bytes().len() + 73,
    );
    match framing {
        BodyFraming::NoBody => {},
        BodyFraming::ContentLength(length) => {
            size.enlarge(18 + decimal_len(*length));
        },
        BodyFraming::Chunked => {
            size.enlarge(28);
        },
    }
    size.enlarge(21);
    assert(size.total == head_bytes(input).len());
    size.finish()
}

fn emit_kept_fields(out: &mut Vec<u8>, headers: &SanitizedHeaders)
    ensures
        final(out)@ == old(out)@ + terminated(kept_texts(headers@.fields)),
{
    let mut index: usize = 0;
    assert(headers@.fields.take(0) =~= Seq::<FieldModel>::empty());
    assert(out@ =~= out@ + terminated(kept_texts(headers@.fields.take(0))));
    while index < headers.fields.len()
        invariant
            index <= headers.fields@.len(),
            out@ == old(out)@ + terminated(kept_texts(headers@.fields.take(index as int))),
        decreases headers.fields@.len() - index,
    {
        let field: &HeaderField = &headers.fields[index];
        proof {
            assert(headers@.fields[index as int] == field@);
            lemma_kept_step(headers@.fields, index as int);
        }
        if matches!(field_rule_text(field.name.as_str()), FieldRule::Keep) {
            append_field_line(out, field.name.as_str().as_bytes(), field.value.as_slice());
        }
        index += 1;
        assert(out@ =~= old(out)@ + terminated(kept_texts(headers@.fields.take(index as int))));
    }
    assert(headers@.fields.take(index as int) =~= headers@.fields);
}

} // verus!
