//! Canonical head by way of a compiled wire plan.

use vstd::prelude::*;
use crate::body_framing::CONTENT_LENGTH_LIMIT;
use crate::bytes::{ByteClass, all_in, is_field_byte, is_token, is_upper};
use crate::canonical_head::{
    FieldRule, HEAD_LIMIT, HeadInput, WireHost, append_closing, append_field_line,
    append_forwarding, append_opening, are_head_fields, are_removed_names, constructed,
    decimal_len, effective_host, endpoint_len, field_rule, field_rule_text, follows,
    has_edge_ows_bytes, head_bytes, is_form_fitting, is_head, is_head_field, is_lower_token,
    is_path_fitting, is_plain_wire_value, is_retained, kept_texts, lemma_fixed_lengths,
    lemma_head_parts, lemma_head_size, lemma_kept_step, lemma_part_sizes, lemma_retain,
    lemma_retain_none, read_effective_host, terminated,
};
use crate::header::{FIELD_MAX, NAME_MAX, VALUE_MAX};
use crate::request_line::MAX_METHOD_BYTES;
use crate::text::utf8;
use crate::types::{
    BodyFraming, CanonicalRequestHead, EffectiveAuthority, Fault, FieldModel, ForwardingResult,
    HeadModel, HeaderField, NormalizedTarget, PolyguardError, Result, SanitizedHeaders,
    limit_exceeded, outcome,
};

verus! {

const BYTE_TOKEN: u8 = 1;

const BYTE_FIELD_VALUE: u8 = 2;

const BYTE_UPPER: u8 = 4;

/// The flags of a byte.
spec fn rule_of(b: u8) -> u8 {
    flag(is_token(b), BYTE_TOKEN) | flag(is_field_byte(b), BYTE_FIELD_VALUE) | flag(
        is_upper(b),
        BYTE_UPPER,
    )
}

spec fn flag(set: bool, bit: u8) -> u8 {
    if set {
        bit
    } else {
        0
    }
}

proof fn lemma_flags(token: bool, value: bool, upper: bool, all: u8)
    by (bit_vector)
    requires
        all == (if token {
            1u8
        } else {
            0u8
        }) | (if value {
            2u8
        } else {
            0u8
        }) | (if upper {
            4u8
        } else {
            0u8
        }),
    ensures
        (all & 1u8 != 0) == token,
        (all & 2u8 != 0) == value,
        (all & 4u8 != 0) == upper,
{
}

/// The flags of all bytes.
struct ByteRules {
    table: Vec<u8>,
}

impl ByteRules {
    spec fn well_formed(self) -> bool {
        self.table@.len() == 256 && forall|b: int|
            0 <= b < 256 ==> #[trigger] self.table@[b] == rule_of(b as u8)
    }

    fn build() -> (rules: Self)
        ensures
            rules.well_formed(),
    {
        let mut table: Vec<u8> = Vec::new();
        let mut value: usize = 0;
        while value < 256
            invariant
                value <= 256,
                table@.len() == value,
                forall|b: int| 0 <= b < value ==> #[trigger] table@[b] == rule_of(b as u8),
            decreases 256 - value,
        {
            let byte: u8 = value as u8;
            let token: u8 = if is_token(byte) {
                BYTE_TOKEN
            } else {
                0
            };
            let field: u8 = if is_field_byte(byte) {
                BYTE_FIELD_VALUE
            } else {
                0
            };
            let upper: u8 = if is_upper(byte) {
                BYTE_UPPER
            } else {
                0
            };
            table.push(token | field | upper);
            value += 1;
        }
        ByteRules { table }
    }

    fn is_token(&self, b: u8) -> (set: bool)
        requires
            self.well_formed(),
        ensures
            set == ByteClass::Token.has(b),
    {
        proof {
            lemma_flags(is_token(b), is_field_byte(b), is_upper(b), rule_of(b));
        }
        self.table[b as usize] & BYTE_TOKEN != 0
    }

    fn is_field_value(&self, b: u8) -> (set: bool)
        requires
            self.well_formed(),
        ensures
            set == ByteClass::Field.has(b),
    {
        proof {
            lemma_flags(is_token(b), is_field_byte(b), is_upper(b), rule_of(b));
        }
        self.table[b as usize] & BYTE_FIELD_VALUE != 0
    }

    fn is_upper(&self, b: u8) -> (set: bool)
        requires
            self.well_formed(),
        ensures
            set == ByteClass::Upper.has(b),
    {
        proof {
            lemma_flags(is_token(b), is_field_byte(b), is_upper(b), rule_of(b));
        }
        self.table[b as usize] & BYTE_UPPER != 0
    }

    /// Whether the bytes are a token without upper-case letters.
    fn is_canonical(&self, s: &[u8], limit: usize) -> (valid: bool)
        requires
            self.well_formed(),
        ensures
            valid == is_lower_token(s@, limit as int),
    {
        if s.len() < 1 || s.len() > limit {
            return false;
        }
        let mut index: usize = 0;
        while index < s.len()
            invariant
                self.well_formed(),
                index <= s@.len(),
                forall|i: int|
                    0 <= i < index ==> ByteClass::Token.has(#[trigger] s@[i])
                        && !ByteClass::Upper.has(s@[i]),
            decreases s@.len() - index,
        {
            if !self.is_token(s[index]) {
                return false;
            }
            if self.is_upper(s[index]) {
                assert(ByteClass::Upper.has(s@[index as int]));
                return false;
            }
            index += 1;
        }
        true
    }

    fn is_value(&self, s: &[u8]) -> (valid: bool)
        requires
            self.well_formed(),
        ensures
            valid == all_in(s@, ByteClass::Field),
    {
        let mut index: usize = 0;
        while index < s.len()
            invariant
                self.well_formed(),
                index <= s@.len(),
                forall|i: int| 0 <= i < index ==> ByteClass::Field.has(#[trigger] s@[i]),
            decreases s@.len() - index,
        {
            if !self.is_field_value(s[index]) {
                return false;
            }
            index += 1;
        }
        true
    }
}

/// What is to be emitted. The bits of `retained_fields` are both the result of the validation and
/// the plan of the emission.
pub struct WirePlan<'a> {
    pub retained_fields: u128,
    pub host: WireHost<'a>,
    pub encoded_len: usize,
}

impl<'a> WirePlan<'a> {
    /// Whether the plan is that of a head: its host, its length, and a bit for each field that is
    /// passed on.
    pub open spec fn plans(self, input: HeadInput) -> bool {
        &&& effective_host(input.authority) == Some(self.host@)
        &&& self.encoded_len == head_bytes(input).len()
        &&& follows(self.retained_fields, input.headers.fields, input.headers.fields.len() as int)
    }
}

/// Compile trusted model values into a compact wire plan, then emit that plan once.
#[verifier::spinoff_prover]
#[verifier::rlimit(80)]
pub fn construct_canonical_upstream_head(
    method: &str,
    target: &NormalizedTarget,
    authority: &EffectiveAuthority,
    headers: &SanitizedHeaders,
    framing: &BodyFraming,
    forwarding: &ForwardingResult,
) -> (result: Result<CanonicalRequestHead>)
    ensures
        outcome(result) == constructed(
            (HeadInput {
                method: utf8(method@),
                target: target@,
                authority: authority@,
                headers: headers@,
                framing: *framing,
                forwarding: forwarding@,
            }),
            false,
        ),
{
    let ghost input = HeadInput {
        method: utf8(method@),
        target: target@,
        authority: authority@,
        headers: headers@,
        framing: *framing,
        forwarding: forwarding@,
    };
    // Phase one validates the entire public boundary and computes the exact bounded size.
    let plan: WirePlan = compile_wire_plan(
        method,
        target,
        authority,
        headers,
        framing,
        forwarding,
    )?;

    // Phase two only consumes trusted values and primitive decisions from the plan.
    let mut bytes: Vec<u8> = Vec::new();
    append_opening(
        &mut bytes,
        method.as_bytes(),
        target.path_and_query.as_str().as_bytes(),
        &plan.host,
        authority.port,
    );
    emit_retained(&mut bytes, headers, plan.retained_fields);
    append_forwarding(&mut bytes, forwarding);
    append_closing(&mut bytes, framing);
    proof {
        lemma_head_parts(input);
        assert(bytes@ =~= head_bytes(input));
    }
    Ok(CanonicalRequestHead { bytes, body_framing: *framing })
}

/// Emits the fields whose bits are set.
fn emit_retained(out: &mut Vec<u8>, headers: &SanitizedHeaders, retained_fields: u128)
    requires
        headers@.fields.len() <= FIELD_MAX,
        follows(retained_fields, headers@.fields, headers@.fields.len() as int),
    ensures
        final(out)@ == old(out)@ + terminated(kept_texts(headers@.fields)),
{
    let mut index: usize = 0;
    assert(headers@.fields.take(0) =~= Seq::<FieldModel>::empty());
    assert(out@ =~= out@ + terminated(kept_texts(headers@.fields.take(0))));
    while index < headers.fields.len()
        invariant
            index <= headers.fields@.len() <= FIELD_MAX,
            follows(retained_fields, headers@.fields, headers@.fields.len() as int),
            out@ == old(out)@ + terminated(kept_texts(headers@.fields.take(index as int))),
        decreases headers.fields@.len() - index,
    {
        let field: &HeaderField = &headers.fields[index];
        proof {
            assert(headers@.fields[index as int] == field@);
            lemma_kept_step(headers@.fields, index as int);
            assert(is_retained(retained_fields, index as int) == (field_rule(field@.name)
                == FieldRule::Keep));
        }
        if retained_fields & (1u128 << (index as u32)) != 0 {
            append_field_line(out, field.name.as_str().as_bytes(), field.value.as_slice());
        }
        index += 1;
        assert(out@ =~= old(out)@ + terminated(kept_texts(headers@.fields.take(index as int))));
    }
    assert(headers@.fields.take(index as int) =~= headers@.fields);
}

/// Validates every input, and computes which fields are passed on and how long the head is.
#[verifier::spinoff_prover]
#[verifier::rlimit(100)]
pub fn compile_wire_plan<'a>(
    method: &str,
    target: &NormalizedTarget,
    authority: &'a EffectiveAuthority,
    headers: &SanitizedHeaders,
    framing: &BodyFraming,
    forwarding: &ForwardingResult,
) -> (result: Result<WirePlan<'a>>)
    ensures
        ({
            let input = HeadInput {
                method: utf8(method@),
                target: target@,
                authority: authority@,
                headers: headers@,
                framing: *framing,
                forwarding: forwarding@,
            };
            match result {
                Ok(plan) => {
                    &&& is_head(input, false)
                    &&& plan.plans(input)
                    &&& plan.encoded_len <= HEAD_LIMIT
                    &&& constructed(input, false) matches Ok(head) && head.bytes.len()
                        == plan.encoded_len
                },
                Err(error) => constructed(input, false) == Err::<HeadModel, Fault>(error@),
            }
        }),
{
    let ghost input = HeadInput {
        method: utf8(method@),
        target: target@,
        authority: authority@,
        headers: headers@,
        framing: *framing,
        forwarding: forwarding@,
    };
    let rules: ByteRules = ByteRules::build();
    if !rules.is_canonical(method.as_bytes(), MAX_METHOD_BYTES) {
        return Err(PolyguardError::SerializationInvariant);
    }
    let host: WireHost<'a> = match read_effective_host(authority) {
        Some(host) => host,
        None => return Err(PolyguardError::SerializationInvariant),
    };
    if !is_form_fitting(target, authority, &host, false) || !is_path_fitting(target, false) {
        return Err(PolyguardError::SerializationInvariant);
    }
    let (retained_fields, kept_len): (u128, usize) = match compile_fields(headers, &rules) {
        Some(compiled) => compiled,
        None => return Err(PolyguardError::SerializationInvariant),
    };
    let forwarded: &[u8] = forwarding.forwarded.as_str().as_bytes();
    let x_for: &[u8] = forwarding.x_forwarded_for.as_str().as_bytes();
    let x_proto: &[u8] = forwarding.x_forwarded_proto.as_str().as_bytes();
    let x_host: &[u8] = forwarding.x_forwarded_host.as_str().as_bytes();
    if !is_plain_wire_value(forwarded) || !is_plain_wire_value(x_for) || !is_plain_wire_value(
        x_proto,
    ) || !is_plain_wire_value(x_host) {
        return Err(PolyguardError::SerializationInvariant);
    }
    let framing_len: usize = match framing {
        BodyFraming::NoBody => 0,
        BodyFraming::ContentLength(length) => {
            if *length > CONTENT_LENGTH_LIMIT {
                return Err(PolyguardError::SerializationInvariant);
            }
            18 + decimal_len(*length)
        },
        BodyFraming::Chunked => 28,
    };
    proof {
        assert(is_head(input, false));
        lemma_head_size(input, false);
        lemma_head_parts(input);
        lemma_part_sizes(input);
    }
    let encoded_len: usize = method.as_bytes().len() + target.path_and_query.as_str().as_bytes().len()
        + endpoint_len(&host, authority.port) + 20 + kept_len + forwarded.len() + x_for.len()
        + x_proto.len() + x_host.len() + 73 + framing_len + 21;
    if encoded_len > HEAD_LIMIT {
        return Err(limit_exceeded("canonical_head_bytes", HEAD_LIMIT, encoded_len));
    }
    Ok(WirePlan { retained_fields, host, encoded_len })
}

/// Validates the fields, and computes which are passed on and how many bytes those take.
fn compile_fields(headers: &SanitizedHeaders, rules: &ByteRules) -> (compiled: Option<
    (u128, usize),
>)
    requires
        rules.well_formed(),
    ensures
        match compiled {
            Some((mask, len)) => {
                &&& are_head_fields(headers@)
                &&& follows(mask, headers@.fields, headers@.fields.len() as int)
                &&& len == terminated(kept_texts(headers@.fields)).len()
                &&& len <= 8324 * 128
            },
            None => !are_head_fields(headers@),
        },
{
    if headers.fields.len() > FIELD_MAX {
        return None;
    }
    let mut mask: u128 = 0;
    let mut len: usize = 0;
    let mut index: usize = 0;
    proof {
        assert forall|i: int| 0 <= i < 128 implies !(#[trigger] is_retained(0u128, i)) by {
            lemma_retain_none(i as u32);
        }
        assert(headers@.fields.take(0) =~= Seq::<FieldModel>::empty());
    }
    while index < headers.fields.len()
        invariant
            rules.well_formed(),
            index <= headers.fields@.len() <= FIELD_MAX,
            forall|i: int| 0 <= i < index ==> is_head_field(#[trigger] headers@.fields[i]),
            follows(mask, headers@.fields, index as int),
            len == terminated(kept_texts(headers@.fields.take(index as int))).len(),
            len <= 8324 * index,
        decreases headers.fields@.len() - index,
    {
        let field: &HeaderField = &headers.fields[index];
        proof {
            assert(headers@.fields[index as int] == field@);
            lemma_kept_step(headers@.fields, index as int);
            lemma_fixed_lengths();
        }
        if !rules.is_canonical(field.name.as_str().as_bytes(), NAME_MAX) || field.value.len()
            > VALUE_MAX || !rules.is_value(field.value.as_slice()) || has_edge_ows_bytes(
            field.value.as_slice(),
        ) {
            assert(!is_head_field(headers@.fields[index as int]));
            return None;
        }
        match field_rule_text(field.name.as_str()) {
            FieldRule::Reject => {
                assert(!is_head_field(headers@.fields[index as int]));
                return None;
            },
            FieldRule::Replace => {},
            FieldRule::Keep => {
                let ghost before = mask;
                mask = mask | (1u128 << (index as u32));
                len = len + field.name.as_str().as_bytes().len() + 2 + field.value.len() + 2;
                proof {
                    assert forall|i: int| 0 <= i < 128 implies #[trigger] is_retained(mask, i) == (
                    is_retained(before, i) || i == index) by {
                        lemma_retain(before, index as u32, i as u32);
                    }
                }
            },
        }
        index += 1;
    }
    assert(headers@.fields.take(index as int) =~= headers@.fields);
    if are_removed_names(&headers.removed_names) {
        Some((mask, len))
    } else {
        None
    }
}

} // verus!
