//! Body framing by a matrix of rules over which framing fields are present.

use vstd::prelude::*;
use crate::body_framing::{
    agree_fields, agree_members, framing, framing_of, has_content_length, has_transfer_encoding,
    is_chunked, is_chunked_coding, is_transfer_encoding, lemma_presence_next, lemma_some_length,
    member_length, only_chunked, only_transfer_encoding, parse_member_length,
};
use crate::bytes::{ByteClass, lemma_first_from_unique, lemma_split_step, split};
use crate::text::same_text;
use crate::types::{
    BodyFraming, Fault, FieldModel, HeaderBlock, HeaderField, PolyguardError, RequestLine, Result,
    fields_of, outcome,
};

verus! {

#[derive(Clone, Copy, PartialEq, Eq, Structural)]
struct PresenceKey {
    content_length: bool,
    transfer_encoding: bool,
}

#[derive(Clone, Copy)]
struct HeaderInventory {
    key: PresenceKey,
    content_length_fields: usize,
    transfer_encoding_fields: usize,
}

impl HeaderInventory {
    /// Whether the inventory is that of the fields. The index of a Transfer-Encoding field, if
    /// there is one, comes with it.
    spec fn counts(self, fields: Seq<FieldModel>, at: int) -> bool {
        let n = fields.len() as int;
        &&& self.key.content_length == has_content_length(fields, n)
        &&& self.key.transfer_encoding == has_transfer_encoding(fields, n)
        &&& coding_count(fields, n, self.transfer_encoding_fields as int, at)
        &&& self.key.content_length == (self.content_length_fields > 0)
    }
}

/// Whether `count` of the first `upto` fields are Transfer-Encoding fields, as far as one can be
/// told from many: `at` is the first of them.
spec fn coding_count(fields: Seq<FieldModel>, upto: int, count: int, at: int) -> bool {
    if count == 0 {
        forall|j: int| 0 <= j < upto ==> !is_transfer_encoding(#[trigger] fields[j])
    } else {
        &&& count > 0
        &&& 0 <= at < upto
        &&& is_transfer_encoding(fields[at])
        &&& forall|j: int| 0 <= j < at ==> !is_transfer_encoding(#[trigger] fields[j])
        &&& count == 1 <==> forall|j: int|
            0 <= j < upto && j != at ==> !is_transfer_encoding(#[trigger] fields[j])
    }
}

#[derive(Clone, Copy)]
enum ValidationRule {
    NoMetadata,
    ContentLength,
    TransferEncoding,
    Ambiguous,
}

enum ValidatedFraming {
    NoBody,
    Fixed(u64),
    Chunked,
}

impl ValidatedFraming {
    spec fn framing(self) -> BodyFraming {
        match self {
            ValidatedFraming::NoBody => BodyFraming::NoBody,
            ValidatedFraming::Fixed(length) => BodyFraming::ContentLength(length),
            ValidatedFraming::Chunked => BodyFraming::Chunked,
        }
    }
}

pub fn determine_body_framing(_request: &RequestLine, headers: &HeaderBlock) -> (result: Result<
    BodyFraming,
>)
    ensures
        outcome(result) == framing(headers@.fields),
{
    // Phase 1 records only field presence. This makes the CL+TE rejection independent of
    // either field's value, as required for ambiguity precedence.
    let inventory = inventory(headers);
    let rule = lookup_rule(inventory.key);
    // Phase 2 validates all framing metadata selected by the rule before constructing the
    // public result in phase 3.
    let validated = validate_rule(rule, inventory, headers)?;
    Ok(render(validated))
}

fn inventory(headers: &HeaderBlock) -> (inventory: HeaderInventory)
    ensures
        exists|at: int| inventory.counts(headers@.fields, at),
{
    let mut content_length_fields: usize = 0;
    let mut transfer_encoding_fields: usize = 0;
    let mut index: usize = 0;
    let ghost models = headers@.fields;
    let ghost mut at: int = 0;
    while index < headers.fields.len()
        invariant
            index <= headers.fields@.len(),
            models == fields_of(headers.fields@),
            models == headers@.fields,
            content_length_fields <= index,
            transfer_encoding_fields <= index,
            content_length_fields != 0 <==> has_content_length(models, index as int),
            transfer_encoding_fields != 0 <==> has_transfer_encoding(models, index as int),
            coding_count(models, index as int, transfer_encoding_fields as int, at),
        decreases headers.fields@.len() - index,
    {
        let field: &HeaderField = &headers.fields[index];
        proof {
            assert(models[index as int] == field@);
            lemma_presence_next(models, index as int);
        }
        if same_text(field.name.as_str(), "content-length") {
            content_length_fields += 1;
        } else if same_text(field.name.as_str(), "transfer-encoding") {
            assert(is_transfer_encoding(models[index as int]));
            proof {
                if transfer_encoding_fields == 0 {
                    at = index as int;
                }
            }
            transfer_encoding_fields += 1;
        }
        index += 1;
    }
    let inventory = HeaderInventory {
        key: PresenceKey {
            content_length: content_length_fields != 0,
            transfer_encoding: transfer_encoding_fields != 0,
        },
        content_length_fields,
        transfer_encoding_fields,
    };
    assert(inventory.counts(models, at));
    inventory
}

fn lookup_rule(key: PresenceKey) -> (rule: ValidationRule)
    ensures
        rule is NoMetadata <==> !key.content_length && !key.transfer_encoding,
        rule is ContentLength <==> key.content_length && !key.transfer_encoding,
        rule is TransferEncoding <==> !key.content_length && key.transfer_encoding,
        rule is Ambiguous <==> key.content_length && key.transfer_encoding,
{
    match (key.content_length, key.transfer_encoding) {
        (false, false) => ValidationRule::NoMetadata,
        (true, false) => ValidationRule::ContentLength,
        (false, true) => ValidationRule::TransferEncoding,
        (true, true) => ValidationRule::Ambiguous,
    }
}

fn validate_rule(
    rule: ValidationRule,
    inventory: HeaderInventory,
    headers: &HeaderBlock,
) -> (validated: Result<ValidatedFraming>)
    requires
        exists|at: int| inventory.counts(headers@.fields, at),
        rule is NoMetadata <==> !inventory.key.content_length && !inventory.key.transfer_encoding,
        rule is ContentLength <==> inventory.key.content_length && !inventory.key.transfer_encoding,
        rule is TransferEncoding <==> !inventory.key.content_length
            && inventory.key.transfer_encoding,
        rule is Ambiguous <==> inventory.key.content_length && inventory.key.transfer_encoding,
    ensures
        match validated {
            Ok(v) => framing(headers@.fields) == Ok::<BodyFraming, Fault>(v.framing()),
            Err(e) => framing(headers@.fields) == Err::<BodyFraming, Fault>(e@),
        },
{
    match rule {
        ValidationRule::NoMetadata => Ok(ValidatedFraming::NoBody),
        ValidationRule::Ambiguous => Err(PolyguardError::AmbiguousFraming),
        ValidationRule::ContentLength => {
            let length: u64 = validate_content_lengths(headers)?;
            if length == 0 {
                Ok(ValidatedFraming::NoBody)
            } else {
                Ok(ValidatedFraming::Fixed(length))
            }
        },
        ValidationRule::TransferEncoding => {
            validate_transfer_encoding(inventory, headers)?;
            Ok(ValidatedFraming::Chunked)
        },
    }
}

/// An agreed length as a mathematical one.
spec fn length_of(agreed: Option<u64>) -> Option<int> {
    match agreed {
        Some(length) => Some(length as int),
        None => None,
    }
}

fn validate_content_lengths(headers: &HeaderBlock) -> (length: Result<u64>)
    requires
        has_content_length(headers@.fields, headers@.fields.len() as int),
        !has_transfer_encoding(headers@.fields, headers@.fields.len() as int),
    ensures
        match length {
            Ok(l) => framing(headers@.fields) == Ok::<BodyFraming, Fault>(framing_of(l as int)),
            Err(e) => framing(headers@.fields) == Err::<BodyFraming, Fault>(e@),
        },
{
    let mut agreed: Option<u64> = None;
    let mut index: usize = 0;
    let ghost models = headers@.fields;
    while index < headers.fields.len()
        invariant
            index <= headers.fields@.len(),
            models == fields_of(headers.fields@),
            models == headers@.fields,
            has_content_length(models, models.len() as int),
            !has_transfer_encoding(models, models.len() as int),
            agree_fields(None, models, 0) == agree_fields(
                length_of(agreed),
                models,
                index as int,
            ),
        decreases headers.fields@.len() - index,
    {
        let field: &HeaderField = &headers.fields[index];
        assert(models[index as int] == field@);
        if same_text(field.name.as_str(), "content-length") {
            agreed = Some(validate_content_length_field(field.value.as_slice(), agreed)?);
        }
        index += 1;
    }
    proof {
        lemma_some_length(models);
    }
    match agreed {
        Some(length) => Ok(length),
        None => Err(PolyguardError::InvalidContentLength),
    }
}

fn validate_content_length_field(raw: &[u8], before: Option<u64>) -> (length: Result<u64>)
    ensures
        match length {
            Ok(l) => agree_members(length_of(before), split(raw@, ',' as u8), 0) == Ok::<
                Option<int>,
                Fault,
            >(Some(l as int)),
            Err(e) => agree_members(length_of(before), split(raw@, ',' as u8), 0) == Err::<
                Option<int>,
                Fault,
            >(e@),
        },
{
    let mut agreed: Option<u64> = before;
    let mut member_start: usize = 0;
    let mut boundary: usize = 0;
    let ghost pieces = split(raw@, ',' as u8);
    let ghost mut seen: int = 0;
    let ghost comma = ByteClass::Only(',' as u8);
    assert(raw@.skip(0) =~= raw@);
    assert(pieces.skip(0) =~= pieces);
    loop
        invariant
            member_start <= boundary <= raw@.len(),
            comma == ByteClass::Only(',' as u8),
            pieces == split(raw@, ',' as u8),
            0 <= seen < pieces.len(),
            pieces.skip(seen) == split(raw@.skip(member_start as int), ',' as u8),
            forall|j: int| member_start <= j < boundary ==> #[trigger] raw@[j] != ',' as u8,
            agree_members(length_of(before), pieces, 0) == agree_members(
                length_of(agreed),
                pieces,
                seen,
            ),
        decreases raw@.len() - boundary,
    {
        if boundary != raw.len() && raw[boundary] != ',' as u8 {
            boundary += 1;
            continue ;
        }
        proof {
            lemma_first_from_unique(raw@, comma, member_start as int, boundary as int);
            lemma_split_step(raw@, ',' as u8, member_start as int, pieces, seen);
        }
        let value: u64 = parse_decimal_member(&raw[member_start..boundary])?;
        if let Some(prior) = agreed {
            if prior != value {
                return Err(PolyguardError::ConflictingContentLength);
            }
        }
        agreed = Some(value);
        proof {
            seen = seen + 1;
        }
        if boundary == raw.len() {
            return Ok(value);
        }
        member_start = boundary + 1;
        boundary += 1;
    }
}

fn parse_decimal_member(raw: &[u8]) -> (length: Result<u64>)
    ensures
        match length {
            Ok(l) => member_length(raw@) == Ok::<int, Fault>(l as int),
            Err(e) => member_length(raw@) == Err::<int, Fault>(e@),
        },
{
    parse_member_length(raw)
}

fn validate_transfer_encoding(inventory: HeaderInventory, headers: &HeaderBlock) -> (validated:
    Result<()>)
    requires
        exists|at: int| inventory.counts(headers@.fields, at),
        inventory.key.transfer_encoding,
    ensures
        match validated {
            Ok(_) => only_chunked(headers@.fields),
            Err(e) => !only_chunked(headers@.fields) && e@ is InvalidTransferEncoding,
        },
{
    // A combined list containing exactly one member can originate from exactly one field.
    // Comparing that entire field after OWS trimming rejects commas, parameters, empty
    // members, repeated codings, and additional codings with one auditable condition.
    let ghost models = headers@.fields;
    let ghost at = choose|at: int| inventory.counts(models, at);
    assert(only_chunked(models) ==> only_transfer_encoding(models, at) && is_chunked(
        models[at].value,
    ));
    if inventory.transfer_encoding_fields != 1 {
        return Err(PolyguardError::InvalidTransferEncoding);
    }
    let mut index: usize = 0;
    while index < headers.fields.len()
        invariant
            index <= headers.fields@.len(),
            models == fields_of(headers.fields@),
            models == headers@.fields,
            inventory.counts(models, at),
            inventory.transfer_encoding_fields == 1,
            index <= at,
            only_chunked(models) ==> only_transfer_encoding(models, at) && is_chunked(
                models[at].value,
            ),
        decreases headers.fields@.len() - index,
    {
        let field: &HeaderField = &headers.fields[index];
        assert(models[index as int] == field@);
        if same_text(field.name.as_str(), "transfer-encoding") {
            assert(is_transfer_encoding(models[index as int]));
            assert(index == at);
            assert(only_transfer_encoding(models, at));
            if is_chunked_coding(field.value.as_slice()) {
                return Ok(());
            }
            return Err(PolyguardError::InvalidTransferEncoding);
        }
        assert(index != at);
        index += 1;
    }
    Err(PolyguardError::InvalidTransferEncoding)
}

fn render(validated: ValidatedFraming) -> (rendered: BodyFraming)
    ensures
        rendered == validated.framing(),
{
    match validated {
        ValidatedFraming::NoBody => BodyFraming::NoBody,
        ValidatedFraming::Fixed(length) => BodyFraming::ContentLength(length),
        ValidatedFraming::Chunked => BodyFraming::Chunked,
    }
}

} // verus!
