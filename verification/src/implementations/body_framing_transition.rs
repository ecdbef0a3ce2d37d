//! Body framing by transitions over a bit set of present fields.

use vstd::prelude::*;
use crate::body_framing::{
    agree, agree_fields, agree_members, framing, has_content_length, has_transfer_encoding,
    is_chunked, is_chunked_coding, is_content_length, is_transfer_encoding,
    lemma_chunked_is_one_member, lemma_presence_next, lemma_some_length, only_chunked,
    only_transfer_encoding, parse_member_length,
};
use crate::bytes::{slices_of, split, split_on};
use crate::text::same_text;
use crate::types::{
    BodyFraming, Fault, HeaderBlock, HeaderField, PolyguardError, RequestLine, Result, fields_of,
    outcome,
};

verus! {

const HAS_CONTENT_LENGTH: u8 = 0b01;

const HAS_TRANSFER_ENCODING: u8 = 0b10;

const HAS_BOTH: u8 = 0b11;

/// The bit set for which framing fields are present.
spec fn presence(content_length: bool, transfer_encoding: bool) -> u8 {
    if content_length && transfer_encoding {
        HAS_BOTH
    } else if content_length {
        HAS_CONTENT_LENGTH
    } else if transfer_encoding {
        HAS_TRANSFER_ENCODING
    } else {
        0
    }
}

/// Setting bits of the presence set.
proof fn lemma_presence_bits()
    ensures
        0u8 | HAS_CONTENT_LENGTH == HAS_CONTENT_LENGTH,
        0u8 | HAS_TRANSFER_ENCODING == HAS_TRANSFER_ENCODING,
        HAS_CONTENT_LENGTH | HAS_CONTENT_LENGTH == HAS_CONTENT_LENGTH,
        HAS_TRANSFER_ENCODING | HAS_TRANSFER_ENCODING == HAS_TRANSFER_ENCODING,
        HAS_CONTENT_LENGTH | HAS_TRANSFER_ENCODING == HAS_BOTH,
        HAS_TRANSFER_ENCODING | HAS_CONTENT_LENGTH == HAS_BOTH,
        HAS_BOTH | HAS_CONTENT_LENGTH == HAS_BOTH,
        HAS_BOTH | HAS_TRANSFER_ENCODING == HAS_BOTH,
        forall|state: u8| #[trigger] (state | 0) == state,
{
    assert(0u8 | 0b01u8 == 0b01u8 && 0u8 | 0b10u8 == 0b10u8 && 0b01u8 | 0b01u8 == 0b01u8 && 0b10u8
        | 0b10u8 == 0b10u8 && 0b01u8 | 0b10u8 == 0b11u8 && 0b10u8 | 0b01u8 == 0b11u8 && 0b11u8
        | 0b01u8 == 0b11u8 && 0b11u8 | 0b10u8 == 0b11u8) by (bit_vector);
    assert(forall|state: u8| #[trigger] (state | 0) == state) by (bit_vector);
}

pub fn determine_body_framing(_request: &RequestLine, headers: &HeaderBlock) -> (result: Result<
    BodyFraming,
>)
    ensures
        outcome(result) == framing(headers@.fields),
{
    let mut metadata_state: u8 = 0;
    let mut index: usize = 0;
    let ghost models = headers@.fields;
    while index < headers.fields.len()
        invariant
            index <= headers.fields@.len(),
            models == fields_of(headers.fields@),
            models == headers@.fields,
            metadata_state == presence(
                has_content_length(models, index as int),
                has_transfer_encoding(models, index as int),
            ),
        decreases headers.fields@.len() - index,
    {
        let field: &HeaderField = &headers.fields[index];
        proof {
            assert(models[index as int] == field@);
            lemma_presence_next(models, index as int);
            lemma_presence_bits();
        }
        let bit: u8 = if same_text(field.name.as_str(), "content-length") {
            HAS_CONTENT_LENGTH
        } else if same_text(field.name.as_str(), "transfer-encoding") {
            HAS_TRANSFER_ENCODING
        } else {
            0
        };
        metadata_state = metadata_state | bit;
        index += 1;
    }
    if metadata_state == HAS_BOTH {
        Err(PolyguardError::AmbiguousFraming)
    } else if metadata_state == HAS_TRANSFER_ENCODING {
        validate_transfer_encoding(headers)?;
        Ok(BodyFraming::Chunked)
    } else if metadata_state == HAS_CONTENT_LENGTH {
        proof {
            lemma_some_length(models);
        }
        match agree_on_length(headers)? {
            None => Ok(BodyFraming::NoBody),
            Some(length) => {
                if length == 0 {
                    Ok(BodyFraming::NoBody)
                } else {
                    Ok(BodyFraming::ContentLength(length))
                }
            },
        }
    } else {
        Ok(BodyFraming::NoBody)
    }
}

/// An accepted length as a mathematical one.
spec fn length_of(accepted: Option<u64>) -> Option<int> {
    match accepted {
        Some(length) => Some(length as int),
        None => None,
    }
}

/// The members of a Content-Length value, in order.
fn content_length_members<'a>(field: &'a HeaderField) -> (members: Vec<&'a [u8]>)
    ensures
        slices_of(members@) == split(field.value@, ',' as u8),
{
    split_on(field.value.as_slice(), ',' as u8)
}

/// The length that all members of all Content-Length fields agree on.
fn agree_on_length(headers: &HeaderBlock) -> (agreed: Result<Option<u64>>)
    ensures
        match agreed {
            Ok(a) => agree_fields(None, headers@.fields, 0) == Ok::<Option<int>, Fault>(
                length_of(a),
            ),
            Err(e) => agree_fields(None, headers@.fields, 0) == Err::<Option<int>, Fault>(e@),
        },
{
    let mut accepted: Option<u64> = None;
    let mut index: usize = 0;
    let ghost models = headers@.fields;
    while index < headers.fields.len()
        invariant
            index <= headers.fields@.len(),
            models == fields_of(headers.fields@),
            models == headers@.fields,
            agree_fields(None, models, 0) == agree_fields(
                length_of(accepted),
                models,
                index as int,
            ),
        decreases headers.fields@.len() - index,
    {
        let field: &HeaderField = &headers.fields[index];
        assert(models[index as int] == field@);
        if same_text(field.name.as_str(), "content-length") {
            let members: Vec<&[u8]> = content_length_members(field);
            let ghost pieces = slices_of(members@);
            let ghost before = length_of(accepted);
            let mut at: usize = 0;
            while at < members.len()
                invariant
                    at <= members@.len(),
                    index < models.len(),
                    models == headers@.fields,
                    is_content_length(models[index as int]),
                    pieces == slices_of(members@),
                    pieces == split(models[index as int].value, ',' as u8),
                    agree_fields(None, models, 0) == agree_fields(before, models, index as int),
                    agree_members(before, pieces, 0) == agree_members(
                        length_of(accepted),
                        pieces,
                        at as int,
                    ),
                decreases members@.len() - at,
            {
                assert(pieces[at as int] == members@[at as int]@);
                accepted = accept_content_length(accepted, members[at])?;
                at += 1;
            }
        }
        index += 1;
    }
    Ok(accepted)
}

fn accept_content_length(accepted: Option<u64>, raw: &[u8]) -> (next: Result<Option<u64>>)
    ensures
        match next {
            Ok(n) => agree(length_of(accepted), raw@) == Ok::<Option<int>, Fault>(length_of(n)),
            Err(e) => agree(length_of(accepted), raw@) == Err::<Option<int>, Fault>(e@),
        },
{
    let value: u64 = parse_member_length(raw)?;
    if let Some(previous) = accepted {
        if previous != value {
            return Err(PolyguardError::ConflictingContentLength);
        }
    }
    Ok(Some(value))
}

fn validate_transfer_encoding(headers: &HeaderBlock) -> (validated: Result<()>)
    requires
        has_transfer_encoding(headers@.fields, headers@.fields.len() as int),
    ensures
        match validated {
            Ok(_) => only_chunked(headers@.fields),
            Err(e) => !only_chunked(headers@.fields) && e@ is InvalidTransferEncoding,
        },
{
    let mut member_count: u8 = 0;
    let mut index: usize = 0;
    let ghost models = headers@.fields;
    let ghost mut at: int = 0;
    while index < headers.fields.len()
        invariant
            index <= headers.fields@.len(),
            models == fields_of(headers.fields@),
            models == headers@.fields,
            member_count <= 1,
            member_count == 0 ==> forall|j: int|
                0 <= j < index ==> !is_transfer_encoding(#[trigger] models[j]),
            member_count == 1 ==> 0 <= at < index && is_transfer_encoding(models[at]) && is_chunked(
                models[at].value,
            ) && forall|j: int|
                0 <= j < index && j != at ==> !is_transfer_encoding(#[trigger] models[j]),
        decreases headers.fields@.len() - index,
    {
        let field: &HeaderField = &headers.fields[index];
        assert(models[index as int] == field@);
        if same_text(field.name.as_str(), "transfer-encoding") {
            proof {
                assert(is_transfer_encoding(models[index as int]));
                lemma_chunked_is_one_member(field@.value);
                if only_chunked(models) {
                    let i = choose|i: int|
                        0 <= i < models.len() && is_transfer_encoding(#[trigger] models[i])
                            && is_chunked(models[i].value) && only_transfer_encoding(models, i);
                    assert(i == index);
                    assert(member_count == 0);
                }
            }
            let members: Vec<&[u8]> = split_on(field.value.as_slice(), ',' as u8);
            assert(slices_of(members@).len() == members@.len());
            assert(slices_of(members@)[0] == members@[0]@);
            if !is_chunked_coding(members[0]) || member_count != 0 || members.len() != 1 {
                return Err(PolyguardError::InvalidTransferEncoding);
            }
            member_count = 1;
            proof {
                at = index as int;
            }
        }
        index += 1;
    }
    if member_count == 1 {
        assert(only_transfer_encoding(models, at));
        Ok(())
    } else {
        Err(PolyguardError::InvalidTransferEncoding)
    }
}

} // verus!
