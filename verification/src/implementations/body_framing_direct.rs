//! Body framing by direct validation of the framing fields.

use vstd::prelude::*;
use crate::body_framing::{
    CONTENT_LENGTH_LIMIT, agree_fields, agree_members, framing, framing_of, has_content_length,
    has_transfer_encoding, is_chunked, is_chunked_coding, is_transfer_encoding,
    lemma_chunked_is_one_member, lemma_presence_grows, lemma_presence_next, lemma_some_length,
    member_length, only_chunked, only_transfer_encoding,
};
use crate::bytes::{
    ByteClass, find_from, is_ows, lemma_split_step, lemma_trimmed, slices_of, split, split_on,
    trimmed,
};
use crate::decimal::{clamp_to_usize, parse_decimal};
use crate::text::same_text;
use crate::types::{
    BodyFraming, Fault, HeaderBlock, HeaderField, PolyguardError, RequestLine, Result, fields_of,
    limit_exceeded, outcome,
};

verus! {

struct ContentLengthFields<'a>(&'a HeaderBlock);

struct TransferEncodingFields<'a>(&'a HeaderBlock);

enum FramingMetadata<'a> {
    Absent,
    ContentLength(ContentLengthFields<'a>),
    TransferEncoding(TransferEncodingFields<'a>),
    Ambiguous,
}

struct DecimalLength(u64);

pub fn determine_body_framing(_request: &RequestLine, headers: &HeaderBlock) -> (result: Result<
    BodyFraming,
>)
    ensures
        outcome(result) == framing(headers@.fields),
{
    let metadata = classify_metadata(headers);
    match metadata {
        FramingMetadata::TransferEncoding(fields) => {
            fields.validate_chunked()?;
            Ok(BodyFraming::Chunked)
        },
        FramingMetadata::ContentLength(fields) => {
            let length: u64 = fields.validate_consistent()?.0;
            if length == 0 {
                return Ok(BodyFraming::NoBody);
            }
            Ok(BodyFraming::ContentLength(length))
        },
        FramingMetadata::Absent => Ok(BodyFraming::NoBody),
        FramingMetadata::Ambiguous => Err(PolyguardError::AmbiguousFraming),
    }
}

fn classify_metadata<'a>(headers: &'a HeaderBlock) -> (metadata: FramingMetadata<'a>)
    ensures
        ({
            let n = headers@.fields.len() as int;
            let content_length = has_content_length(headers@.fields, n);
            let transfer_encoding = has_transfer_encoding(headers@.fields, n);
            match metadata {
                FramingMetadata::Absent => !content_length && !transfer_encoding,
                FramingMetadata::ContentLength(fields) => content_length && !transfer_encoding
                    && fields.0 == headers,
                FramingMetadata::TransferEncoding(fields) => !content_length && transfer_encoding
                    && fields.0 == headers,
                FramingMetadata::Ambiguous => content_length && transfer_encoding,
            }
        }),
{
    let mut content_length_present: bool = false;
    let mut transfer_encoding_present: bool = false;
    let mut index: usize = 0;
    let ghost models = headers@.fields;
    while index < headers.fields.len()
        invariant
            index <= headers.fields@.len(),
            models == fields_of(headers.fields@),
            models == headers@.fields,
            content_length_present == has_content_length(models, index as int),
            transfer_encoding_present == has_transfer_encoding(models, index as int),
            !(content_length_present && transfer_encoding_present),
        decreases headers.fields@.len() - index,
    {
        let field: &HeaderField = &headers.fields[index];
        assert(models[index as int] == field@);
        proof {
            lemma_presence_next(models, index as int);
        }
        if same_text(field.name.as_str(), "content-length") {
            content_length_present = true;
        } else if same_text(field.name.as_str(), "transfer-encoding") {
            transfer_encoding_present = true;
        }
        if content_length_present && transfer_encoding_present {
            proof {
                lemma_presence_grows(models, index + 1, models.len() as int);
            }
            return FramingMetadata::Ambiguous;
        }
        index += 1;
    }
    if content_length_present {
        return FramingMetadata::ContentLength(ContentLengthFields(headers));
    }
    if transfer_encoding_present {
        return FramingMetadata::TransferEncoding(TransferEncodingFields(headers));
    }
    FramingMetadata::Absent
}

impl ContentLengthFields<'_> {
    fn validate_consistent(&self) -> (length: Result<DecimalLength>)
        requires
            has_content_length(self.0@.fields, self.0@.fields.len() as int),
            !has_transfer_encoding(self.0@.fields, self.0@.fields.len() as int),
        ensures
            match length {
                Ok(l) => framing(self.0@.fields) == Ok::<BodyFraming, Fault>(
                    framing_of(l.0 as int),
                ),
                Err(e) => framing(self.0@.fields) == Err::<BodyFraming, Fault>(e@),
            },
    {
        let mut accepted: Option<u64> = None;
        let mut index: usize = 0;
        let ghost models = self.0@.fields;
        while index < self.0.fields.len()
            invariant
                index <= self.0.fields@.len(),
                models == fields_of(self.0.fields@),
                models == self.0@.fields,
                has_content_length(models, models.len() as int),
                !has_transfer_encoding(models, models.len() as int),
                agree_fields(None, models, 0) == agree_fields(
                    length_of(accepted),
                    models,
                    index as int,
                ),
            decreases self.0.fields@.len() - index,
        {
            let field: &HeaderField = &self.0.fields[index];
            assert(models[index as int] == field@);
            if same_text(field.name.as_str(), "content-length") {
                accepted = accept_members(field.value.as_slice(), accepted)?;
            }
            index += 1;
        }
        proof {
            lemma_some_length(models);
        }
        match accepted {
            Some(length) => Ok(DecimalLength(length)),
            None => Err(PolyguardError::InvalidContentLength),
        }
    }
}

/// An accepted length as a mathematical one.
spec fn length_of(accepted: Option<u64>) -> Option<int> {
    match accepted {
        Some(length) => Some(length as int),
        None => None,
    }
}

/// The accepted length once every member of a value has been read.
fn accept_members(value: &[u8], before: Option<u64>) -> (accepted: Result<Option<u64>>)
    ensures
        match accepted {
            Ok(a) => agree_members(length_of(before), split(value@, ',' as u8), 0) == Ok::<
                Option<int>,
                Fault,
            >(length_of(a)),
            Err(e) => agree_members(length_of(before), split(value@, ',' as u8), 0) == Err::<
                Option<int>,
                Fault,
            >(e@),
        },
{
    let mut accepted: Option<u64> = before;
    let mut member_start: usize = 0;
    let ghost pieces = split(value@, ',' as u8);
    let ghost mut seen: int = 0;
    assert(value@.skip(0) =~= value@);
    assert(pieces.skip(0) =~= pieces);
    loop
        invariant
            member_start <= value@.len(),
            pieces == split(value@, ',' as u8),
            0 <= seen < pieces.len(),
            pieces.skip(seen) == split(value@.skip(member_start as int), ',' as u8),
            agree_members(length_of(before), pieces, 0) == agree_members(
                length_of(accepted),
                pieces,
                seen,
            ),
        decreases value@.len() - member_start,
    {
        let member_end: usize = find_from(value, ByteClass::Only(',' as u8), member_start);
        proof {
            lemma_split_step(value@, ',' as u8, member_start as int, pieces, seen);
        }
        let parsed = parse_decimal_length(&value[member_start..member_end])?;
        if let Some(previous) = accepted {
            if previous != parsed.0 {
                return Err(PolyguardError::ConflictingContentLength);
            }
        }
        accepted = Some(parsed.0);
        proof {
            seen = seen + 1;
        }
        if member_end == value.len() {
            return Ok(accepted);
        }
        member_start = member_end + 1;
    }
}

fn parse_decimal_length(raw: &[u8]) -> (length: Result<DecimalLength>)
    ensures
        match length {
            Ok(l) => member_length(raw@) == Ok::<int, Fault>(l.0 as int),
            Err(e) => member_length(raw@) == Err::<int, Fault>(e@),
        },
{
    let value: u64 = match parse_decimal(without_ows(raw)) {
        Some(value) => value,
        None => return Err(PolyguardError::InvalidContentLength),
    };
    if value > CONTENT_LENGTH_LIMIT {
        return Err(
            limit_exceeded("content_length", CONTENT_LENGTH_LIMIT as usize, clamp_to_usize(value)),
        );
    }
    Ok(DecimalLength(value))
}

impl TransferEncodingFields<'_> {
    fn validate_chunked(&self) -> (validated: Result<()>)
        requires
            has_transfer_encoding(self.0@.fields, self.0@.fields.len() as int),
        ensures
            match validated {
                Ok(_) => only_chunked(self.0@.fields),
                Err(e) => !only_chunked(self.0@.fields) && e@ is InvalidTransferEncoding,
            },
    {
        let mut members_seen: usize = 0;
        let mut index: usize = 0;
        let ghost models = self.0@.fields;
        let ghost mut at: int = 0;
        while index < self.0.fields.len()
            invariant
                index <= self.0.fields@.len(),
                models == fields_of(self.0.fields@),
                models == self.0@.fields,
                members_seen <= 1,
                members_seen == 0 ==> forall|j: int|
                    0 <= j < index ==> !is_transfer_encoding(#[trigger] models[j]),
                members_seen == 1 ==> 0 <= at < index && is_transfer_encoding(models[at])
                    && is_chunked(models[at].value) && forall|j: int|
                    0 <= j < index && j != at ==> !is_transfer_encoding(#[trigger] models[j]),
            decreases self.0.fields@.len() - index,
        {
            let field: &HeaderField = &self.0.fields[index];
            assert(models[index as int] == field@);
            if same_text(field.name.as_str(), "transfer-encoding") {
                proof {
                    assert(is_transfer_encoding(models[index as int]));
                    lemma_chunked_is_one_member(field@.value);
                    if only_chunked(models) {
                        let i = choose|i: int|
                            0 <= i < models.len() && is_transfer_encoding(#[trigger] models[i])
                                && is_chunked(models[i].value) && only_transfer_encoding(models, i);
                        assert(i == index);
                        assert(members_seen == 0);
                    }
                }
                let members: Vec<&[u8]> = split_on(field.value.as_slice(), ',' as u8);
                assert(slices_of(members@).len() == members@.len());
                assert(slices_of(members@)[0] == members@[0]@);
                if members_seen != 0 || members.len() != 1 || !is_chunked_coding(members[0]) {
                    return Err(PolyguardError::InvalidTransferEncoding);
                }
                members_seen += 1;
                proof {
                    at = index as int;
                }
            }
            index += 1;
        }
        if members_seen != 1 {
            return Err(PolyguardError::InvalidTransferEncoding);
        }
        assert(only_transfer_encoding(models, at));
        Ok(())
    }
}

fn without_ows<'a>(bytes: &'a [u8]) -> (inner: &'a [u8])
    ensures
        inner@ == trimmed(bytes@),
{
    let mut first: usize = 0;
    while first < bytes.len() && is_ows(bytes[first])
        invariant
            first <= bytes@.len(),
            forall|j: int| 0 <= j < first ==> is_ows(#[trigger] bytes@[j]),
        decreases bytes@.len() - first,
    {
        first += 1;
    }
    let mut end: usize = bytes.len();
    while end > first && is_ows(bytes[end - 1])
        invariant
            first <= end <= bytes@.len(),
            forall|j: int| end <= j < bytes@.len() ==> is_ows(#[trigger] bytes@[j]),
        decreases end,
    {
        end -= 1;
    }
    proof {
        assert(first == end && first < bytes@.len() ==> is_ows(bytes@[end as int]));
        lemma_trimmed(bytes@, first as int, end as int);
    }
    &bytes[first..end]
}

} // verus!
