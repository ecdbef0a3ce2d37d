//! Body framing over a domain of bounded lengths.

use vstd::prelude::*;
use crate::body_framing::{
    CONTENT_LENGTH_LIMIT, agree_fields, agree_members, framing, has_content_length,
    has_transfer_encoding, is_chunked, is_chunked_coding, is_content_length, is_transfer_encoding,
    lemma_some_length, member_length, only_chunked, only_transfer_encoding,
};
use crate::bytes::{ByteClass, find_in, split, trim_ows};
use crate::decimal::{clamp_to_usize, parse_decimal};
use crate::text::same_text;
use crate::types::{
    BodyFraming, Fault, FieldModel, HeaderBlock, HeaderField, PolyguardError, RequestLine, Result,
    Verdict, fields_of, limit_exceeded, outcome,
};

verus! {

#[derive(Clone, Copy)]
struct BoundedLength(u64);

struct LengthConsensus {
    agreed: Option<BoundedLength>,
}

/// The members of a comma-separated value that are still to come.
struct CommaMembers<'a> {
    remainder: Option<&'a [u8]>,
}

enum ValidatedMetadata {
    NoBody,
    Fixed(BoundedLength),
    Chunked,
}

impl ValidatedMetadata {
    spec fn framing(self) -> BodyFraming {
        match self {
            ValidatedMetadata::NoBody => BodyFraming::NoBody,
            ValidatedMetadata::Fixed(length) => BodyFraming::ContentLength(length.0),
            ValidatedMetadata::Chunked => BodyFraming::Chunked,
        }
    }
}

/// What validated metadata stands for.
spec fn metadata_outcome(metadata: Result<ValidatedMetadata>) -> Verdict<BodyFraming> {
    match metadata {
        Ok(m) => Ok(m.framing()),
        Err(e) => Err(e@),
    }
}

pub fn determine_body_framing(_request: &RequestLine, headers: &HeaderBlock) -> (result: Result<
    BodyFraming,
>)
    ensures
        outcome(result) == framing(headers@.fields),
{
    let metadata = validate_boundary(headers)?;
    Ok(
        match metadata {
            ValidatedMetadata::NoBody => BodyFraming::NoBody,
            ValidatedMetadata::Fixed(length) => BodyFraming::ContentLength(length.0),
            ValidatedMetadata::Chunked => BodyFraming::Chunked,
        },
    )
}

/// The number of the first `upto` fields that are Transfer-Encoding fields.
spec fn count_codings(fields: Seq<FieldModel>, upto: int) -> int
    decreases upto,
{
    if upto <= 0 {
        0
    } else {
        count_codings(fields, upto - 1) + if is_transfer_encoding(fields[upto - 1]) {
            1int
        } else {
            0
        }
    }
}

proof fn lemma_count_codings(fields: Seq<FieldModel>, upto: int)
    requires
        0 <= upto <= fields.len(),
    ensures
        0 <= count_codings(fields, upto) <= upto,
        count_codings(fields, upto) == 0 <==> !has_transfer_encoding(fields, upto),
    decreases upto,
{
    if upto > 0 {
        lemma_count_codings(fields, upto - 1);
        if has_transfer_encoding(fields, upto - 1) {
            let k = choose|k: int| 0 <= k < upto - 1 && is_transfer_encoding(#[trigger] fields[k]);
            assert(is_transfer_encoding(fields[k]));
        }
    }
}

/// A Transfer-Encoding field is the only one exactly if their number is one.
proof fn lemma_one_coding(fields: Seq<FieldModel>, upto: int, i: int)
    requires
        0 <= i < upto <= fields.len(),
        is_transfer_encoding(fields[i]),
    ensures
        count_codings(fields, upto) == 1 <==> forall|j: int|
            0 <= j < upto && j != i ==> !is_transfer_encoding(#[trigger] fields[j]),
    decreases upto,
{
    let last = upto - 1;
    lemma_count_codings(fields, last);
    if i < last {
        lemma_one_coding(fields, last, i);
    } else if has_transfer_encoding(fields, last) {
        let k = choose|k: int| 0 <= k < last && is_transfer_encoding(#[trigger] fields[k]);
        assert(is_transfer_encoding(fields[k]));
    }
}

fn validate_boundary(headers: &HeaderBlock) -> (metadata: Result<ValidatedMetadata>)
    ensures
        metadata_outcome(metadata) == framing(headers@.fields),
{
    let mut content_length_fields: usize = 0;
    let mut transfer_encoding_fields: usize = 0;
    let mut index: usize = 0;
    let ghost models = headers@.fields;
    while index < headers.fields.len()
        invariant
            index <= headers.fields@.len(),
            models == fields_of(headers.fields@),
            content_length_fields <= index,
            transfer_encoding_fields <= index,
            content_length_fields != 0 <==> has_content_length(models, index as int),
            transfer_encoding_fields == count_codings(models, index as int),
        decreases headers.fields@.len() - index,
    {
        let field: &HeaderField = &headers.fields[index];
        assert(models[index as int] == field@);
        proof {
            if has_content_length(models, index as int) {
                let k = choose|k: int| 0 <= k < index && is_content_length(#[trigger] models[k]);
                assert(is_content_length(models[k]));
            }
        }
        if same_text(field.name.as_str(), "content-length") {
            content_length_fields += 1;
            assert(is_content_length(models[index as int]));
        }
        if same_text(field.name.as_str(), "transfer-encoding") {
            transfer_encoding_fields += 1;
        }
        index += 1;
    }
    proof {
        lemma_count_codings(models, models.len() as int);
    }
    if content_length_fields != 0 && transfer_encoding_fields != 0 {
        return Err(PolyguardError::AmbiguousFraming);
    }
    if transfer_encoding_fields != 0 {
        return validate_chunked(headers, transfer_encoding_fields);
    }
    if content_length_fields == 0 {
        return Ok(ValidatedMetadata::NoBody);
    }
    validate_content_lengths(headers)
}

fn validate_chunked(headers: &HeaderBlock, transfer_encoding_fields: usize) -> (metadata: Result<
    ValidatedMetadata,
>)
    requires
        transfer_encoding_fields > 0,
        transfer_encoding_fields == count_codings(headers@.fields, headers@.fields.len() as int),
        !has_content_length(headers@.fields, headers@.fields.len() as int),
    ensures
        metadata_outcome(metadata) == framing(headers@.fields),
{
    let ghost models = headers@.fields;
    let ghost n = models.len() as int;
    proof {
        lemma_count_codings(models, n);
        if only_chunked(models) {
            let i = choose|i: int|
                0 <= i < models.len() && is_transfer_encoding(#[trigger] models[i]) && is_chunked(
                    models[i].value,
                ) && only_transfer_encoding(models, i);
            lemma_one_coding(models, n, i);
        }
    }
    if transfer_encoding_fields != 1 {
        return Err(PolyguardError::InvalidTransferEncoding);
    }
    let mut index: usize = 0;
    while index < headers.fields.len()
        invariant
            index <= headers.fields@.len(),
            models == fields_of(headers.fields@),
            models == headers@.fields,
            n == models.len(),
            count_codings(models, n) == 1,
            !has_content_length(models, n),
            forall|j: int| 0 <= j < index ==> !is_transfer_encoding(#[trigger] models[j]),
        decreases headers.fields@.len() - index,
    {
        let field: &HeaderField = &headers.fields[index];
        assert(models[index as int] == field@);
        if same_text(field.name.as_str(), "transfer-encoding") {
            proof {
                assert(is_transfer_encoding(models[index as int]));
                lemma_one_coding(models, n, index as int);
                assert(only_transfer_encoding(models, index as int));
            }
            if !is_chunked_coding(field.value.as_slice()) {
                return Err(PolyguardError::InvalidTransferEncoding);
            }
            return Ok(ValidatedMetadata::Chunked);
        }
        index += 1;
    }
    proof {
        lemma_count_codings(models, n);
    }
    Err(PolyguardError::InvalidTransferEncoding)
}

fn validate_content_lengths(headers: &HeaderBlock) -> (metadata: Result<ValidatedMetadata>)
    requires
        has_content_length(headers@.fields, headers@.fields.len() as int),
        !has_transfer_encoding(headers@.fields, headers@.fields.len() as int),
    ensures
        metadata_outcome(metadata) == framing(headers@.fields),
{
    let mut consensus = LengthConsensus { agreed: None };
    let mut index: usize = 0;
    let ghost models = headers@.fields;
    while index < headers.fields.len()
        invariant
            index <= headers.fields@.len(),
            models == fields_of(headers.fields@),
            models == headers@.fields,
            has_content_length(models, models.len() as int),
            !has_transfer_encoding(models, models.len() as int),
            agree_fields(None, models, 0) == agree_fields(
                consensus.length(),
                models,
                index as int,
            ),
        decreases headers.fields@.len() - index,
    {
        let field: &HeaderField = &headers.fields[index];
        assert(models[index as int] == field@);
        if same_text(field.name.as_str(), "content-length") {
            consensus.accept_all(field.value.as_slice())?;
        }
        index += 1;
    }
    proof {
        lemma_some_length(models);
    }
    match consensus.agreed {
        None => Err(PolyguardError::InvalidContentLength),
        Some(length) => {
            if length.0 == 0 {
                return Ok(ValidatedMetadata::NoBody);
            }
            Ok(ValidatedMetadata::Fixed(length))
        },
    }
}

impl BoundedLength {
    fn parse(raw: &[u8]) -> (parsed: Result<Self>)
        ensures
            match parsed {
                Ok(length) => member_length(raw@) == Ok::<int, Fault>(length.0 as int),
                Err(e) => member_length(raw@) == Err::<int, Fault>(e@),
            },
    {
        let value: u64 = match parse_decimal(trim_ows(raw)) {
            Some(value) => value,
            None => return Err(PolyguardError::InvalidContentLength),
        };
        if value > CONTENT_LENGTH_LIMIT {
            return Err(
                limit_exceeded(
                    "content_length",
                    CONTENT_LENGTH_LIMIT as usize,
                    clamp_to_usize(value),
                ),
            );
        }
        Ok(BoundedLength(value))
    }
}

impl LengthConsensus {
    spec fn length(self) -> Option<int> {
        match self.agreed {
            Some(length) => Some(length.0 as int),
            None => None,
        }
    }

    fn accept(&mut self, candidate: BoundedLength) -> (accepted: Result<()>)
        ensures
            match accepted {
                Ok(_) => (old(self).length() is None || old(self).length() == Some(
                    candidate.0 as int,
                )) && final(self).length() == Some(candidate.0 as int),
                Err(e) => old(self).length() is Some && old(self).length() != Some(
                    candidate.0 as int,
                ) && e@ is ConflictingContentLength,
            },
    {
        if let Some(accepted) = self.agreed {
            if accepted.0 != candidate.0 {
                return Err(PolyguardError::ConflictingContentLength);
            }
        }
        self.agreed = Some(candidate);
        Ok(())
    }

    /// Accepts every member of a value.
    fn accept_all(&mut self, value: &[u8]) -> (accepted: Result<()>)
        ensures
            match accepted {
                Ok(_) => agree_members(old(self).length(), split(value@, ',' as u8), 0) == Ok::<
                    Option<int>,
                    Fault,
                >(final(self).length()),
                Err(e) => agree_members(old(self).length(), split(value@, ',' as u8), 0) == Err::<
                    Option<int>,
                    Fault,
                >(e@),
            },
    {
        let ghost pieces = split(value@, ',' as u8);
        let mut members = CommaMembers::new(value);
        let ghost mut seen: int = 0;
        assert(pieces.skip(0) =~= pieces);
        loop
            invariant
                0 <= seen <= pieces.len(),
                members.coming() == pieces.skip(seen),
                agree_members(old(self).length(), pieces, 0) == agree_members(
                    self.length(),
                    pieces,
                    seen,
                ),
                pieces == split(value@, ',' as u8),
            ensures
                seen == pieces.len(),
                agree_members(old(self).length(), pieces, 0) == agree_members(
                    self.length(),
                    pieces,
                    seen,
                ),
            decreases pieces.len() - seen,
        {
            match members.next() {
                None => {
                    break;
                },
                Some(raw) => {
                    assert(pieces.skip(seen)[0] == pieces[seen]);
                    assert(pieces.skip(seen).skip(1) =~= pieces.skip(seen + 1));
                    let length = BoundedLength::parse(raw)?;
                    self.accept(length)?;
                    proof {
                        seen = seen + 1;
                    }
                },
            }
        }
        Ok(())
    }
}

impl<'a> CommaMembers<'a> {
    /// The members still to come.
    spec fn coming(self) -> Seq<Seq<u8>> {
        match self.remainder {
            Some(rest) => split(rest@, ',' as u8),
            None => Seq::empty(),
        }
    }

    fn new(value: &'a [u8]) -> (members: Self)
        ensures
            members.coming() == split(value@, ',' as u8),
    {
        CommaMembers { remainder: Some(value) }
    }

    fn next(&mut self) -> (member: Option<&'a [u8]>)
        ensures
            match member {
                Some(m) => old(self).coming().len() > 0 && m@ == old(self).coming()[0]
                    && final(self).coming() == old(self).coming().skip(1),
                None => old(self).coming().len() == 0 && final(self).coming() == old(
                    self,
                ).coming(),
            },
    {
        let remaining: &'a [u8] = match self.remainder {
            Some(remaining) => remaining,
            None => return None,
        };
        let ghost before = self.coming();
        let comma: usize = find_in(remaining, ByteClass::Only(',' as u8));
        if comma < remaining.len() {
            let tail: &'a [u8] = &remaining[comma + 1..remaining.len()];
            self.remainder = Some(tail);
            let head: &'a [u8] = &remaining[0..comma];
            assert(head@ =~= remaining@.take(comma as int));
            assert(tail@ =~= remaining@.skip(comma + 1));
            assert(before.skip(1) =~= split(tail@, ',' as u8));
            return Some(head);
        }
        self.remainder = None;
        assert(before.skip(1) =~= Seq::<Seq<u8>>::empty());
        Some(remaining)
    }
}

} // verus!
