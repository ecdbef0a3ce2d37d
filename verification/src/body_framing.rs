//! Finding out how a message body is framed.

use vstd::prelude::*;
use crate::bytes::{
    ByteClass, first_in, is_trimmed_range, lemma_first_in, lemma_trimmed_ends, lowered,
    same_lowered, split, trim_ows, trimmed,
};
use crate::decimal::{clamp_to_usize, clamped, decimal, is_decimal, parse_decimal};
use crate::text::{lemma_ascii_literal, lemma_utf8_injective, utf8};
use crate::types::{BodyFraming, Fault, FieldModel, PolyguardError, Result, Verdict, limit_exceeded};

verus! {

/// The greatest accepted Content-Length.
pub const CONTENT_LENGTH_LIMIT: u64 = 16_777_216;

pub open spec fn is_content_length(field: FieldModel) -> bool {
    field.name == utf8("content-length"@)
}

pub open spec fn is_transfer_encoding(field: FieldModel) -> bool {
    field.name == utf8("transfer-encoding"@)
}

pub open spec fn has_content_length(fields: Seq<FieldModel>, upto: int) -> bool {
    exists|i: int| 0 <= i < upto && is_content_length(#[trigger] fields[i])
}

pub open spec fn has_transfer_encoding(fields: Seq<FieldModel>, upto: int) -> bool {
    exists|i: int| 0 <= i < upto && is_transfer_encoding(#[trigger] fields[i])
}

/// The length that a member of a Content-Length value stands for.
pub open spec fn member_length(member: Seq<u8>) -> Verdict<int> {
    let digits = trimmed(member);
    if !is_decimal(digits, u64::MAX as nat) {
        Err(Fault::InvalidContentLength)
    } else if decimal(digits) > CONTENT_LENGTH_LIMIT {
        Err(
            Fault::LimitExceeded {
                limit: "content_length"@,
                max: CONTENT_LENGTH_LIMIT as int,
                actual: clamped(decimal(digits) as int),
            },
        )
    } else {
        Ok(decimal(digits) as int)
    }
}

/// The length agreed on once a member has been read: every member has to say the same.
pub open spec fn agree(agreed: Option<int>, member: Seq<u8>) -> Verdict<Option<int>> {
    match member_length(member) {
        Ok(length) => if agreed is Some && agreed != Some(length) {
            Err(Fault::ConflictingContentLength)
        } else {
            Ok(Some(length))
        },
        Err(fault) => Err(fault),
    }
}

/// The length agreed on once the members from `from` on have been read.
pub open spec fn agree_members(agreed: Option<int>, members: Seq<Seq<u8>>, from: int) -> Verdict<
    Option<int>,
>
    decreases members.len() - from,
{
    if from >= members.len() {
        Ok(agreed)
    } else {
        match agree(agreed, members[from]) {
            Ok(next) => agree_members(next, members, from + 1),
            Err(fault) => Err(fault),
        }
    }
}

/// The length agreed on once the Content-Length fields from `from` on have been read.
pub open spec fn agree_fields(agreed: Option<int>, fields: Seq<FieldModel>, from: int) -> Verdict<
    Option<int>,
>
    decreases fields.len() - from,
{
    if from >= fields.len() {
        Ok(agreed)
    } else if is_content_length(fields[from]) {
        match agree_members(agreed, split(fields[from].value, ',' as u8), 0) {
            Ok(next) => agree_fields(next, fields, from + 1),
            Err(fault) => Err(fault),
        }
    } else {
        agree_fields(agreed, fields, from + 1)
    }
}

/// Whether a transfer coding is `chunked`, in any case.
pub open spec fn is_chunked(coding: Seq<u8>) -> bool {
    lowered(trimmed(coding)) == utf8("chunked"@)
}

/// Whether there is one transfer coding, and it is `chunked`.
pub open spec fn only_chunked(fields: Seq<FieldModel>) -> bool {
    exists|i: int|
        0 <= i < fields.len() && is_transfer_encoding(#[trigger] fields[i]) && is_chunked(
            fields[i].value,
        ) && only_transfer_encoding(fields, i)
}

/// Whether no field but the one at `i` is a Transfer-Encoding field.
pub open spec fn only_transfer_encoding(fields: Seq<FieldModel>, i: int) -> bool {
    forall|j: int| 0 <= j < fields.len() && j != i ==> !is_transfer_encoding(#[trigger] fields[j])
}

/// The framing that an agreed length stands for.
pub open spec fn framing_of(length: int) -> BodyFraming {
    if length == 0 {
        BodyFraming::NoBody
    } else {
        BodyFraming::ContentLength(length as u64)
    }
}

/// How the body is framed: a message with both kinds of framing fields is ambiguous whatever
/// they hold.
pub open spec fn framing(fields: Seq<FieldModel>) -> Verdict<BodyFraming> {
    let n = fields.len() as int;
    if has_content_length(fields, n) && has_transfer_encoding(fields, n) {
        Err(Fault::AmbiguousFraming)
    } else if has_transfer_encoding(fields, n) {
        if only_chunked(fields) {
            Ok(BodyFraming::Chunked)
        } else {
            Err(Fault::InvalidTransferEncoding)
        }
    } else if has_content_length(fields, n) {
        match agree_fields(None, fields, 0) {
            Ok(Some(length)) => Ok(framing_of(length)),
            Ok(None) => Err(Fault::InvalidContentLength),
            Err(fault) => Err(fault),
        }
    } else {
        Ok(BodyFraming::NoBody)
    }
}

/// An agreed length is within the limit.
pub open spec fn agreed_in_range(agreed: Option<int>) -> bool {
    agreed matches Some(length) ==> 0 <= length <= CONTENT_LENGTH_LIMIT
}

pub proof fn lemma_agree_members(agreed: Option<int>, members: Seq<Seq<u8>>, from: int)
    requires
        0 <= from,
        agreed_in_range(agreed),
    ensures
        agree_members(agreed, members, from) matches Ok(next) ==> agreed_in_range(next) && (agreed
            is Some ==> next == agreed) && (from < members.len() ==> next is Some),
    decreases members.len() - from,
{
    if from < members.len() {
        match agree(agreed, members[from]) {
            Ok(next) => lemma_agree_members(next, members, from + 1),
            Err(_) => {},
        }
    }
}

pub proof fn lemma_agree_fields(agreed: Option<int>, fields: Seq<FieldModel>, from: int)
    requires
        0 <= from,
        agreed_in_range(agreed),
    ensures
        agree_fields(agreed, fields, from) matches Ok(next) ==> agreed_in_range(next) && (agreed
            is Some ==> next == agreed) && ((exists|i: int|
            from <= i < fields.len() && is_content_length(#[trigger] fields[i])) ==> next is Some),
    decreases fields.len() - from,
{
    if from < fields.len() {
        if is_content_length(fields[from]) {
            let members = split(fields[from].value, ',' as u8);
            lemma_agree_members(agreed, members, 0);
            assert(members.len() > 0);
            match agree_members(agreed, members, 0) {
                Ok(next) => lemma_agree_fields(next, fields, from + 1),
                Err(_) => {},
            }
        } else {
            lemma_agree_fields(agreed, fields, from + 1);
        }
    }
}

/// Where there is a Content-Length field and its members agree, there is an agreed length.
pub proof fn lemma_some_length(fields: Seq<FieldModel>)
    requires
        has_content_length(fields, fields.len() as int),
    ensures
        agree_fields(None, fields, 0) matches Ok(agreed) ==> agreed is Some && agreed_in_range(
            agreed,
        ),
{
    lemma_agree_fields(None, fields, 0);
    let i = choose|i: int| 0 <= i < fields.len() && is_content_length(#[trigger] fields[i]);
    assert(0 <= i < fields.len() && is_content_length(fields[i]));
}

/// A message with both Content-Length and Transfer-Encoding is refused as ambiguous, whatever
/// the two fields hold.
pub proof fn lemma_both_is_ambiguous(fields: Seq<FieldModel>, i: int, j: int)
    requires
        0 <= i < fields.len(),
        0 <= j < fields.len(),
        is_content_length(fields[i]),
        is_transfer_encoding(fields[j]),
    ensures
        framing(fields) == Err::<BodyFraming, Fault>(Fault::AmbiguousFraming),
{
}

/// A framing by length is by a length between one and the limit.
pub proof fn lemma_length_in_range(fields: Seq<FieldModel>)
    ensures
        framing(fields) matches Ok(BodyFraming::ContentLength(length)) ==> 0 < length
            <= CONTENT_LENGTH_LIMIT,
{
    if has_content_length(fields, fields.len() as int) {
        lemma_some_length(fields);
    }
}

/// A single coding leaves no room for a comma: the value that is `chunked` as a whole is one
/// member.
pub proof fn lemma_chunked_is_one_member(value: Seq<u8>)
    ensures
        is_chunked(value) <==> split(value, ',' as u8).len() == 1 && is_chunked(
            split(value, ',' as u8)[0],
        ),
{
    let class = ByteClass::Only(',' as u8);
    lemma_first_in(value, class);
    let i = first_in(value, class);
    if i < value.len() {
        assert(split(value.skip(i + 1), ',' as u8).len() > 0);
        assert(split(value, ',' as u8).len() > 1);
        if is_chunked(value) {
            lemma_trimmed_ends(value);
            let (a, b) = choose|a: int, b: int|
                #[trigger] is_trimmed_range(value, a, b) && trimmed(value) == value.subrange(a, b);
            assert(value[i] == ',' as u8);
            assert(a <= i < b);
            assert(lowered(trimmed(value))[i - a] == ',' as u8);
            reveal_strlit("chunked");
            lemma_ascii_literal("chunked"@);
            assert(utf8("chunked"@)[i - a] != ',' as u8);
        }
    } else {
        assert(split(value, ',' as u8) =~= seq![value]);
    }
}

/// What one field more says of which framing fields are there.
pub proof fn lemma_presence_next(fields: Seq<FieldModel>, i: int)
    requires
        0 <= i < fields.len(),
    ensures
        has_content_length(fields, i + 1) <==> has_content_length(fields, i) || is_content_length(
            fields[i],
        ),
        has_transfer_encoding(fields, i + 1) <==> has_transfer_encoding(fields, i)
            || is_transfer_encoding(fields[i]),
        !(is_content_length(fields[i]) && is_transfer_encoding(fields[i])),
{
    lemma_presence_grows(fields, i, i + 1);
    if is_content_length(fields[i]) && is_transfer_encoding(fields[i]) {
        lemma_utf8_injective("content-length"@, "transfer-encoding"@);
        reveal_strlit("content-length");
        reveal_strlit("transfer-encoding");
    }
}

/// Framing fields that are there stay there.
pub proof fn lemma_presence_grows(fields: Seq<FieldModel>, i: int, j: int)
    requires
        0 <= i <= j <= fields.len(),
    ensures
        has_content_length(fields, i) ==> has_content_length(fields, j),
        has_transfer_encoding(fields, i) ==> has_transfer_encoding(fields, j),
{
    if has_content_length(fields, i) {
        let k = choose|k: int| 0 <= k < i && is_content_length(#[trigger] fields[k]);
        assert(is_content_length(fields[k]));
    }
    if has_transfer_encoding(fields, i) {
        let k = choose|k: int| 0 <= k < i && is_transfer_encoding(#[trigger] fields[k]);
        assert(is_transfer_encoding(fields[k]));
    }
}

/// The number that a member of a Content-Length value stands for.
pub fn parse_member_length(member: &[u8]) -> (length: Result<u64>)
    ensures
        match length {
            Ok(l) => member_length(member@) == Ok::<int, Fault>(l as int),
            Err(e) => member_length(member@) == Err::<int, Fault>(e@),
        },
{
    match parse_decimal(trim_ows(member)) {
        None => Err(PolyguardError::InvalidContentLength),
        Some(value) => {
            if value > CONTENT_LENGTH_LIMIT {
                Err(
                    limit_exceeded(
                        "content_length",
                        CONTENT_LENGTH_LIMIT as usize,
                        clamp_to_usize(value),
                    ),
                )
            } else {
                Ok(value)
            }
        },
    }
}

/// Whether a transfer coding is `chunked`.
pub fn is_chunked_coding(coding: &[u8]) -> (chunked: bool)
    ensures
        chunked == is_chunked(coding@),
{
    same_lowered(trim_ows(coding), "chunked".as_bytes())
}

} // verus!
