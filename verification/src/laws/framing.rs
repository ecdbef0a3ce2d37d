//! Body framing, said of the framing fields' bytes.

use vstd::prelude::*;
use crate::body_framing::{
    agree, agree_fields, agree_members, framing, has_content_length, has_transfer_encoding,
    is_chunked, is_content_length, is_transfer_encoding, lemma_some_length, member_length,
    only_chunked, only_transfer_encoding,
};
use crate::bytes::{
    ByteClass, all_in, is_trimmed_range, lemma_trimmed_ends, lowered, split, trimmed,
};
use crate::decimal::decimal;
use crate::ip_round_trip::lemma_split_whole;
use crate::laws::byte_text::lemma_trimmed_off;
use crate::text::{lemma_ascii_literal, utf8};
use crate::types::{BodyFraming, Fault, FieldModel};

verus! {

/// Where the framing is chunked, one field is the Transfer-Encoding field, its value without
/// spaces and tabs around it is `chunked` in whatever case, and no field is a Content-Length.
pub proof fn lemma_chunked_says_chunked(fields: Seq<FieldModel>)
    requires
        framing(fields) == Ok::<BodyFraming, Fault>(BodyFraming::Chunked),
    ensures
        exists|i: int, a: int|
            #![trigger fields[i].value.subrange(a, a + 7)]
            {
                let value = fields[i].value;
                &&& 0 <= i < fields.len()
                &&& fields[i].name == utf8("transfer-encoding"@)
                &&& 0 <= a <= value.len() - 7
                &&& forall|j: int|
                    0 <= j < a || a + 7 <= j < value.len() ==> #[trigger] value[j] == 0x20
                        || value[j] == 0x09
                &&& lowered(value.subrange(a, a + 7)) == seq![
                    0x63u8,
                    0x68u8,
                    0x75u8,
                    0x6eu8,
                    0x6bu8,
                    0x65u8,
                    0x64u8,
                ]
                &&& forall|k: int|
                    0 <= k < fields.len() && k != i ==> (#[trigger] fields[k]).name != utf8(
                        "transfer-encoding"@,
                    )
            },
        forall|k: int|
            0 <= k < fields.len() ==> (#[trigger] fields[k]).name != utf8("content-length"@),
{
    let n = fields.len() as int;
    if has_content_length(fields, n) {
        lemma_some_length(fields);
    }
    assert(has_transfer_encoding(fields, n));
    assert forall|k: int| 0 <= k < n implies (#[trigger] fields[k]).name != utf8(
        "content-length"@,
    ) by {
        assert(!has_content_length(fields, n));
        assert(!is_content_length(fields[k]));
    }
    let i = choose|i: int|
        0 <= i < fields.len() && is_transfer_encoding(#[trigger] fields[i]) && is_chunked(
            fields[i].value,
        ) && only_transfer_encoding(fields, i);
    let value = fields[i].value;
    reveal_strlit("chunked");
    lemma_ascii_literal("chunked"@);
    lemma_trimmed_ends(value);
    let (a, b) = choose|a: int, b: int|
        #[trigger] is_trimmed_range(value, a, b) && trimmed(value) == value.subrange(a, b);
    assert(lowered(trimmed(value)).len() == 7);
    assert(b == a + 7);
    assert(lowered(value.subrange(a, a + 7)) =~= seq![
        0x63u8,
        0x68u8,
        0x75u8,
        0x6eu8,
        0x6bu8,
        0x65u8,
        0x64u8,
    ]);
    assert forall|k: int| 0 <= k < n && k != i implies (#[trigger] fields[k]).name != utf8(
        "transfer-encoding"@,
    ) by {
        assert(!is_transfer_encoding(fields[k]));
    }
    assert(fields[i].value.subrange(a, a + 7) == value.subrange(a, a + 7));
}

/// One Transfer-Encoding field that says `chunked`, in whatever case and with spaces and tabs
/// around it, and no Content-Length field: the body is chunked.
pub proof fn lemma_chunked_is_accepted(
    fields: Seq<FieldModel>,
    i: int,
    before: Seq<u8>,
    word: Seq<u8>,
    after: Seq<u8>,
)
    requires
        0 <= i < fields.len(),
        fields[i].name == utf8("transfer-encoding"@),
        fields[i].value == before + word + after,
        forall|j: int| 0 <= j < before.len() ==> #[trigger] before[j] == 0x20 || before[j] == 0x09,
        forall|j: int| 0 <= j < after.len() ==> #[trigger] after[j] == 0x20 || after[j] == 0x09,
        lowered(word) == seq![0x63u8, 0x68u8, 0x75u8, 0x6eu8, 0x6bu8, 0x65u8, 0x64u8],
        forall|k: int|
            0 <= k < fields.len() && k != i ==> (#[trigger] fields[k]).name != utf8(
                "transfer-encoding"@,
            ),
        forall|k: int|
            0 <= k < fields.len() ==> (#[trigger] fields[k]).name != utf8("content-length"@),
    ensures
        framing(fields) == Ok::<BodyFraming, Fault>(BodyFraming::Chunked),
{
    let n = fields.len() as int;
    assert(lowered(word).len() == word.len());
    assert(lowered(word)[0] == 0x63u8);
    assert(lowered(word)[6] == 0x64u8);
    lemma_trimmed_off(before, word, after);
    reveal_strlit("chunked");
    lemma_ascii_literal("chunked"@);
    assert(lowered(word) =~= utf8("chunked"@));
    assert(is_chunked(fields[i].value));
    assert(is_transfer_encoding(fields[i]));
    assert(only_transfer_encoding(fields, i)) by {
        assert forall|j: int| 0 <= j < n && j != i implies !is_transfer_encoding(
            #[trigger] fields[j],
        ) by {}
    }
    assert(only_chunked(fields));
    assert(!has_content_length(fields, n)) by {
        assert forall|j: int| 0 <= j < n implies !is_content_length(#[trigger] fields[j]) by {}
    }
}

/// What the framing fields leave: without a Transfer-Encoding and a Content-Length field there is
/// no body; with both the framing is ambiguous; and a Transfer-Encoding alone is chunked or it is
/// refused.
pub proof fn lemma_framing_fields_decide(fields: Seq<FieldModel>)
    ensures
        ({
            let coded = exists|i: int|
                0 <= i < fields.len() && (#[trigger] fields[i]).name == utf8("transfer-encoding"@);
            let counted = exists|i: int|
                0 <= i < fields.len() && (#[trigger] fields[i]).name == utf8("content-length"@);
            &&& !coded && !counted ==> framing(fields) == Ok::<BodyFraming, Fault>(
                BodyFraming::NoBody,
            )
            &&& coded && counted <==> framing(fields) == Err::<BodyFraming, Fault>(
                Fault::AmbiguousFraming,
            )
            &&& coded && !counted ==> framing(fields) == Ok::<BodyFraming, Fault>(
                BodyFraming::Chunked,
            ) || framing(fields) == Err::<BodyFraming, Fault>(Fault::InvalidTransferEncoding)
            &&& framing(fields) == Err::<BodyFraming, Fault>(Fault::InvalidTransferEncoding)
                ==> coded
        }),
{
    let n = fields.len() as int;
    let coded = exists|i: int|
        0 <= i < fields.len() && (#[trigger] fields[i]).name == utf8("transfer-encoding"@);
    let counted = exists|i: int|
        0 <= i < fields.len() && (#[trigger] fields[i]).name == utf8("content-length"@);
    assert(coded == has_transfer_encoding(fields, n)) by {
        if coded {
            let i = choose|i: int|
                0 <= i < fields.len() && (#[trigger] fields[i]).name == utf8(
                    "transfer-encoding"@,
                );
            assert(is_transfer_encoding(fields[i]));
        }
    }
    assert(counted == has_content_length(fields, n)) by {
        if counted {
            let i = choose|i: int|
                0 <= i < fields.len() && (#[trigger] fields[i]).name == utf8("content-length"@);
            assert(is_content_length(fields[i]));
        }
    }
    lemma_length_faults(None, fields, 0);
}

/// Counting fails for a length that is not one, that is too large, or that differs.
proof fn lemma_length_faults(agreed: Option<int>, fields: Seq<FieldModel>, from: int)
    requires
        0 <= from <= fields.len(),
    ensures
        agree_fields(agreed, fields, from) matches Err(fault) ==> fault is InvalidContentLength
            || fault is LimitExceeded || fault is ConflictingContentLength,
    decreases fields.len() - from,
{
    if from < fields.len() {
        if is_content_length(fields[from]) {
            let members = split(fields[from].value, ',' as u8);
            lemma_member_faults(agreed, members, 0);
            match agree_members(agreed, members, 0) {
                Ok(next) => lemma_length_faults(next, fields, from + 1),
                Err(_) => {},
            }
        } else {
            lemma_length_faults(agreed, fields, from + 1);
        }
    }
}

proof fn lemma_member_faults(agreed: Option<int>, members: Seq<Seq<u8>>, from: int)
    requires
        0 <= from <= members.len(),
    ensures
        agree_members(agreed, members, from) matches Err(fault) ==> fault is InvalidContentLength
            || fault is LimitExceeded || fault is ConflictingContentLength,
    decreases members.len() - from,
{
    if from < members.len() {
        match agree(agreed, members[from]) {
            Ok(next) => lemma_member_faults(next, members, from + 1),
            Err(_) => {},
        }
    }
}

/// Where the length is given, every member of every Content-Length field gives it: decimal digits
/// between spaces and tabs, for a number from 1 up to 16777216.
pub proof fn lemma_length_is_told(fields: Seq<FieldModel>, length: u64)
    requires
        framing(fields) == Ok::<BodyFraming, Fault>(BodyFraming::ContentLength(length)),
    ensures
        1 <= length <= 16777216,
        exists|i: int|
            0 <= i < fields.len() && (#[trigger] fields[i]).name == utf8("content-length"@),
        forall|i: int|
            0 <= i < fields.len() ==> (#[trigger] fields[i]).name != utf8("transfer-encoding"@),
        forall|i: int, k: int|
            0 <= i < fields.len() && fields[i].name == utf8("content-length"@) && 0 <= k < split(
                fields[i].value,
                0x2c,
            ).len() ==> {
                let digits = trimmed(#[trigger] split(fields[i].value, 0x2c)[k]);
                &&& digits.len() >= 1
                &&& forall|j: int|
                    0 <= j < digits.len() ==> 0x30 <= #[trigger] digits[j] && digits[j] <= 0x39
                &&& decimal(digits) == length
            },
{
    let n = fields.len() as int;
    assert(has_content_length(fields, n));
    lemma_some_length(fields);
    assert forall|i: int| 0 <= i < n implies (#[trigger] fields[i]).name != utf8(
        "transfer-encoding"@,
    ) by {
        if fields[i].name == utf8("transfer-encoding"@) {
            assert(is_transfer_encoding(fields[i]));
            assert(has_transfer_encoding(fields, n));
        }
    }
    lemma_lengths_told(None, fields, 0, length as int);
    assert forall|i: int, k: int|
        0 <= i < fields.len() && fields[i].name == utf8("content-length"@) && 0 <= k < split(
            fields[i].value,
            0x2c,
        ).len() implies {
        let digits = trimmed(#[trigger] split(fields[i].value, 0x2c)[k]);
        &&& digits.len() >= 1
        &&& forall|j: int|
            0 <= j < digits.len() ==> 0x30 <= #[trigger] digits[j] && digits[j] <= 0x39
        &&& decimal(digits) == length
    } by {
        assert(is_content_length(fields[i]));
        let piece = split(fields[i].value, ',' as u8)[k];
        assert(member_length(piece) == Ok::<int, Fault>(length as int));
        let digits = trimmed(piece);
        assert forall|j: int| 0 <= j < digits.len() implies 0x30 <= #[trigger] digits[j]
            && digits[j] <= 0x39 by {
            assert(ByteClass::Digit.has(digits[j]));
        }
    }
}

proof fn lemma_lengths_told(agreed: Option<int>, fields: Seq<FieldModel>, from: int, length: int)
    requires
        0 <= from <= fields.len(),
        agree_fields(agreed, fields, from) == Ok::<Option<int>, Fault>(Some(length)),
    ensures
        agreed is None || agreed == Some(length),
        forall|i: int, k: int|
            from <= i < fields.len() && is_content_length(fields[i]) && 0 <= k < split(
                fields[i].value,
                ',' as u8,
            ).len() ==> member_length(#[trigger] split(fields[i].value, ',' as u8)[k]) == Ok::<
                int,
                Fault,
            >(length),
    decreases fields.len() - from,
{
    if from < fields.len() {
        if is_content_length(fields[from]) {
            let members = split(fields[from].value, ',' as u8);
            let next = agree_members(agreed, members, 0)->Ok_0;
            lemma_lengths_told(next, fields, from + 1, length);
            lemma_members_told(agreed, members, 0, length);
        } else {
            lemma_lengths_told(agreed, fields, from + 1, length);
        }
    }
}

proof fn lemma_members_told(agreed: Option<int>, members: Seq<Seq<u8>>, from: int, length: int)
    requires
        0 <= from <= members.len(),
        agree_members(agreed, members, from) matches Ok(next) && (next is None || next == Some(
            length,
        )),
    ensures
        agreed is None || agreed == Some(length),
        forall|k: int|
            from <= k < members.len() ==> member_length(#[trigger] members[k]) == Ok::<int, Fault>(
                length,
            ),
    decreases members.len() - from,
{
    if from < members.len() {
        let next = agree(agreed, members[from])->Ok_0;
        lemma_members_told(next, members, from + 1, length);
    }
}

/// Content-Length fields whose members all give one number, at most 16777216, and no
/// Transfer-Encoding field: the body has that length, and there is none where it is zero.
pub proof fn lemma_length_is_accepted(fields: Seq<FieldModel>, i: int, length: u64)
    requires
        0 <= i < fields.len(),
        fields[i].name == utf8("content-length"@),
        forall|k: int|
            0 <= k < fields.len() ==> (#[trigger] fields[k]).name != utf8("transfer-encoding"@),
        length <= 16777216,
        forall|f: int, k: int|
            0 <= f < fields.len() && fields[f].name == utf8("content-length"@) && 0 <= k < split(
                fields[f].value,
                0x2c,
            ).len() ==> {
                let digits = trimmed(#[trigger] split(fields[f].value, 0x2c)[k]);
                &&& digits.len() >= 1
                &&& forall|j: int|
                    0 <= j < digits.len() ==> 0x30 <= #[trigger] digits[j] && digits[j] <= 0x39
                &&& decimal(digits) == length
            },
    ensures
        framing(fields) == Ok::<BodyFraming, Fault>(
            if length == 0 {
                BodyFraming::NoBody
            } else {
                BodyFraming::ContentLength(length)
            },
        ),
{
    let n = fields.len() as int;
    assert(is_content_length(fields[i]));
    assert(has_content_length(fields, n));
    assert(!has_transfer_encoding(fields, n)) by {
        assert forall|k: int| 0 <= k < n implies !is_transfer_encoding(#[trigger] fields[k]) by {}
    }
    assert forall|f: int, k: int|
        0 <= f < fields.len() && is_content_length(fields[f]) && 0 <= k < split(
            fields[f].value,
            ',' as u8,
        ).len() implies member_length(#[trigger] split(fields[f].value, ',' as u8)[k]) == Ok::<
        int,
        Fault,
    >(length as int) by {
        let digits = trimmed(split(fields[f].value, 0x2c)[k]);
        assert(all_in(digits, ByteClass::Digit)) by {
            assert forall|j: int| 0 <= j < digits.len() implies ByteClass::Digit.has(
                #[trigger] digits[j],
            ) by {
                assert(0x30 <= digits[j] && digits[j] <= 0x39);
            }
        }
    }
    lemma_lengths_agree(None, fields, 0, length as int);
    lemma_some_length(fields);
    assert(agree_fields(None, fields, 0) == Ok::<Option<int>, Fault>(Some(length as int)));
}

proof fn lemma_lengths_agree(agreed: Option<int>, fields: Seq<FieldModel>, from: int, length: int)
    requires
        0 <= from <= fields.len(),
        agreed is None || agreed == Some(length),
        forall|i: int, k: int|
            from <= i < fields.len() && is_content_length(fields[i]) && 0 <= k < split(
                fields[i].value,
                ',' as u8,
            ).len() ==> member_length(#[trigger] split(fields[i].value, ',' as u8)[k]) == Ok::<
                int,
                Fault,
            >(length),
    ensures
        agree_fields(agreed, fields, from) matches Ok(next) && (next is None || next == Some(
            length,
        )),
    decreases fields.len() - from,
{
    if from < fields.len() {
        if is_content_length(fields[from]) {
            let members = split(fields[from].value, ',' as u8);
            assert forall|k: int| 0 <= k < members.len() implies member_length(
                #[trigger] members[k],
            ) == Ok::<int, Fault>(length) by {
                assert(member_length(split(fields[from].value, ',' as u8)[k]) == Ok::<int, Fault>(
                    length,
                ));
            }
            lemma_members_agree(agreed, members, 0, length);
            let next = agree_members(agreed, members, 0)->Ok_0;
            lemma_lengths_agree(next, fields, from + 1, length);
        } else {
            lemma_lengths_agree(agreed, fields, from + 1, length);
        }
    }
}

proof fn lemma_members_agree(agreed: Option<int>, members: Seq<Seq<u8>>, from: int, length: int)
    requires
        0 <= from <= members.len(),
        agreed is None || agreed == Some(length),
        forall|k: int|
            from <= k < members.len() ==> member_length(#[trigger] members[k]) == Ok::<int, Fault>(
                length,
            ),
    ensures
        agree_members(agreed, members, from) matches Ok(next) && (next is None || next == Some(
            length,
        )),
    decreases members.len() - from,
{
    if from < members.len() {
        lemma_members_agree(Some(length), members, from + 1, length);
    }
}

/// A single Content-Length member that is not a number of decimal digits is invalid, and one
/// above 16777216 exceeds the limit, which is told with the number as far as a word holds it.
pub proof fn lemma_length_is_refused(fields: Seq<FieldModel>, i: int)
    requires
        0 <= i < fields.len(),
        fields[i].name == utf8("content-length"@),
        forall|k: int|
            0 <= k < fields.len() ==> (#[trigger] fields[k]).name != utf8("transfer-encoding"@),
        forall|k: int|
            0 <= k < fields.len() && k != i ==> (#[trigger] fields[k]).name != utf8(
                "content-length"@,
            ),
        forall|j: int| 0 <= j < fields[i].value.len() ==> #[trigger] fields[i].value[j] != 0x2c,
    ensures
        ({
            let digits = trimmed(fields[i].value);
            let numeric = digits.len() >= 1 && forall|j: int|
                0 <= j < digits.len() ==> 0x30 <= #[trigger] digits[j] && digits[j] <= 0x39;
            &&& !numeric || decimal(digits) > 0xffff_ffff_ffff_ffff ==> framing(fields) == Err::<
                BodyFraming,
                Fault,
            >(Fault::InvalidContentLength)
            &&& numeric && 16777216 < decimal(digits) <= 0xffff_ffff_ffff_ffff ==> framing(fields)
                == Err::<BodyFraming, Fault>(
                Fault::LimitExceeded {
                    limit: "content_length"@,
                    max: 16777216,
                    actual: if decimal(digits) <= usize::MAX {
                        decimal(digits) as int
                    } else {
                        usize::MAX as int
                    },
                },
            )
        }),
{
    let n = fields.len() as int;
    let value = fields[i].value;
    let digits = trimmed(value);
    assert(is_content_length(fields[i]));
    assert(has_content_length(fields, n));
    assert(!has_transfer_encoding(fields, n)) by {
        assert forall|k: int| 0 <= k < n implies !is_transfer_encoding(#[trigger] fields[k]) by {}
    }
    lemma_split_whole(value, ',' as u8);
    assert(split(value, ',' as u8) == seq![value]);
    lemma_first_length(fields, 0, i);
    assert(agree_fields(None, fields, i) == match agree_members(None, seq![value], 0) {
        Ok(next) => agree_fields(next, fields, i + 1),
        Err(fault) => Err(fault),
    });
    let numeric = digits.len() >= 1 && forall|j: int|
        0 <= j < digits.len() ==> 0x30 <= #[trigger] digits[j] && digits[j] <= 0x39;
    assert(numeric == (digits.len() > 0 && all_in(digits, ByteClass::Digit))) by {
        if digits.len() > 0 && all_in(digits, ByteClass::Digit) {
            assert forall|j: int| 0 <= j < digits.len() implies 0x30 <= #[trigger] digits[j]
                && digits[j] <= 0x39 by {
                assert(ByteClass::Digit.has(digits[j]));
            }
        }
    }
    assert(seq![value][0] == value);
}

proof fn lemma_first_length(fields: Seq<FieldModel>, from: int, i: int)
    requires
        0 <= from <= i < fields.len(),
        forall|k: int| 0 <= k < i ==> !is_content_length(#[trigger] fields[k]),
    ensures
        agree_fields(None, fields, from) == agree_fields(None, fields, i),
    decreases i - from,
{
    if from < i {
        lemma_first_length(fields, from + 1, i);
    }
}

/// Content-Length members that are numbers up to 16777216, of which two differ, conflict.
pub proof fn lemma_lengths_conflict(fields: Seq<FieldModel>, f: int, k: int, g: int, m: int)
    requires
        forall|i: int|
            0 <= i < fields.len() ==> (#[trigger] fields[i]).name != utf8("transfer-encoding"@),
        forall|i: int, j: int|
            0 <= i < fields.len() && fields[i].name == utf8("content-length"@) && 0 <= j < split(
                fields[i].value,
                0x2c,
            ).len() ==> {
                let digits = trimmed(#[trigger] split(fields[i].value, 0x2c)[j]);
                &&& digits.len() >= 1
                &&& forall|x: int|
                    0 <= x < digits.len() ==> 0x30 <= #[trigger] digits[x] && digits[x] <= 0x39
                &&& decimal(digits) <= 16777216
            },
        0 <= f < fields.len(),
        0 <= g < fields.len(),
        fields[f].name == utf8("content-length"@),
        fields[g].name == utf8("content-length"@),
        0 <= k < split(fields[f].value, 0x2c).len(),
        0 <= m < split(fields[g].value, 0x2c).len(),
        decimal(trimmed(split(fields[f].value, 0x2c)[k])) != decimal(
            trimmed(split(fields[g].value, 0x2c)[m]),
        ),
    ensures
        framing(fields) == Err::<BodyFraming, Fault>(Fault::ConflictingContentLength),
{
    let n = fields.len() as int;
    assert(is_content_length(fields[f]));
    assert(is_content_length(fields[g]));
    assert(has_content_length(fields, n));
    assert(!has_transfer_encoding(fields, n)) by {
        assert forall|i: int| 0 <= i < n implies !is_transfer_encoding(#[trigger] fields[i]) by {}
    }
    assert forall|i: int, j: int|
        0 <= i < n && is_content_length(fields[i]) && 0 <= j < split(
            fields[i].value,
            ',' as u8,
        ).len() implies member_length(#[trigger] split(fields[i].value, ',' as u8)[j]) == Ok::<
        int,
        Fault,
    >(decimal(trimmed(split(fields[i].value, ',' as u8)[j])) as int) by {
        let digits = trimmed(split(fields[i].value, 0x2c)[j]);
        assert(all_in(digits, ByteClass::Digit)) by {
            assert forall|x: int| 0 <= x < digits.len() implies ByteClass::Digit.has(
                #[trigger] digits[x],
            ) by {
                assert(0x30 <= digits[x] && digits[x] <= 0x39);
            }
        }
    }
    lemma_conflict_only(None, fields, 0);
    lemma_some_length(fields);
    if agree_fields(None, fields, 0) is Ok {
        let length = agree_fields(None, fields, 0)->Ok_0.unwrap();
        lemma_lengths_told(None, fields, 0, length);
        assert(member_length(split(fields[f].value, ',' as u8)[k]) == Ok::<int, Fault>(length));
        assert(member_length(split(fields[g].value, ',' as u8)[m]) == Ok::<int, Fault>(length));
    }
}

proof fn lemma_conflict_only(agreed: Option<int>, fields: Seq<FieldModel>, from: int)
    requires
        0 <= from <= fields.len(),
        forall|i: int, j: int|
            0 <= i < fields.len() && is_content_length(fields[i]) && 0 <= j < split(
                fields[i].value,
                ',' as u8,
            ).len() ==> member_length(#[trigger] split(fields[i].value, ',' as u8)[j]) is Ok,
    ensures
        agree_fields(agreed, fields, from) matches Err(fault) ==> fault is ConflictingContentLength,
    decreases fields.len() - from,
{
    if from < fields.len() {
        if is_content_length(fields[from]) {
            let members = split(fields[from].value, ',' as u8);
            assert forall|j: int| 0 <= j < members.len() implies member_length(
                #[trigger] members[j],
            ) is Ok by {
                assert(member_length(split(fields[from].value, ',' as u8)[j]) is Ok);
            }
            lemma_members_conflict_only(agreed, members, 0);
            match agree_members(agreed, members, 0) {
                Ok(next) => lemma_conflict_only(next, fields, from + 1),
                Err(_) => {},
            }
        } else {
            lemma_conflict_only(agreed, fields, from + 1);
        }
    }
}

proof fn lemma_members_conflict_only(agreed: Option<int>, members: Seq<Seq<u8>>, from: int)
    requires
        0 <= from <= members.len(),
        forall|j: int| 0 <= j < members.len() ==> member_length(#[trigger] members[j]) is Ok,
    ensures
        agree_members(agreed, members, from) matches Err(fault) ==> fault
            is ConflictingContentLength,
    decreases members.len() - from,
{
    if from < members.len() {
        match agree(agreed, members[from]) {
            Ok(next) => lemma_members_conflict_only(next, members, from + 1),
            Err(_) => {},
        }
    }
}

} // verus!
