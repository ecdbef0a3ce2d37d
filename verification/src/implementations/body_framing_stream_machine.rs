//! Body framing by a machine that is fed one field at a time.

use vstd::prelude::*;
use crate::body_framing::{
    CONTENT_LENGTH_LIMIT, agree, agree_fields, agree_members, framing, has_content_length,
    has_transfer_encoding, is_chunked, is_chunked_coding, is_content_length, is_transfer_encoding,
    lemma_chunked_is_one_member, lemma_presence_next, lemma_some_length, only_chunked,
    only_transfer_encoding,
};
use crate::bytes::{slices_of, split_on, trim_ows};
use crate::decimal::{clamp_to_usize, decimal, is_decimal, parse_decimal};
use crate::text::same_text;
use crate::types::{
    BodyFraming, Fault, FieldModel, HeaderBlock, HeaderField, PolyguardError, RequestLine, Result,
    Verdict, fields_of, limit_exceeded, outcome,
};

verus! {

#[derive(Clone, Copy, PartialEq, Eq, Structural)]
enum LengthFault {
    NoFault,
    BadContentLength,
    ConflictingLength,
    ExcessiveLength,
    BadTransferEncoding,
}

/// What the machine has seen: which framing fields, the length agreed on, how many transfer
/// codings, and the first fault.
#[derive(Clone, Copy)]
struct FramingMachine {
    saw_content_length: bool,
    saw_transfer_encoding: bool,
    agreed_length: u64,
    has_agreed_length: bool,
    transfer_members: usize,
    fault: LengthFault,
    fault_actual: usize,
}

impl FramingMachine {
    spec fn agreed(self) -> Option<int> {
        if self.has_agreed_length {
            Some(self.agreed_length as int)
        } else {
            None
        }
    }

    /// The error that the machine's fault stands for.
    spec fn error(self) -> Fault {
        match self.fault {
            LengthFault::NoFault => Fault::InvalidContentLength,
            LengthFault::BadContentLength => Fault::InvalidContentLength,
            LengthFault::ConflictingLength => Fault::ConflictingContentLength,
            LengthFault::ExcessiveLength => Fault::LimitExceeded {
                limit: "content_length"@,
                max: CONTENT_LENGTH_LIMIT as int,
                actual: self.fault_actual as int,
            },
            LengthFault::BadTransferEncoding => Fault::InvalidTransferEncoding,
        }
    }

    /// What the machine says of the lengths, where it has seen no transfer coding.
    spec fn tracks_lengths(self, verdict: Verdict<Option<int>>, rest: Verdict<Option<int>>) -> bool {
        if self.fault is NoFault {
            verdict == rest
        } else {
            !(self.fault is BadTransferEncoding) && verdict == Err::<Option<int>, Fault>(
                self.error(),
            )
        }
    }

    /// What the machine says of the transfer codings of the first `upto` fields, where it has
    /// seen no length: `at` is the Transfer-Encoding field, if there is just one.
    spec fn tracks_codings(self, fields: Seq<FieldModel>, upto: int, at: int) -> bool {
        if self.fault is NoFault {
            &&& self.transfer_members <= 1
            &&& self.transfer_members == 0 ==> forall|j: int|
                0 <= j < upto ==> !is_transfer_encoding(#[trigger] fields[j])
            &&& self.transfer_members == 1 ==> 0 <= at < upto && is_transfer_encoding(fields[at])
                && is_chunked(fields[at].value) && forall|j: int|
                0 <= j < upto && j != at ==> !is_transfer_encoding(#[trigger] fields[j])
        } else {
            self.fault is BadTransferEncoding && !only_chunked(fields)
        }
    }

    /// What the machine says of the first `upto` fields.
    spec fn describes(self, fields: Seq<FieldModel>, upto: int, at: int) -> bool {
        &&& self.saw_content_length == has_content_length(fields, upto)
        &&& self.saw_transfer_encoding == has_transfer_encoding(fields, upto)
        &&& !self.saw_transfer_encoding ==> self.transfer_members == 0 && self.tracks_lengths(
            agree_fields(None, fields, 0),
            agree_fields(self.agreed(), fields, upto),
        )
        &&& !self.saw_content_length ==> self.agreed() is None && self.tracks_codings(
            fields,
            upto,
            at,
        )
    }
}

pub fn determine_body_framing(_request: &RequestLine, headers: &HeaderBlock) -> (result: Result<
    BodyFraming,
>)
    ensures
        outcome(result) == framing(headers@.fields),
{
    let mut machine = FramingMachine {
        saw_content_length: false,
        saw_transfer_encoding: false,
        agreed_length: 0,
        has_agreed_length: false,
        transfer_members: 0,
        fault: LengthFault::NoFault,
        fault_actual: 0,
    };
    let mut index: usize = 0;
    let ghost models = headers@.fields;
    let ghost mut at: int = 0;
    while index < headers.fields.len()
        invariant
            index <= headers.fields@.len(),
            models == fields_of(headers.fields@),
            models == headers@.fields,
            machine.describes(models, index as int, at),
        decreases headers.fields@.len() - index,
    {
        let field: &HeaderField = &headers.fields[index];
        assert(models[index as int] == field@);
        machine = transition_field(machine, field, Ghost(models), Ghost(index as int), Ghost(at));
        proof {
            at = if machine.describes(models, index + 1, at) {
                at
            } else {
                index as int
            };
        }
        index += 1;
    }
    finish(machine, Ghost(models), Ghost(at))
}

fn transition_field(
    before: FramingMachine,
    field: &HeaderField,
    Ghost(fields): Ghost<Seq<FieldModel>>,
    Ghost(index): Ghost<int>,
    Ghost(at): Ghost<int>,
) -> (after: FramingMachine)
    requires
        0 <= index < fields.len(),
        fields[index] == field@,
        before.describes(fields, index, at),
    ensures
        after.describes(fields, index + 1, at) || after.describes(fields, index + 1, index),
{
    let mut machine = before;
    proof {
        lemma_presence_next(fields, index);
    }
    if same_text(field.name.as_str(), "content-length") {
        assert(is_content_length(fields[index]));
        machine.saw_content_length = true;
        let members: Vec<&[u8]> = split_on(field.value.as_slice(), ',' as u8);
        let ghost pieces = slices_of(members@);
        let mut k: usize = 0;
        while k < members.len()
            invariant
                k <= members@.len(),
                pieces == slices_of(members@),
                machine.saw_content_length,
                machine.saw_transfer_encoding == before.saw_transfer_encoding,
                machine.transfer_members == before.transfer_members,
                before.fault is NoFault ==> machine.tracks_lengths(
                    agree_members(before.agreed(), pieces, 0),
                    agree_members(machine.agreed(), pieces, k as int),
                ),
                !(before.fault is NoFault) ==> machine.fault == before.fault && machine.fault_actual
                    == before.fault_actual,
            decreases members@.len() - k,
        {
            assert(pieces[k as int] == members@[k as int]@);
            observe_length(&mut machine, members[k]);
            k += 1;
        }
        assert(machine.describes(fields, index + 1, at));
    } else if same_text(field.name.as_str(), "transfer-encoding") {
        assert(is_transfer_encoding(fields[index]));
        machine.saw_transfer_encoding = true;
        let members: Vec<&[u8]> = split_on(field.value.as_slice(), ',' as u8);
        let ghost pieces = slices_of(members@);
        let mut k: usize = 0;
        while k < members.len()
            invariant
                k <= members@.len(),
                pieces == slices_of(members@),
                machine.saw_transfer_encoding,
                machine.saw_content_length == before.saw_content_length,
                machine.agreed() == before.agreed(),
                before.fault is NoFault && before.transfer_members <= 1 ==> {
                    &&& machine.fault is NoFault ==> {
                        &&& machine.transfer_members == before.transfer_members + k
                        &&& k == 0 || (k == 1 && before.transfer_members == 0 && is_chunked(
                            pieces[0],
                        ))
                    }
                    &&& machine.fault is NoFault || (machine.fault is BadTransferEncoding && (
                    before.transfer_members == 1 || pieces.len() > 1 || !is_chunked(pieces[0])))
                },
                !(before.fault is NoFault) ==> machine.fault == before.fault && machine.fault_actual
                    == before.fault_actual,
            decreases members@.len() - k,
        {
            assert(pieces[k as int] == members@[k as int]@);
            observe_coding(&mut machine, members[k]);
            k += 1;
        }
        proof {
            lemma_chunked_is_one_member(field@.value);
            if only_chunked(fields) {
                let i = choose|i: int|
                    0 <= i < fields.len() && is_transfer_encoding(#[trigger] fields[i])
                        && is_chunked(fields[i].value) && only_transfer_encoding(fields, i);
                assert(i == index);
            }
            assert(machine.describes(fields, index + 1, index));
        }
    } else {
        assert(machine.describes(fields, index + 1, at));
    }
    machine
}

fn observe_length(machine: &mut FramingMachine, raw: &[u8])
    ensures
        final(machine).saw_content_length == old(machine).saw_content_length,
        final(machine).saw_transfer_encoding == old(machine).saw_transfer_encoding,
        final(machine).transfer_members == old(machine).transfer_members,
        old(machine).fault is NoFault ==> match agree(old(machine).agreed(), raw@) {
            Ok(agreed) => final(machine).fault is NoFault && final(machine).agreed() == agreed,
            Err(fault) => !(final(machine).fault is NoFault) && !(
            final(machine).fault is BadTransferEncoding) && final(machine).error() == fault,
        },
        !(old(machine).fault is NoFault) ==> final(machine).fault == old(machine).fault
            && final(machine).fault_actual == old(machine).fault_actual,
{
    match decimal_value(trim_ows(raw)) {
        Some(value) => {
            if value > CONTENT_LENGTH_LIMIT {
                remember_fault(machine, LengthFault::ExcessiveLength, clamp_to_usize(value));
            } else if machine.has_agreed_length && machine.agreed_length != value {
                remember_fault(machine, LengthFault::ConflictingLength, 0);
            } else {
                machine.agreed_length = value;
                machine.has_agreed_length = true;
            }
        },
        None => remember_fault(machine, LengthFault::BadContentLength, 0),
    }
}

fn observe_coding(machine: &mut FramingMachine, raw: &[u8])
    ensures
        final(machine).saw_content_length == old(machine).saw_content_length,
        final(machine).saw_transfer_encoding == old(machine).saw_transfer_encoding,
        final(machine).agreed() == old(machine).agreed(),
        final(machine).transfer_members == if old(machine).transfer_members == usize::MAX {
            usize::MAX
        } else {
            (old(machine).transfer_members + 1) as usize
        },
        old(machine).fault is NoFault ==> final(machine).fault == (if old(
            machine,
        ).transfer_members == 0 && is_chunked(raw@) {
            LengthFault::NoFault
        } else {
            LengthFault::BadTransferEncoding
        }),
        !(old(machine).fault is NoFault) ==> final(machine).fault == old(machine).fault
            && final(machine).fault_actual == old(machine).fault_actual,
{
    machine.transfer_members = machine.transfer_members.saturating_add(1);
    if machine.transfer_members != 1 || !is_chunked_coding(raw) {
        remember_fault(machine, LengthFault::BadTransferEncoding, 0);
    }
}

fn decimal_value(bytes: &[u8]) -> (value: Option<u64>)
    ensures
        match value {
            Some(v) => is_decimal(bytes@, u64::MAX as nat) && v == decimal(bytes@),
            None => !is_decimal(bytes@, u64::MAX as nat),
        },
{
    parse_decimal(bytes)
}

fn remember_fault(machine: &mut FramingMachine, fault: LengthFault, actual: usize)
    ensures
        *final(machine) == if old(machine).fault is NoFault {
            FramingMachine { fault, fault_actual: actual, ..*old(machine) }
        } else {
            *old(machine)
        },
{
    if matches!(machine.fault, LengthFault::NoFault) {
        machine.fault = fault;
        machine.fault_actual = actual;
    }
}

fn finish(
    machine: FramingMachine,
    Ghost(fields): Ghost<Seq<FieldModel>>,
    Ghost(at): Ghost<int>,
) -> (result: Result<BodyFraming>)
    requires
        machine.describes(fields, fields.len() as int, at),
    ensures
        outcome(result) == framing(fields),
{
    if machine.saw_content_length && machine.saw_transfer_encoding {
        return Err(PolyguardError::AmbiguousFraming);
    }
    proof {
        if machine.saw_content_length {
            lemma_some_length(fields);
        }
        lemma_no_framing_fields(fields, 0);
        if machine.fault is NoFault && machine.transfer_members == 1 {
            assert(only_transfer_encoding(fields, at));
        }
    }
    match machine.fault {
        LengthFault::BadContentLength => return Err(PolyguardError::InvalidContentLength),
        LengthFault::ConflictingLength => return Err(PolyguardError::ConflictingContentLength),
        LengthFault::ExcessiveLength => {
            return Err(
                limit_exceeded(
                    "content_length",
                    CONTENT_LENGTH_LIMIT as usize,
                    machine.fault_actual,
                ),
            );
        },
        LengthFault::BadTransferEncoding => return Err(PolyguardError::InvalidTransferEncoding),
        LengthFault::NoFault => {},
    }
    if machine.saw_transfer_encoding {
        if machine.transfer_members == 1 {
            Ok(BodyFraming::Chunked)
        } else {
            Err(PolyguardError::InvalidTransferEncoding)
        }
    } else if machine.saw_content_length && machine.has_agreed_length && machine.agreed_length
        != 0 {
        Ok(BodyFraming::ContentLength(machine.agreed_length))
    } else {
        Ok(BodyFraming::NoBody)
    }
}

/// Without a Content-Length field there is nothing to disagree about.
proof fn lemma_no_framing_fields(fields: Seq<FieldModel>, from: int)
    requires
        0 <= from,
    ensures
        !has_content_length(fields, fields.len() as int) ==> agree_fields(None, fields, from)
            == Ok::<Option<int>, Fault>(None),
    decreases fields.len() - from,
{
    if from < fields.len() {
        lemma_no_framing_fields(fields, from + 1);
        if is_content_length(fields[from]) {
            assert(has_content_length(fields, fields.len() as int));
        }
    }
}

} // verus!
