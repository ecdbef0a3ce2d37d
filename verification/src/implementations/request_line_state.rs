//! Request-line parsing by a fold over part states.

use vstd::prelude::*;
use crate::bytes::{
    ByteClass, all_bytes_in, is_visible, lemma_first_from_unique, lower_bytes, lowered,
};
use crate::request_line::{
    MAX_METHOD_BYTES, MAX_REQUEST_LINE_BYTES, byte_fault, lemma_line_end, lemma_target_fault,
    line_end, malformed, parsed, part_ends, space, target_fault,
};
use crate::text::{ascii_text, is_ascii, same_bytes};
use crate::types::{
    Fault, HttpVersion, PolyguardError, RequestLine, Result, invalid_request_line, invalid_target,
    limit_exceeded, outcome,
};

verus! {

enum LineBoundary {
    Complete(usize),
    Incomplete,
    OverLimit(usize),
    BareEnding,
    Control,
}

enum RequestParts<'a> {
    Complete { method: &'a [u8], target: &'a [u8], version: &'a [u8] },
    MissingVersion,
    InvalidSpacing,
}

#[derive(Clone, Copy)]
enum PartState {
    Method,
    Target { method_end: usize },
    Version { method_end: usize, target_end: usize },
    Invalid,
}

/// Whether `line[i]` is neither a space nor a tab, for each `i` of a range.
spec fn unbroken(line: Seq<u8>, from: int, to: int) -> bool {
    forall|j: int| from <= j < to ==> #[trigger] line[j] != ' ' as u8 && line[j] != '\t' as u8
}

impl PartState {
    /// What the state says of the first `seen` bytes of a line.
    spec fn describes(self, line: Seq<u8>, seen: int) -> bool {
        match self {
            PartState::Method => unbroken(line, 0, seen),
            PartState::Target { method_end } => {
                &&& 0 < method_end < seen
                &&& line[method_end as int] == ' ' as u8
                &&& unbroken(line, 0, method_end as int)
                &&& unbroken(line, method_end + 1, seen)
            },
            PartState::Version { method_end, target_end } => {
                &&& 0 < method_end
                &&& method_end + 1 < target_end < seen
                &&& line[method_end as int] == ' ' as u8
                &&& line[target_end as int] == ' ' as u8
                &&& unbroken(line, 0, method_end as int)
                &&& unbroken(line, method_end + 1, target_end as int)
                &&& unbroken(line, target_end + 1, seen)
            },
            PartState::Invalid => part_ends(line) == Err::<(int, int), Fault>(
                malformed("invalid_spacing"@),
            ),
        }
    }
}

/// The state after the byte at `index`.
fn step(state: PartState, line: &[u8], index: usize) -> (next: PartState)
    requires
        index < line@.len(),
        state.describes(line@, index as int),
    ensures
        next.describes(line@, index + 1),
{
    let byte: u8 = line[index];
    if byte == '\t' as u8 {
        assert(ByteClass::Only('\t' as u8).has(line@[index as int]));
        return PartState::Invalid;
    }
    match state {
        PartState::Method if byte == ' ' as u8 => {
            if index == 0 {
                PartState::Invalid
            } else {
                PartState::Target { method_end: index }
            }
        },
        PartState::Target { method_end } if byte == ' ' as u8 => {
            proof {
                lemma_first_from_unique(line@, space(), 0, method_end as int);
                lemma_first_from_unique(line@, space(), method_end + 1, index as int);
            }
            if line[index - 1] == ' ' as u8 {
                assert(index == method_end + 1);
                PartState::Invalid
            } else {
                PartState::Version { method_end, target_end: index }
            }
        },
        PartState::Version { method_end, target_end } if byte == ' ' as u8 => {
            proof {
                lemma_first_from_unique(line@, space(), 0, method_end as int);
                lemma_first_from_unique(line@, space(), method_end + 1, target_end as int);
                lemma_first_from_unique(line@, space(), target_end + 1, index as int);
            }
            PartState::Invalid
        },
        other => other,
    }
}

pub fn parse_request_line(input: &[u8]) -> (result: Result<RequestLine>)
    ensures
        outcome(result) == parsed(input@),
{
    let line_end: usize = match locate_boundary(input) {
        LineBoundary::Complete(index) => index,
        LineBoundary::Incomplete => return Err(PolyguardError::Incomplete),
        LineBoundary::OverLimit(actual) => {
            return Err(limit_exceeded("request_line_bytes", MAX_REQUEST_LINE_BYTES, actual));
        },
        LineBoundary::BareEnding => return Err(invalid_request_line("bare_line_ending")),
        LineBoundary::Control => return Err(invalid_request_line("control_character")),
    };
    let line: &[u8] = &input[0..line_end];
    proof {
        lemma_line_end(input@, 0);
    }
    let (method, target, version) = match partition(line) {
        RequestParts::Complete { method, target, version } => (method, target, version),
        RequestParts::MissingVersion => return Err(PolyguardError::UnsupportedVersion),
        RequestParts::InvalidSpacing => return Err(invalid_request_line("invalid_spacing")),
    };
    if !(1 <= method.len() && method.len() <= MAX_METHOD_BYTES) || !all_bytes_in(
        method,
        ByteClass::Token,
    ) {
        return Err(PolyguardError::InvalidMethod);
    }
    if target.len() == 0 {
        return Err(invalid_request_line("invalid_spacing"));
    }
    match first_faulty(target) {
        Some(0x23) => return Err(invalid_target("fragment_not_allowed")),
        Some(_) => return Err(invalid_target("non_visible_ascii")),
        None => {},
    }
    if !same_bytes(version, "HTTP/1.1".as_bytes()) {
        return Err(PolyguardError::UnsupportedVersion);
    }
    proof {
        lemma_target_fault(target@, 0);
        assert(forall|i: int|
            0 <= i < method@.len() ==> ByteClass::Token.has(#[trigger] method@[i]));
        assert(is_ascii(lowered(method@)));
    }
    let method: String = ascii_text(lower_bytes(method).as_slice());
    let target: String = ascii_text(target);
    Ok(
        RequestLine {
            method,
            target,
            version: HttpVersion::Http11,
            bytes_consumed: line_end + 2,
        },
    )
}

fn locate_boundary(input: &[u8]) -> (boundary: LineBoundary)
    ensures
        line_end(input@, 0) == match boundary {
            LineBoundary::Complete(index) => Ok::<int, Fault>(index as int),
            LineBoundary::Incomplete => Err(Fault::Incomplete),
            LineBoundary::OverLimit(actual) => Err(
                Fault::LimitExceeded {
                    limit: "request_line_bytes"@,
                    max: MAX_REQUEST_LINE_BYTES as int,
                    actual: actual as int,
                },
            ),
            LineBoundary::BareEnding => Err(malformed("bare_line_ending"@)),
            LineBoundary::Control => Err(malformed("control_character"@)),
        },
        boundary matches LineBoundary::Complete(index) ==> index + 1 < input@.len(),
{
    let mut index: usize = 0;
    while index < input.len()
        invariant
            index <= input@.len(),
            index <= MAX_REQUEST_LINE_BYTES,
            line_end(input@, 0) == line_end(input@, index as int),
        decreases input@.len() - index,
    {
        let byte: u8 = input[index];
        let before_line_feed: bool = index + 1 < input.len() && input[index + 1] == '\n' as u8;
        if index == MAX_REQUEST_LINE_BYTES {
            return if byte == '\r' as u8 && before_line_feed {
                LineBoundary::Complete(index)
            } else {
                LineBoundary::OverLimit(MAX_REQUEST_LINE_BYTES + 1)
            };
        }
        match byte {
            13 if before_line_feed => return LineBoundary::Complete(index),
            13 | 10 => return LineBoundary::BareEnding,
            0..=8 | 11..=31 | 127 => return LineBoundary::Control,
            _ => {},
        }
        index += 1;
    }
    LineBoundary::Incomplete
}

fn partition<'a>(line: &'a [u8]) -> (parts: RequestParts<'a>)
    ensures
        match parts {
            RequestParts::Complete { method, target, version } => {
                let method_end = method@.len() as int;
                let target_end = method_end + 1 + target@.len();
                &&& method_end > 0
                &&& target@.len() > 0
                &&& part_ends(line@) == Ok::<(int, int), Fault>((method_end, target_end))
                &&& method@ == line@.subrange(0, method_end)
                &&& target@ == line@.subrange(method_end + 1, target_end)
                &&& version@ == line@.subrange(target_end + 1, line@.len() as int)
            },
            RequestParts::MissingVersion => part_ends(line@) == Err::<(int, int), Fault>(
                Fault::UnsupportedVersion,
            ),
            RequestParts::InvalidSpacing => part_ends(line@) == Err::<(int, int), Fault>(
                malformed("invalid_spacing"@),
            ),
        },
{
    let mut state = PartState::Method;
    let mut index: usize = 0;
    while index < line.len()
        invariant
            index <= line@.len(),
            state.describes(line@, index as int),
        decreases line@.len() - index,
    {
        state = step(state, line, index);
        index += 1;
    }
    let ghost end = line@.len() as int;
    match state {
        PartState::Version { method_end, target_end } => {
            proof {
                lemma_first_from_unique(line@, space(), 0, method_end as int);
                lemma_first_from_unique(line@, space(), method_end + 1, target_end as int);
                lemma_first_from_unique(line@, space(), target_end + 1, end);
            }
            if target_end + 1 < line.len() {
                RequestParts::Complete {
                    method: &line[0..method_end],
                    target: &line[method_end + 1..target_end],
                    version: &line[target_end + 1..line.len()],
                }
            } else {
                RequestParts::InvalidSpacing
            }
        },
        PartState::Target { method_end } => {
            proof {
                lemma_first_from_unique(line@, space(), 0, method_end as int);
                lemma_first_from_unique(line@, space(), method_end + 1, end);
            }
            if method_end + 1 < line.len() {
                RequestParts::MissingVersion
            } else {
                RequestParts::InvalidSpacing
            }
        },
        PartState::Method => {
            proof {
                lemma_first_from_unique(line@, space(), 0, end);
            }
            RequestParts::InvalidSpacing
        },
        PartState::Invalid => RequestParts::InvalidSpacing,
    }
}

/// The first faulty byte of a target.
fn first_faulty(target: &[u8]) -> (faulty: Option<u8>)
    ensures
        match faulty {
            Some(b) => byte_fault(b) is Some && target_fault(target@, 0) == byte_fault(b),
            None => target_fault(target@, 0) is None,
        },
{
    let mut offset: usize = 0;
    while offset < target.len()
        invariant
            offset <= target@.len(),
            target_fault(target@, 0) == target_fault(target@, offset as int),
        decreases target@.len() - offset,
    {
        let byte: u8 = target[offset];
        if byte == '#' as u8 || !is_visible(byte) {
            return Some(byte);
        }
        offset += 1;
    }
    None
}

} // verus!
