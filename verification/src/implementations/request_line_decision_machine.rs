//! Request-line parsing by a decision machine that is fed one byte at a time.

use vstd::prelude::*;
use crate::bytes::{
    ByteClass, all_in, any_in, is_token, is_visible, lemma_first_from_unique, lower_bytes,
    lowered,
};
use crate::request_line::{
    MAX_METHOD_BYTES, MAX_REQUEST_LINE_BYTES, byte_fault, http_11, lemma_line_end,
    lemma_target_fault, lemma_target_fault_push, line_end, malformed, parsed, part_ends, space,
    target_fault,
};
use crate::text::{ascii_text, is_ascii};
use crate::types::{
    Fault, HttpVersion, PolyguardError, RequestLine, Result, index_outcome, invalid_request_line,
    invalid_target, limit_exceeded, outcome,
};

verus! {

#[derive(Clone, Copy, PartialEq, Eq, Structural)]
enum TargetFault {
    Clean,
    Fragment,
    NonVisible,
}

impl TargetFault {
    spec fn fault(self) -> Option<Fault> {
        match self {
            TargetFault::Clean => None,
            TargetFault::Fragment => Some(
                Fault::InvalidTarget { reason: "fragment_not_allowed"@ },
            ),
            TargetFault::NonVisible => Some(Fault::InvalidTarget { reason: "non_visible_ascii"@ }),
        }
    }
}

#[derive(Clone, Copy)]
struct SemanticRecord {
    method_end: usize,
    method_is_token: bool,
    target_end: usize,
    target_fault: TargetFault,
    version_len: usize,
    version_matches: bool,
}

#[derive(Clone, Copy)]
enum Machine {
    Method { length: usize, is_token: bool },
    Target { method_end: usize, method_is_token: bool, length: usize, fault: TargetFault },
    Version(SemanticRecord),
}

enum GrammarFailure {
    InvalidSpacing,
}

/// Whether a range of a line holds neither spaces nor tabs.
spec fn unbroken(line: Seq<u8>, from: int, to: int) -> bool {
    forall|j: int| from <= j < to ==> #[trigger] line[j] != ' ' as u8 && line[j] != '\t' as u8
}

/// Whether `s` agrees with the supported version as far as both go.
spec fn version_so_far(s: Seq<u8>) -> bool {
    s.len() <= http_11().len() && s == http_11().subrange(0, s.len() as int)
}

impl SemanticRecord {
    /// What the record says of the first `seen` bytes of a line.
    spec fn describes(self, line: Seq<u8>, seen: int) -> bool {
        &&& 0 < self.method_end
        &&& self.method_end + 1 < self.target_end < seen
        &&& line[self.method_end as int] == ' ' as u8
        &&& line[self.target_end as int] == ' ' as u8
        &&& unbroken(line, 0, self.method_end as int)
        &&& unbroken(line, self.method_end + 1, self.target_end as int)
        &&& unbroken(line, self.target_end + 1, seen)
        &&& self.method_is_token == all_in(
            line.subrange(0, self.method_end as int),
            ByteClass::Token,
        )
        &&& self.target_fault.fault() == target_fault(
            line.subrange(self.method_end + 1, self.target_end as int),
            0,
        )
        &&& self.version_len == seen - self.target_end - 1
        &&& self.version_matches == version_so_far(line.subrange(self.target_end + 1, seen))
    }
}

impl Machine {
    /// What the machine says of the first `seen` bytes of a line.
    spec fn describes(self, line: Seq<u8>, seen: int) -> bool {
        match self {
            Machine::Method { length, is_token } => {
                &&& length == seen
                &&& unbroken(line, 0, seen)
                &&& is_token == all_in(line.subrange(0, seen), ByteClass::Token)
            },
            Machine::Target { method_end, method_is_token, length, fault } => {
                &&& 0 < method_end < seen
                &&& line[method_end as int] == ' ' as u8
                &&& unbroken(line, 0, method_end as int)
                &&& unbroken(line, method_end + 1, seen)
                &&& method_is_token == all_in(
                    line.subrange(0, method_end as int),
                    ByteClass::Token,
                )
                &&& length == seen - method_end - 1
                &&& fault.fault() == target_fault(line.subrange(method_end + 1, seen), 0)
            },
            Machine::Version(record) => record.describes(line, seen),
        }
    }
}

pub fn parse_request_line(input: &[u8]) -> (result: Result<RequestLine>)
    ensures
        outcome(result) == parsed(input@),
{
    let content_length: usize = request_line_boundary(input)?;
    let line: &[u8] = &input[0..content_length];
    proof {
        lemma_line_end(input@, 0);
    }
    let record = run_decision_machine(line)?;
    let ghost version = line@.subrange(record.target_end + 1, line@.len() as int);
    assert(record.version_len == http_11().len() && record.version_matches <==> version
        == http_11()) by {
        assert(http_11().subrange(0, http_11().len() as int) =~= http_11());
    }
    if record.method_end > MAX_METHOD_BYTES || !record.method_is_token {
        return Err(PolyguardError::InvalidMethod);
    }
    match record.target_fault {
        TargetFault::Fragment => return Err(invalid_target("fragment_not_allowed")),
        TargetFault::NonVisible => return Err(invalid_target("non_visible_ascii")),
        TargetFault::Clean => {},
    }
    if record.version_len != "HTTP/1.1".as_bytes().len() || !record.version_matches {
        return Err(PolyguardError::UnsupportedVersion);
    }
    let target_start: usize = record.method_end + 1;
    let method_bytes: &[u8] = &line[0..record.method_end];
    let target_bytes: &[u8] = &line[target_start..record.target_end];
    proof {
        lemma_target_fault(target_bytes@, 0);
        assert(forall|i: int|
            0 <= i < method_bytes@.len() ==> ByteClass::Token.has(#[trigger] method_bytes@[i]));
        assert(is_ascii(lowered(method_bytes@)));
    }
    let method: String = ascii_text(lower_bytes(method_bytes).as_slice());
    let target: String = ascii_text(target_bytes);
    Ok(
        RequestLine {
            method,
            target,
            version: HttpVersion::Http11,
            bytes_consumed: content_length + 2,
        },
    )
}

fn request_line_boundary(input: &[u8]) -> (end: Result<usize>)
    ensures
        index_outcome(end) == line_end(input@, 0),
        end matches Ok(i) ==> i + 1 < input@.len(),
{
    let mut offset: usize = 0;
    while offset < input.len()
        invariant
            offset <= input@.len(),
            offset <= MAX_REQUEST_LINE_BYTES,
            line_end(input@, 0) == line_end(input@, offset as int),
        decreases input@.len() - offset,
    {
        let byte: u8 = input[offset];
        let following: Option<u8> = if offset + 1 < input.len() {
            Some(input[offset + 1])
        } else {
            None
        };
        if offset == MAX_REQUEST_LINE_BYTES {
            return match (byte, following) {
                (13, Some(10)) => Ok(offset),
                _ => Err(
                    limit_exceeded(
                        "request_line_bytes",
                        MAX_REQUEST_LINE_BYTES,
                        MAX_REQUEST_LINE_BYTES + 1,
                    ),
                ),
            };
        }
        match (byte, following) {
            (13, Some(10)) => return Ok(offset),
            (13 | 10, _) => return Err(invalid_request_line("bare_line_ending")),
            (0..=8 | 11..=12 | 14..=31 | 127, _) => {
                return Err(invalid_request_line("control_character"));
            },
            _ => {},
        }
        offset += 1;
    }
    Err(PolyguardError::Incomplete)
}

fn run_decision_machine(line: &[u8]) -> (run: Result<SemanticRecord>)
    requires
        line@.len() < usize::MAX,
    ensures
        match run {
            Ok(record) => {
                &&& record.describes(line@, line@.len() as int)
                &&& part_ends(line@) == Ok::<(int, int), Fault>(
                    (record.method_end as int, record.target_end as int),
                )
            },
            Err(e) => part_ends(line@) == Err::<(int, int), Fault>(e@),
        },
{
    let mut machine = Machine::Method { length: 0, is_token: true };
    let mut offset: usize = 0;
    while offset < line.len()
        invariant
            line@.len() < usize::MAX,
            offset <= line@.len(),
            machine.describes(line@, offset as int),
        decreases line@.len() - offset,
    {
        match transition(machine, offset, line[offset], Ghost(line@)) {
            Ok(next) => {
                machine = next;
            },
            Err(GrammarFailure::InvalidSpacing) => {
                return Err(invalid_request_line("invalid_spacing"));
            },
        }
        offset += 1;
    }
    let ghost end = line@.len() as int;
    assert(!any_in(line@, ByteClass::Only('\t' as u8))) by {
        assert forall|i: int| 0 <= i < line@.len() implies !ByteClass::Only('\t' as u8).has(
            #[trigger] line@[i],
        ) by {
            match machine {
                Machine::Method { .. } => {},
                Machine::Target { method_end, .. } => {
                    assert(i < method_end || i == method_end || i >= method_end + 1);
                },
                Machine::Version(record) => {
                    assert(i < record.method_end || i == record.method_end || (record.method_end + 1
                        <= i < record.target_end) || i == record.target_end || i
                        >= record.target_end + 1);
                },
            }
        }
    }
    match machine {
        Machine::Method { .. } => {
            proof {
                lemma_first_from_unique(line@, space(), 0, end);
            }
            Err(invalid_request_line("invalid_spacing"))
        },
        Machine::Target { method_end, length, .. } => {
            proof {
                lemma_first_from_unique(line@, space(), 0, method_end as int);
                lemma_first_from_unique(line@, space(), method_end + 1, end);
            }
            if length == 0 {
                Err(invalid_request_line("invalid_spacing"))
            } else {
                Err(PolyguardError::UnsupportedVersion)
            }
        },
        Machine::Version(record) => {
            proof {
                lemma_first_from_unique(line@, space(), 0, record.method_end as int);
                lemma_first_from_unique(
                    line@,
                    space(),
                    record.method_end + 1,
                    record.target_end as int,
                );
                lemma_first_from_unique(line@, space(), record.target_end + 1, end);
            }
            if record.version_len == 0 {
                Err(invalid_request_line("invalid_spacing"))
            } else {
                Ok(record)
            }
        },
    }
}

fn transition(machine: Machine, offset: usize, byte: u8, Ghost(line): Ghost<Seq<u8>>) -> (next:
    std::result::Result<Machine, GrammarFailure>)
    requires
        offset < line.len() < usize::MAX,
        byte == line[offset as int],
        machine.describes(line, offset as int),
    ensures
        match next {
            Ok(m) => m.describes(line, offset + 1),
            Err(_) => part_ends(line) == Err::<(int, int), Fault>(malformed("invalid_spacing"@)),
        },
{
    if byte == '\t' as u8 {
        assert(ByteClass::Only('\t' as u8).has(line[offset as int]));
        return Err(GrammarFailure::InvalidSpacing);
    }
    let is_space: bool = byte == ' ' as u8;
    match machine {
        Machine::Method { length, is_token } => {
            if is_space {
                if length == 0 {
                    return Err(GrammarFailure::InvalidSpacing);
                }
                assert(line.subrange(offset + 1, offset + 1) =~= Seq::<u8>::empty());
                Ok(
                    Machine::Target {
                        method_end: offset,
                        method_is_token: is_token,
                        length: 0,
                        fault: TargetFault::Clean,
                    },
                )
            } else {
                proof {
                    let before = line.subrange(0, offset as int);
                    let after = line.subrange(0, offset + 1);
                    assert(after =~= before.push(byte));
                    assert(forall|i: int| 0 <= i < before.len() ==> before[i] == after[i]);
                    assert(after[offset as int] == byte);
                }
                Ok(Machine::Method { length: length + 1, is_token: is_token && is_token_byte(byte) })
            }
        },
        Machine::Target { method_end, method_is_token, length, fault } => {
            if is_space {
                proof {
                    lemma_first_from_unique(line, space(), 0, method_end as int);
                    lemma_first_from_unique(line, space(), method_end + 1, offset as int);
                }
                if length == 0 {
                    return Err(GrammarFailure::InvalidSpacing);
                }
                assert(line.subrange(offset + 1, offset + 1) =~= http_11().subrange(0, 0));
                Ok(
                    Machine::Version(
                        SemanticRecord {
                            method_end,
                            method_is_token,
                            target_end: offset,
                            target_fault: fault,
                            version_len: 0,
                            version_matches: true,
                        },
                    ),
                )
            } else {
                proof {
                    let before = line.subrange(method_end + 1, offset as int);
                    assert(line.subrange(method_end + 1, offset + 1) =~= before.push(byte));
                    lemma_target_fault_push(before, byte, 0);
                }
                Ok(
                    Machine::Target {
                        method_end,
                        method_is_token,
                        length: length + 1,
                        fault: next_target_fault(fault, byte),
                    },
                )
            }
        },
        Machine::Version(record) => {
            if is_space {
                proof {
                    lemma_first_from_unique(line, space(), 0, record.method_end as int);
                    lemma_first_from_unique(
                        line,
                        space(),
                        record.method_end + 1,
                        record.target_end as int,
                    );
                    lemma_first_from_unique(line, space(), record.target_end + 1, offset as int);
                }
                return Err(GrammarFailure::InvalidSpacing);
            }
            let expected: &[u8] = "HTTP/1.1".as_bytes();
            let agrees: bool = record.version_len < expected.len() && expected[record.version_len]
                == byte;
            proof {
                let before = line.subrange(record.target_end + 1, offset as int);
                let after = line.subrange(record.target_end + 1, offset + 1);
                let n = before.len() as int;
                assert(after =~= before.push(byte));
                assert(after.subrange(0, n) =~= before);
                if version_so_far(before) && agrees {
                    assert(after =~= http_11().subrange(0, n + 1));
                }
                if version_so_far(after) {
                    assert(before =~= http_11().subrange(0, n)) by {
                        assert(forall|i: int| 0 <= i < n ==> before[i] == after[i]);
                    }
                    assert(after[n] == http_11()[n]);
                }
            }
            Ok(
                Machine::Version(
                    SemanticRecord {
                        version_matches: record.version_matches && agrees,
                        version_len: record.version_len + 1,
                        ..record
                    },
                ),
            )
        },
    }
}

fn is_token_byte(byte: u8) -> (token: bool)
    ensures
        token == ByteClass::Token.has(byte),
{
    is_token(byte)
}

fn next_target_fault(current: TargetFault, byte: u8) -> (next: TargetFault)
    ensures
        next.fault() == if current.fault() is Some {
            current.fault()
        } else {
            byte_fault(byte)
        },
{
    match current {
        TargetFault::Fragment | TargetFault::NonVisible => current,
        TargetFault::Clean if byte == '#' as u8 => TargetFault::Fragment,
        TargetFault::Clean if !is_visible(byte) => TargetFault::NonVisible,
        TargetFault::Clean => TargetFault::Clean,
    }
}

} // verus!
