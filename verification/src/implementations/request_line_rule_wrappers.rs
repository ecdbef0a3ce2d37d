//! Request-line parsing in phases, each with a wrapper for what it has validated.

use vstd::prelude::*;
use crate::bytes::{
    ByteClass, all_bytes_in, any_byte_in, any_in, first_in, lemma_first_from_skip, lemma_first_in,
    lower_bytes, lowered, slices_of, split, split_on,
};
use crate::request_line::{
    MAX_METHOD_BYTES, MAX_REQUEST_LINE_BYTES, byte_fault, http_11, is_forbidden_control,
    lemma_line_end, lemma_target_fault, line_end, malformed, parsed, part_ends, space,
    target_fault, valid_method,
};
use crate::text::{ascii_text, same_bytes, utf8};
use crate::types::{
    Fault, HttpVersion, PolyguardError, RequestLine, Result, invalid_request_line, invalid_target,
    limit_exceeded, outcome,
};

verus! {

#[derive(Clone, Copy, PartialEq, Eq, Structural)]
enum BoundaryRule {
    Data,
    CarriageReturn,
    LineFeed,
    ForbiddenControl,
}

#[derive(Clone, Copy, PartialEq, Eq, Structural)]
enum TargetRule {
    Allowed,
    Fragment,
    NonVisible,
}

fn boundary_rule(byte: u8) -> (rule: BoundaryRule)
    ensures
        rule is CarriageReturn <==> byte == '\r' as u8,
        rule is LineFeed <==> byte == '\n' as u8,
        rule is ForbiddenControl <==> is_forbidden_control(byte),
{
    match byte {
        // Horizontal tab is diagnosed by the grammar phase as invalid spacing.
        9 => BoundaryRule::Data,
        10 => BoundaryRule::LineFeed,
        13 => BoundaryRule::CarriageReturn,
        0..=31 | 127 => BoundaryRule::ForbiddenControl,
        _ => BoundaryRule::Data,
    }
}

fn target_rule(byte: u8) -> (rule: TargetRule)
    ensures
        match rule {
            TargetRule::Allowed => byte_fault(byte) is None,
            TargetRule::Fragment => byte_fault(byte) == Some(
                Fault::InvalidTarget { reason: "fragment_not_allowed"@ },
            ),
            TargetRule::NonVisible => byte_fault(byte) == Some(
                Fault::InvalidTarget { reason: "non_visible_ascii"@ },
            ),
        },
{
    match byte {
        0x23 => TargetRule::Fragment,
        0x21..=0x7e => TargetRule::Allowed,
        _ => TargetRule::NonVisible,
    }
}

struct BoundaryCheckedLine<'a> {
    content: &'a [u8],
    bytes_consumed: usize,
}

struct GrammarParts<'a> {
    method: &'a [u8],
    target: &'a [u8],
    version: &'a [u8],
    bytes_consumed: usize,
}

struct ValidMethod(String);

struct ValidTarget(String);

pub fn parse_request_line(input: &[u8]) -> (result: Result<RequestLine>)
    ensures
        outcome(result) == parsed(input@),
{
    // Phase 1 validates the public byte boundary before later phases trust the line slice.
    let line = validate_boundary(input)?;
    proof {
        lemma_line_end(input@, 0);
    }
    // Phase 2 applies the exact three-field grammar without interpreting field contents.
    let parts = apply_grammar(line)?;
    // Phase 3 converts individually validated fields into their type-directed wrappers.
    let method = ValidMethod::from_bytes(parts.method)?;
    let target = ValidTarget::from_bytes(parts.target)?;
    validate_version(parts.version)?;
    Ok(
        RequestLine {
            method: method.0,
            target: target.0,
            version: HttpVersion::Http11,
            bytes_consumed: parts.bytes_consumed,
        },
    )
}

fn validate_boundary<'a>(input: &'a [u8]) -> (checked: Result<BoundaryCheckedLine<'a>>)
    ensures
        match checked {
            Ok(line) => {
                &&& line_end(input@, 0) == Ok::<int, Fault>(line.content@.len() as int)
                &&& line.content@ == input@.subrange(0, line.content@.len() as int)
                &&& line.bytes_consumed == line.content@.len() + 2
            },
            Err(e) => line_end(input@, 0) == Err::<int, Fault>(e@),
        },
{
    let mut offset: usize = 0;
    while offset < input.len()
        invariant
            offset <= input@.len(),
            offset <= MAX_REQUEST_LINE_BYTES,
            line_end(input@, 0) == line_end(input@, offset as int),
        decreases input@.len() - offset,
    {
        let byte: u8 = input[offset];
        let ends_line: bool = byte == '\r' as u8 && offset + 1 < input.len() && input[offset + 1]
            == '\n' as u8;
        if offset == MAX_REQUEST_LINE_BYTES {
            if ends_line {
                return Ok(
                    BoundaryCheckedLine {
                        content: &input[0..offset],
                        bytes_consumed: offset + 2,
                    },
                );
            }
            return Err(
                limit_exceeded(
                    "request_line_bytes",
                    MAX_REQUEST_LINE_BYTES,
                    MAX_REQUEST_LINE_BYTES + 1,
                ),
            );
        }
        match boundary_rule(byte) {
            BoundaryRule::CarriageReturn if ends_line => {
                return Ok(
                    BoundaryCheckedLine {
                        content: &input[0..offset],
                        bytes_consumed: offset + 2,
                    },
                );
            },
            BoundaryRule::CarriageReturn | BoundaryRule::LineFeed => {
                return Err(invalid_request_line("bare_line_ending"));
            },
            BoundaryRule::ForbiddenControl => {
                return Err(invalid_request_line("control_character"));
            },
            BoundaryRule::Data => {},
        }
        offset += 1;
    }
    Err(PolyguardError::Incomplete)
}

/// The fields between spaces, in terms of where the parts end.
proof fn lemma_fields(line: Seq<u8>)
    requires
        !any_in(line, ByteClass::Only('\t' as u8)),
    ensures
        ({
            let fields = split(line, ' ' as u8);
            let m = fields[0].len() as int;
            let t = fields[1].len() as int;
            &&& fields.len() == 3 && m > 0 && t > 0 && fields[2].len() > 0 ==> {
                &&& part_ends(line) == Ok::<(int, int), Fault>((m, m + 1 + t))
                &&& m + 1 + t < line.len()
                &&& fields[0] == line.subrange(0, m)
                &&& fields[1] == line.subrange(m + 1, m + 1 + t)
                &&& fields[2] == line.subrange(m + 1 + t + 1, line.len() as int)
            }
            &&& fields.len() == 2 && fields[0].len() > 0 && fields[1].len() > 0 ==> part_ends(line)
                == Err::<(int, int), Fault>(Fault::UnsupportedVersion)
            &&& !(fields.len() == 3 && fields[0].len() > 0 && fields[1].len() > 0
                && fields[2].len() > 0) && !(fields.len() == 2 && fields[0].len() > 0
                && fields[1].len() > 0) ==> part_ends(line) == Err::<(int, int), Fault>(
                malformed("invalid_spacing"@),
            )
        }),
{
    let class = space();
    let a = first_in(line, class);
    lemma_first_in(line, class);
    lemma_first_from_skip(line, class, 0);
    assert(line.skip(0) =~= line);
    if a < line.len() {
        let rest = line.skip(a + 1);
        lemma_first_in(rest, class);
        let b = first_in(rest, class);
        lemma_first_from_skip(line, class, a + 1);
        if b < rest.len() {
            let last = rest.skip(b + 1);
            let c = first_in(last, class);
            lemma_first_in(last, class);
            lemma_first_from_skip(line, class, a + 1 + b + 1);
            assert(line.skip(a + 1 + b + 1) =~= last);
            reveal_with_fuel(split, 4);
            if c < last.len() {
                assert(split(last.skip(c + 1), ' ' as u8).len() > 0);
                assert(split(line, ' ' as u8).len() > 3);
            } else {
                assert(split(line, ' ' as u8) =~= seq![line.take(a), rest.take(b), last]);
            }
        } else {
            reveal_with_fuel(split, 3);
            assert(split(line, ' ' as u8) =~= seq![line.take(a), rest]);
        }
    } else {
        assert(split(line, ' ' as u8) =~= seq![line]);
    }
}

fn apply_grammar<'a>(line: BoundaryCheckedLine<'a>) -> (applied: Result<GrammarParts<'a>>)
    ensures
        match applied {
            Ok(parts) => {
                let method_end = parts.method@.len() as int;
                let target_end = method_end + 1 + parts.target@.len();
                &&& part_ends(line.content@) == Ok::<(int, int), Fault>((method_end, target_end))
                &&& parts.method@ == line.content@.subrange(0, method_end)
                &&& parts.target@ == line.content@.subrange(method_end + 1, target_end)
                &&& parts.version@ == line.content@.subrange(
                    target_end + 1,
                    line.content@.len() as int,
                )
                &&& parts.bytes_consumed == line.bytes_consumed
                &&& parts.method@.len() > 0
                &&& 0 < parts.target@.len() < line.content@.len()
            },
            Err(e) => part_ends(line.content@) == Err::<(int, int), Fault>(e@),
        },
{
    if any_byte_in(line.content, ByteClass::Only('\t' as u8)) {
        return Err(invalid_request_line("invalid_spacing"));
    }
    let fields: Vec<&'a [u8]> = split_on(line.content, ' ' as u8);
    proof {
        lemma_fields(line.content@);
        let pieces = slices_of(fields@);
        assert(pieces.len() == fields@.len());
        assert(forall|i: int| 0 <= i < fields@.len() ==> pieces[i] == (#[trigger] fields@[i])@);
    }
    if fields.len() == 3 && fields[0].len() > 0 && fields[1].len() > 0 && fields[2].len() > 0 {
        return Ok(
            GrammarParts {
                method: fields[0],
                target: fields[1],
                version: fields[2],
                bytes_consumed: line.bytes_consumed,
            },
        );
    }
    if fields.len() == 2 && fields[0].len() > 0 && fields[1].len() > 0 {
        return Err(PolyguardError::UnsupportedVersion);
    }
    Err(invalid_request_line("invalid_spacing"))
}

impl ValidMethod {
    fn from_bytes(bytes: &[u8]) -> (valid: Result<Self>)
        requires
            bytes@.len() > 0,
        ensures
            match valid {
                Ok(m) => valid_method(bytes@) && utf8(m.0@) == lowered(bytes@),
                Err(e) => !valid_method(bytes@) && e@ is InvalidMethod,
            },
    {
        let valid_length: bool = 1 <= bytes.len() && bytes.len() <= MAX_METHOD_BYTES;
        let valid_bytes: bool = all_bytes_in(bytes, ByteClass::Token);
        if !valid_length || !valid_bytes {
            return Err(PolyguardError::InvalidMethod);
        }
        let canonical: Vec<u8> = lower_bytes(bytes);
        proof {
            assert(forall|i: int|
                0 <= i < bytes@.len() ==> ByteClass::Token.has(#[trigger] bytes@[i]));
        }
        Ok(ValidMethod(ascii_text(canonical.as_slice())))
    }
}

impl ValidTarget {
    fn from_bytes(bytes: &[u8]) -> (valid: Result<Self>)
        requires
            0 < bytes@.len() <= MAX_REQUEST_LINE_BYTES,
        ensures
            match valid {
                Ok(t) => target_fault(bytes@, 0) is None && utf8(t.0@) == bytes@,
                Err(e) => target_fault(bytes@, 0) == Some(e@),
            },
    {
        if bytes.len() == 0 || bytes.len() > MAX_REQUEST_LINE_BYTES {
            return Err(invalid_target("non_visible_ascii"));
        }
        let mut offset: usize = 0;
        while offset < bytes.len()
            invariant
                offset <= bytes@.len(),
                target_fault(bytes@, 0) == target_fault(bytes@, offset as int),
            decreases bytes@.len() - offset,
        {
            match target_rule(bytes[offset]) {
                TargetRule::Allowed => {},
                TargetRule::Fragment => return Err(invalid_target("fragment_not_allowed")),
                TargetRule::NonVisible => return Err(invalid_target("non_visible_ascii")),
            }
            offset += 1;
        }
        proof {
            lemma_target_fault(bytes@, 0);
        }
        Ok(ValidTarget(ascii_text(bytes)))
    }
}

fn validate_version(version: &[u8]) -> (valid: Result<()>)
    ensures
        match valid {
            Ok(_) => version@ == http_11(),
            Err(e) => version@ != http_11() && e@ is UnsupportedVersion,
        },
{
    if same_bytes(version, "HTTP/1.1".as_bytes()) {
        Ok(())
    } else {
        Err(PolyguardError::UnsupportedVersion)
    }
}

} // verus!
