//! Request-line parsing by direct position searches.

use vstd::prelude::*;
use crate::bytes::{
    ByteClass, all_bytes_in, any_byte_in, find_from, is_visible, lower_bytes, lowered,
};
use crate::request_line::{
    MAX_METHOD_BYTES, MAX_REQUEST_LINE_BYTES, interpreted, is_forbidden_control, lemma_line_end,
    lemma_target_fault, line_end, parsed, target_fault, valid_method,
};
use crate::text::{ascii_text, is_ascii, same_bytes};
use crate::types::{
    HttpVersion, PolyguardError, RequestLine, Result, index_outcome, invalid_request_line,
    invalid_target, limit_exceeded, outcome,
};

verus! {

pub fn parse_request_line(input: &[u8]) -> (result: Result<RequestLine>)
    ensures
        outcome(result) == parsed(input@),
{
    let line_length: usize = find_terminator(input)?;
    let line: &[u8] = &input[0..line_length];
    if any_byte_in(line, ByteClass::Only('\t' as u8)) {
        return Err(invalid_request_line("invalid_spacing"));
    }
    let method_end: usize = find_from(line, ByteClass::Only(' ' as u8), 0);
    if method_end == line.len() || method_end == 0 {
        return Err(invalid_request_line("invalid_spacing"));
    }
    let target_start: usize = method_end + 1;
    let target_end: usize = find_from(line, ByteClass::Only(' ' as u8), target_start);
    if target_end == line.len() {
        if target_start < line_length {
            return Err(PolyguardError::UnsupportedVersion);
        }
        return Err(invalid_request_line("invalid_spacing"));
    }
    if target_end == target_start {
        return Err(invalid_request_line("invalid_spacing"));
    }
    let version_start: usize = target_end + 1;
    if version_start == line_length || find_from(line, ByteClass::Only(' ' as u8), version_start)
        < line.len() {
        return Err(invalid_request_line("invalid_spacing"));
    }
    let method_bytes: &[u8] = &line[0..method_end];
    if method_bytes.len() > MAX_METHOD_BYTES || !all_bytes_in(method_bytes, ByteClass::Token) {
        return Err(PolyguardError::InvalidMethod);
    }
    let target_bytes: &[u8] = &line[target_start..target_end];
    if target_bytes.len() > MAX_REQUEST_LINE_BYTES {
        proof {
            lemma_line_end(input@, 0);
        }
        return Err(invalid_target("non_visible_ascii"));
    }
    let mut offset: usize = 0;
    while offset < target_bytes.len()
        invariant
            offset <= target_bytes@.len(),
            target_fault(target_bytes@, 0) == target_fault(target_bytes@, offset as int),
            parsed(input@) == interpreted(line@, method_end as int, target_end as int),
            valid_method(line@.subrange(0, method_end as int)),
            target_bytes@ == line@.subrange(method_end + 1, target_end as int),
        decreases target_bytes@.len() - offset,
    {
        let byte: u8 = target_bytes[offset];
        if byte == '#' as u8 {
            return Err(invalid_target("fragment_not_allowed"));
        }
        if !is_visible(byte) {
            return Err(invalid_target("non_visible_ascii"));
        }
        offset += 1;
    }
    if !same_bytes(&line[version_start..line.len()], "HTTP/1.1".as_bytes()) {
        return Err(PolyguardError::UnsupportedVersion);
    }
    proof {
        lemma_target_fault(target_bytes@, 0);
        lemma_line_end(input@, 0);
        assert(forall|i: int|
            0 <= i < method_bytes@.len() ==> ByteClass::Token.has(#[trigger] method_bytes@[i]));
        assert(is_ascii(lowered(method_bytes@)));
    }
    let method: String = ascii_text(lower_bytes(method_bytes).as_slice());
    let target: String = ascii_text(target_bytes);
    Ok(
        RequestLine {
            method,
            target,
            version: HttpVersion::Http11,
            bytes_consumed: line_length + 2,
        },
    )
}

fn find_terminator(input: &[u8]) -> (end: Result<usize>)
    ensures
        index_outcome(end) == line_end(input@, 0),
        end matches Ok(i) ==> i + 1 < input@.len(),
{
    let mut offset: usize = 0;
    while offset < input.len()
        invariant
            offset <= input@.len(),
            offset <= MAX_REQUEST_LINE_BYTES,
            line_end(input@, 0) == line_end(input@, offset as int),
        decreases input@.len() - offset,
    {
        if offset == MAX_REQUEST_LINE_BYTES {
            if input[offset] == '\r' as u8 && offset + 1 < input.len() && input[offset + 1]
                == '\n' as u8 {
                return Ok(offset);
            }
            return Err(
                limit_exceeded(
                    "request_line_bytes",
                    MAX_REQUEST_LINE_BYTES,
                    MAX_REQUEST_LINE_BYTES + 1,
                ),
            );
        }
        let byte: u8 = input[offset];
        if byte == '\r' as u8 {
            if offset + 1 < input.len() && input[offset + 1] == '\n' as u8 {
                return Ok(offset);
            }
            return Err(invalid_request_line("bare_line_ending"));
        }
        if byte == '\n' as u8 {
            return Err(invalid_request_line("bare_line_ending"));
        }
        if is_forbidden_control(byte) {
            return Err(invalid_request_line("control_character"));
        }
        offset += 1;
    }
    Err(PolyguardError::Incomplete)
}

} // verus!
