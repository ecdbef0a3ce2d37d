//! Request-line parsing by one backward pass over the separators.

use vstd::prelude::*;
use crate::bytes::{
    ByteClass, all_bytes_in, any_in, first_from, is_visible, lemma_first_from,
    lemma_first_from_unique, lower_bytes, lowered,
};
use crate::request_line::{
    MAX_METHOD_BYTES, MAX_REQUEST_LINE_BYTES, lemma_line_end, lemma_target_fault, line_end,
    malformed, parsed, part_ends, space, target_fault,
};
use crate::text::{ascii_text, is_ascii, same_bytes};
use crate::types::{
    HttpVersion, PolyguardError, RequestLine, Result, index_outcome, invalid_request_line,
    invalid_target, limit_exceeded, outcome,
};

verus! {

/// The separators of a line: how many spaces it holds, and the first and the last of them.
struct Separators {
    spaces: usize,
    left_space: usize,
    right_space: usize,
}

/// Whether the separators are those of the line from `from` on. With three spaces or more,
/// some space lies strictly between the outer two.
spec fn separates(line: Seq<u8>, from: int, separators: Separators) -> bool {
    let left = separators.left_space as int;
    let right = separators.right_space as int;
    &&& separators.spaces <= line.len() - from
    &&& if separators.spaces == 0 {
        forall|j: int| from <= j < line.len() ==> #[trigger] line[j] != ' ' as u8
    } else {
        &&& from <= left <= right < line.len()
        &&& line[left] == ' ' as u8
        &&& line[right] == ' ' as u8
        &&& forall|j: int|
            from <= j < left || right < j < line.len() ==> #[trigger] line[j] != ' ' as u8
        &&& separators.spaces == 1 <==> left == right
        &&& separators.spaces == 2 ==> forall|j: int|
            left < j < right ==> #[trigger] line[j] != ' ' as u8
        &&& separators.spaces > 2 ==> exists|j: int|
            left < j < right && #[trigger] line[j] == ' ' as u8
    }
}

/// The separators of a line without tabs.
fn scan_backward(line: &[u8]) -> (scanned: Option<Separators>)
    ensures
        scanned is None <==> any_in(line@, ByteClass::Only('\t' as u8)),
        scanned matches Some(separators) ==> separates(line@, 0, separators),
{
    let mut separators = Separators { spaces: 0, left_space: 0, right_space: 0 };
    let mut offset: usize = line.len();
    while offset > 0
        invariant
            offset <= line@.len(),
            separates(line@, offset as int, separators),
            forall|j: int| offset <= j < line@.len() ==> #[trigger] line@[j] != '\t' as u8,
        decreases offset,
    {
        offset -= 1;
        let byte: u8 = line[offset];
        if byte == '\t' as u8 {
            assert(ByteClass::Only('\t' as u8).has(line@[offset as int]));
            return None;
        }
        if byte == ' ' as u8 {
            let ghost old_left = separators.left_space as int;
            let ghost old_spaces = separators.spaces;
            separators.spaces = separators.spaces + 1;
            separators.left_space = offset;
            if separators.spaces == 1 {
                separators.right_space = offset;
            }
            proof {
                if old_spaces >= 2 {
                    assert(line@[old_left] == ' ' as u8);
                }
            }
        }
    }
    Some(separators)
}

pub fn parse_request_line(input: &[u8]) -> (result: Result<RequestLine>)
    ensures
        outcome(result) == parsed(input@),
{
    let line_end: usize = request_line_end(input)?;
    let line: &[u8] = &input[0..line_end];
    let separators = match scan_backward(line) {
        Some(separators) => separators,
        None => return Err(invalid_request_line("invalid_spacing")),
    };
    let left_space: usize = separators.left_space;
    let right_space: usize = separators.right_space;
    proof {
        lemma_spacing(line@, separators);
    }
    if separators.spaces == 1 && left_space != 0 && left_space + 1 < line_end {
        return Err(PolyguardError::UnsupportedVersion);
    }
    if separators.spaces != 2 || left_space == 0 || right_space == left_space + 1 || right_space + 1
        == line_end {
        return Err(invalid_request_line("invalid_spacing"));
    }
    let method_bytes: &[u8] = &line[0..left_space];
    if method_bytes.len() > MAX_METHOD_BYTES {
        return Err(PolyguardError::InvalidMethod);
    }
    if !all_bytes_in(method_bytes, ByteClass::Token) {
        return Err(PolyguardError::InvalidMethod);
    }
    let target_bytes: &[u8] = &line[left_space + 1..right_space];
    proof {
        lemma_line_end(input@, 0);
    }
    if target_bytes.len() > MAX_REQUEST_LINE_BYTES {
        return Err(invalid_target("non_visible_ascii"));
    }
    check_target(target_bytes)?;
    if !same_bytes(&line[right_space + 1..line.len()], "HTTP/1.1".as_bytes()) {
        return Err(PolyguardError::UnsupportedVersion);
    }
    proof {
        lemma_target_fault(target_bytes@, 0);
        assert(forall|i: int|
            0 <= i < method_bytes@.len() ==> ByteClass::Token.has(#[trigger] method_bytes@[i]));
        assert(is_ascii(lowered(method_bytes@)));
    }
    let method: String = ascii_text(lower_bytes(method_bytes).as_slice());
    let target: String = ascii_text(target_bytes);
    Ok(
        RequestLine {
            method,
            target,
            version: HttpVersion::Http11,
            bytes_consumed: line_end + 2,
        },
    )
}

/// The part ends, in terms of the separators.
proof fn lemma_spacing(line: Seq<u8>, separators: Separators)
    requires
        separates(line, 0, separators),
        !any_in(line, ByteClass::Only('\t' as u8)),
    ensures
        part_ends(line) == if separators.spaces == 1 && separators.left_space != 0
            && separators.left_space + 1 < line.len() {
            Err(crate::types::Fault::UnsupportedVersion)
        } else if separators.spaces != 2 || separators.left_space == 0 || separators.right_space
            == separators.left_space + 1 || separators.right_space + 1 == line.len() {
            Err(malformed("invalid_spacing"@))
        } else {
            Ok((separators.left_space as int, separators.right_space as int))
        },
{
    let left = separators.left_space as int;
    let right = separators.right_space as int;
    lemma_first_from(line, space(), 0);
    if separators.spaces > 0 {
        lemma_first_from_unique(line, space(), 0, left);
        lemma_first_from(line, space(), left + 1);
        let next = first_from(line, space(), left + 1);
        if separators.spaces > 2 {
            let middle = choose|j: int| left < j < right && #[trigger] line[j] == ' ' as u8;
            assert(next <= middle) by {
                if middle < next {
                    assert(!space().has(line[middle]));
                }
            }
            lemma_first_from(line, space(), next + 1);
            if next + 1 <= right && first_from(line, space(), next + 1) == line.len() {
                assert(!space().has(line[right]));
            }
        } else if separators.spaces == 2 {
            lemma_first_from_unique(line, space(), left + 1, right);
            lemma_first_from_unique(line, space(), right + 1, line.len() as int);
        } else {
            lemma_first_from_unique(line, space(), left + 1, line.len() as int);
        }
    }
}

/// Whether the bytes of a target are all visible, with no fragment.
fn check_target(target: &[u8]) -> (checked: Result<()>)
    ensures
        match checked {
            Ok(_) => target_fault(target@, 0) is None,
            Err(e) => target_fault(target@, 0) == Some(e@),
        },
{
    let mut offset: usize = 0;
    while offset < target.len()
        invariant
            offset <= target@.len(),
            target_fault(target@, 0) == target_fault(target@, offset as int),
        decreases target@.len() - offset,
    {
        let byte: u8 = target[offset];
        if byte == '#' as u8 {
            return Err(invalid_target("fragment_not_allowed"));
        }
        if !is_visible(byte) {
            return Err(invalid_target("non_visible_ascii"));
        }
        offset += 1;
    }
    Ok(())
}

fn request_line_end(input: &[u8]) -> (end: Result<usize>)
    ensures
        index_outcome(end) == line_end(input@, 0),
        end matches Ok(i) ==> i + 1 < input@.len(),
{
    let mut offset: usize = 0;
    while offset < input.len() && offset <= MAX_REQUEST_LINE_BYTES
        invariant
            offset <= input@.len(),
            offset <= MAX_REQUEST_LINE_BYTES,
            line_end(input@, 0) == line_end(input@, offset as int),
        decreases input@.len() - offset,
    {
        let byte: u8 = input[offset];
        if offset == MAX_REQUEST_LINE_BYTES {
            if byte == '\r' as u8 && offset + 1 < input.len() && input[offset + 1] == '\n' as u8 {
                return Ok(offset);
            }
            return Err(
                limit_exceeded(
                    "request_line_bytes",
                    MAX_REQUEST_LINE_BYTES,
                    MAX_REQUEST_LINE_BYTES + 1,
                ),
            );
        }
        if byte == '\r' as u8 {
            if offset + 1 < input.len() && input[offset + 1] == '\n' as u8 {
                return Ok(offset);
            }
            return Err(invalid_request_line("bare_line_ending"));
        }
        if byte == '\n' as u8 {
            return Err(invalid_request_line("bare_line_ending"));
        }
        if (byte < ' ' as u8 && byte != '\t' as u8) || byte == 127 {
            return Err(invalid_request_line("control_character"));
        }
        offset += 1;
    }
    Err(PolyguardError::Incomplete)
}

} // verus!
