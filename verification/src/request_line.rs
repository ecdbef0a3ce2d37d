//! Parsing the first line of a request.

use vstd::prelude::*;
use crate::bytes::{
    ByteClass, all_in, any_in, first_from, is_control, is_visible, lemma_first_from, lowered,
    to_lower,
};
use crate::text::utf8;
use crate::types::{Fault, HttpVersion, RequestLineModel, Verdict};

verus! {

/// The most bytes that a request line may hold, its line ending not counted.
pub const MAX_REQUEST_LINE_BYTES: usize = 8192;

/// The most bytes that a method may hold.
pub const MAX_METHOD_BYTES: usize = 32;

/// The only supported version.
pub open spec fn http_11() -> Seq<u8> {
    utf8("HTTP/1.1"@)
}

pub open spec fn malformed(reason: Seq<char>) -> Fault {
    Fault::InvalidRequestLine { reason }
}

/// Whether a line ending stands at `i`.
pub open spec fn crlf_at(input: Seq<u8>, i: int) -> bool {
    i + 1 < input.len() && input[i] == '\r' as u8 && input[i + 1] == '\n' as u8
}

/// A control byte that is diagnosed as such: not a tab and no part of a line ending.
#[verifier::allow_in_spec]
pub fn is_forbidden_control(b: u8) -> bool
    returns
        is_control(b) && b != '\t' as u8 && b != '\r' as u8 && b != '\n' as u8,
{
    is_control(b) && b != '\t' as u8 && b != '\r' as u8 && b != '\n' as u8
}

/// Where the line that is read up to `i` ends, in the input.
pub open spec fn line_end(input: Seq<u8>, i: int) -> Verdict<int>
    decreases input.len() - i,
{
    if i >= input.len() {
        Err(Fault::Incomplete)
    } else if crlf_at(input, i) {
        Ok(i)
    } else if i >= MAX_REQUEST_LINE_BYTES {
        Err(
            Fault::LimitExceeded {
                limit: "request_line_bytes"@,
                max: MAX_REQUEST_LINE_BYTES as int,
                actual: MAX_REQUEST_LINE_BYTES + 1,
            },
        )
    } else if ByteClass::LineBreak.has(input[i]) {
        Err(malformed("bare_line_ending"@))
    } else if is_forbidden_control(input[i]) {
        Err(malformed("control_character"@))
    } else {
        line_end(input, i + 1)
    }
}

/// The class of the space that separates the parts of the line.
pub open spec fn space() -> ByteClass {
    ByteClass::Only(' ' as u8)
}

/// The ends of the method and of the target: the line is three non-empty parts with one space
/// between each two, and holds no tab.
pub open spec fn part_ends(line: Seq<u8>) -> Verdict<(int, int)> {
    let method_end = first_from(line, space(), 0);
    let target_end = first_from(line, space(), method_end + 1);
    if any_in(line, ByteClass::Only('\t' as u8)) || method_end == 0 || method_end + 1
        >= line.len() {
        Err(malformed("invalid_spacing"@))
    } else if target_end == line.len() {
        Err(Fault::UnsupportedVersion)
    } else if target_end == method_end + 1 || target_end + 1 == line.len() || first_from(
        line,
        space(),
        target_end + 1,
    ) < line.len() {
        Err(malformed("invalid_spacing"@))
    } else {
        Ok((method_end, target_end))
    }
}

pub open spec fn valid_method(method: Seq<u8>) -> bool {
    method.len() <= MAX_METHOD_BYTES && all_in(method, ByteClass::Token)
}

/// What is wrong with a byte of a target.
pub open spec fn byte_fault(b: u8) -> Option<Fault> {
    if b == '#' as u8 {
        Some(Fault::InvalidTarget { reason: "fragment_not_allowed"@ })
    } else if !is_visible(b) {
        Some(Fault::InvalidTarget { reason: "non_visible_ascii"@ })
    } else {
        None
    }
}

/// What is wrong with the first faulty byte of a target, from `i` on.
pub open spec fn target_fault(target: Seq<u8>, i: int) -> Option<Fault>
    decreases target.len() - i,
{
    if i >= target.len() {
        None
    } else if byte_fault(target[i]) is Some {
        byte_fault(target[i])
    } else {
        target_fault(target, i + 1)
    }
}

/// The parsed line, given where its parts end.
pub open spec fn interpreted(line: Seq<u8>, method_end: int, target_end: int) -> Verdict<RequestLineModel> {
    let method = line.subrange(0, method_end);
    let target = line.subrange(method_end + 1, target_end);
    let version = line.subrange(target_end + 1, line.len() as int);
    if !valid_method(method) {
        Err(Fault::InvalidMethod)
    } else if target_fault(target, 0) is Some {
        Err(target_fault(target, 0).unwrap())
    } else if version != http_11() {
        Err(Fault::UnsupportedVersion)
    } else {
        Ok(
            RequestLineModel {
                method: lowered(method),
                target,
                version: HttpVersion::Http11,
                bytes_consumed: line.len() as int + 2,
            },
        )
    }
}

/// The parsed content of a request line.
pub open spec fn parsed_line(line: Seq<u8>) -> Verdict<RequestLineModel> {
    match part_ends(line) {
        Ok((method_end, target_end)) => interpreted(line, method_end, target_end),
        Err(fault) => Err(fault),
    }
}

/// The request line at the start of the input.
pub open spec fn parsed(input: Seq<u8>) -> Verdict<RequestLineModel> {
    match line_end(input, 0) {
        Ok(end) => parsed_line(input.subrange(0, end)),
        Err(fault) => Err(fault),
    }
}

/// A line's end is a line ending within the limit, and the line before it holds no control
/// byte but tabs.
pub proof fn lemma_line_end(input: Seq<u8>, i: int)
    requires
        0 <= i,
    ensures
        line_end(input, i) matches Ok(end) ==> {
            &&& i <= end <= MAX_REQUEST_LINE_BYTES || i == end
            &&& crlf_at(input, end)
            &&& forall|j: int|
                i <= j < end ==> !is_control(#[trigger] input[j]) || input[j] == '\t' as u8
        },
    decreases input.len() - i,
{
    if i < input.len() && i < MAX_REQUEST_LINE_BYTES {
        lemma_line_end(input, i + 1);
    }
}

/// A target without a faulty byte is visible ASCII without a number sign.
pub proof fn lemma_target_fault(target: Seq<u8>, i: int)
    requires
        0 <= i,
    ensures
        target_fault(target, i) is None <==> forall|j: int|
            i <= j < target.len() ==> byte_fault(#[trigger] target[j]) is None,
    decreases target.len() - i,
{
    if i < target.len() && byte_fault(target[i]) is None {
        lemma_target_fault(target, i + 1);
    }
}

/// The fault of a target with one byte more.
pub proof fn lemma_target_fault_push(target: Seq<u8>, b: u8, i: int)
    requires
        0 <= i <= target.len(),
    ensures
        target_fault(target.push(b), i) == if target_fault(target, i) is Some {
            target_fault(target, i)
        } else {
            byte_fault(b)
        },
    decreases target.len() - i,
{
    if i < target.len() {
        assert(target.push(b)[i] == target[i]);
        lemma_target_fault_push(target, b, i + 1);
    } else {
        assert(target_fault(target.push(b), i + 1) is None);
    }
}

/// A parsed request line takes up exactly a line of the input, its line ending included, and
/// what follows plays no part.
pub proof fn lemma_only_the_line_matters(input: Seq<u8>, more: Seq<u8>)
    requires
        parsed(input) is Ok,
    ensures
        2 < parsed(input)->Ok_0.bytes_consumed <= input.len(),
        parsed(input + more) == parsed(input),
{
    lemma_line_end(input, 0);
    lemma_line_end_extends(input, more, 0);
    let end = line_end(input, 0)->Ok_0;
    assert((input + more).subrange(0, end) =~= input.subrange(0, end));
    let line = input.subrange(0, end);
    lemma_first_from(line, space(), 0);
}

/// A line that has ended does not change as more input comes.
pub proof fn lemma_line_end_extends(input: Seq<u8>, more: Seq<u8>, i: int)
    requires
        0 <= i,
        line_end(input, i) is Ok,
    ensures
        line_end(input + more, i) == line_end(input, i),
    decreases input.len() - i,
{
    let longer = input + more;
    assert(longer[i] == input[i]);
    if crlf_at(input, i) {
        assert(longer[i + 1] == input[i + 1]);
    } else {
        lemma_line_end(input, i + 1);
        assert(input[i] != '\r' as u8);
        lemma_line_end_extends(input, more, i + 1);
    }
}

/// A parsed method is a lower-case token of at most 32 bytes, and a parsed target is visible
/// ASCII without a fragment.
pub proof fn lemma_parsed_parts(input: Seq<u8>)
    requires
        parsed(input) is Ok,
    ensures
        ({
            let line = parsed(input)->Ok_0;
            &&& 0 < line.method.len() <= MAX_METHOD_BYTES
            &&& all_in(line.method, ByteClass::Token)
            &&& lowered(line.method) == line.method
            &&& line.target.len() > 0
            &&& all_in(line.target, ByteClass::Visible)
            &&& !any_in(line.target, ByteClass::Only('#' as u8))
        }),
{
    lemma_line_end(input, 0);
    let end = line_end(input, 0)->Ok_0;
    let content = input.subrange(0, end);
    lemma_first_from(content, space(), 0);
    let method_end = first_from(content, space(), 0);
    lemma_first_from(content, space(), method_end + 1);
    let target_end = first_from(content, space(), method_end + 1);
    let target = content.subrange(method_end + 1, target_end);
    lemma_target_fault(target, 0);
    let method = content.subrange(0, method_end);
    assert forall|i: int| 0 <= i < method.len() implies ByteClass::Token.has(
        #[trigger] lowered(method)[i],
    ) && to_lower(lowered(method)[i]) == lowered(method)[i] by {
        assert(ByteClass::Token.has(method[i]));
    }
    assert(lowered(lowered(method)) =~= lowered(method));
}

} // verus!
