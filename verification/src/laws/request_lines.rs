//! Request lines, byte by byte.

use vstd::prelude::*;
use crate::bytes::{
    ByteClass, any_in, first_from, is_control, lemma_first_from, lemma_first_from_unique, lowered,
};
use crate::head_round_trip::lemma_request_line_found;
use crate::request_line::{byte_fault, lemma_target_fault, space, valid_method};
use crate::text::{lemma_ascii_literal, utf8};
use crate::types::{Fault, HttpVersion, RequestLineModel};

verus! {

/// Whether a method is one to 32 visible bytes without the delimiters `"(),/:;<=>?@[\]{}`.
pub open spec fn is_method(method: Seq<u8>) -> bool {
    &&& 1 <= method.len() <= 32
    &&& forall|i: int|
        0 <= i < method.len() ==> 0x21 <= #[trigger] method[i] <= 0x7e && method[i] != 0x22
            && method[i] != 0x28 && method[i] != 0x29 && method[i] != 0x2c && method[i] != 0x2f
            && method[i] != 0x3a && method[i] != 0x3b && method[i] != 0x3c && method[i] != 0x3d
            && method[i] != 0x3e && method[i] != 0x3f && method[i] != 0x40 && method[i] != 0x5b
            && method[i] != 0x5c && method[i] != 0x5d && method[i] != 0x7b && method[i] != 0x7d
}

/// Whether a text is at least one byte, none of them a space or a control byte.
pub open spec fn is_part(s: Seq<u8>) -> bool {
    s.len() >= 1 && forall|i: int| 0 <= i < s.len() ==> 0x21 <= #[trigger] s[i] && s[i] != 0x7f
}

/// The bytes of a request line of three parts.
pub open spec fn three_parts(method: Seq<u8>, target: Seq<u8>, version: Seq<u8>) -> Seq<u8> {
    method + seq![0x20u8] + target + seq![0x20u8] + version
}

proof fn lemma_three_parts(method: Seq<u8>, target: Seq<u8>, version: Seq<u8>, rest: Seq<u8>)
    requires
        is_part(method),
        is_part(target),
        is_part(version),
        three_parts(method, target, version).len() <= 8192,
    ensures
        crate::request_line::parsed(
            three_parts(method, target, version) + seq![0x0du8, 0x0au8] + rest,
        ) == if !valid_method(method) {
            Err(Fault::InvalidMethod)
        } else if crate::request_line::target_fault(target, 0) is Some {
            Err(crate::request_line::target_fault(target, 0).unwrap())
        } else if version != utf8("HTTP/1.1"@) {
            Err(Fault::UnsupportedVersion)
        } else {
            Ok(
                RequestLineModel {
                    method: lowered(method),
                    target,
                    version: HttpVersion::Http11,
                    bytes_consumed: three_parts(method, target, version).len() as int + 2,
                },
            )
        },
{
    let line = three_parts(method, target, version);
    let input = line + seq![0x0du8, 0x0au8] + rest;
    let m = method.len() as int;
    let t = m + 1 + target.len();
    let n = line.len() as int;
    assert forall|j: int| 0 <= j < n implies 0x20 <= #[trigger] line[j] && line[j] != 0x7f && (
    line[j] == 0x20 <==> j == m || j == t) by {
        if j < m {
            assert(line[j] == method[j]);
        } else if m < j < t {
            assert(line[j] == target[j - m - 1]);
        } else if j > t {
            assert(line[j] == version[j - t - 1]);
        }
    }
    assert forall|j: int| 0 <= j < n implies !is_control(#[trigger] input[j]) by {
        assert(input[j] == line[j]);
    }
    assert(input[n] == 0x0d);
    assert(input[n + 1] == 0x0a);
    lemma_request_line_found(input, n, 0);
    assert(input.subrange(0, n) =~= line);
    lemma_first_from_unique(line, space(), 0, m);
    lemma_first_from_unique(line, space(), m + 1, t);
    lemma_first_from_unique(line, space(), t + 1, n);
    assert(!any_in(line, ByteClass::Only('\t' as u8))) by {
        assert forall|j: int| 0 <= j < n implies !ByteClass::Only('\t' as u8).has(
            #[trigger] line[j],
        ) by {}
    }
    assert(line.subrange(0, m) =~= method);
    assert(line.subrange(m + 1, t) =~= target);
    assert(line.subrange(t + 1, n) =~= version);
}

proof fn lemma_methods(method: Seq<u8>)
    requires
        method.len() >= 1,
    ensures
        valid_method(method) <==> is_method(method),
{
    if is_method(method) {
        assert forall|i: int| 0 <= i < method.len() implies ByteClass::Token.has(
            #[trigger] method[i],
        ) by {}
    }
    if valid_method(method) {
        assert forall|i: int| 0 <= i < method.len() implies ByteClass::Token.has(
            #[trigger] method[i],
        ) by {}
        assert(is_method(method));
    }
}

/// A request line of three parts, whatever follows it: a method that is none is an invalid
/// method; the first byte of the target that is a number sign or not visible ASCII is what its
/// refusal names; a version other than HTTP/1.1 is not supported; and any other line says its
/// method, in lower case, and its target.
pub proof fn lemma_request_line_is_read(
    method: Seq<u8>,
    target: Seq<u8>,
    version: Seq<u8>,
    rest: Seq<u8>,
    k: int,
)
    requires
        is_part(method),
        is_part(target),
        is_part(version),
        method.len() + target.len() + version.len() + 2 <= 8192,
    ensures
        ({
            let input = method + seq![0x20u8] + target + seq![0x20u8] + version + seq![
                0x0du8,
                0x0au8,
            ] + rest;
            let read = crate::request_line::parsed(input);
            let clean = forall|i: int|
                0 <= i < target.len() ==> #[trigger] target[i] <= 0x7e && target[i] != 0x23;
            &&& !is_method(method) ==> read == Err::<RequestLineModel, Fault>(Fault::InvalidMethod)
            &&& is_method(method) && 0 <= k < target.len() && (forall|i: int|
                0 <= i < k ==> #[trigger] target[i] <= 0x7e && target[i] != 0x23) && target[k]
                == 0x23 ==> read == Err::<RequestLineModel, Fault>(
                Fault::InvalidTarget { reason: "fragment_not_allowed"@ },
            )
            &&& is_method(method) && 0 <= k < target.len() && (forall|i: int|
                0 <= i < k ==> #[trigger] target[i] <= 0x7e && target[i] != 0x23) && target[k]
                > 0x7e ==> read == Err::<RequestLineModel, Fault>(
                Fault::InvalidTarget { reason: "non_visible_ascii"@ },
            )
            &&& is_method(method) && clean && version != utf8("HTTP/1.1"@) ==> read == Err::<
                RequestLineModel,
                Fault,
            >(Fault::UnsupportedVersion)
            &&& is_method(method) && clean && version == utf8("HTTP/1.1"@) ==> read == Ok::<
                RequestLineModel,
                Fault,
            >(
                RequestLineModel {
                    method: lowered(method),
                    target,
                    version: HttpVersion::Http11,
                    bytes_consumed: (method.len() + target.len()) as int + 12,
                },
            )
        }),
{
    reveal_strlit("HTTP/1.1");
    lemma_ascii_literal("HTTP/1.1"@);
    lemma_methods(method);
    lemma_three_parts(method, target, version, rest);
    lemma_target_fault(target, 0);
    let clean = forall|i: int|
        0 <= i < target.len() ==> #[trigger] target[i] <= 0x7e && target[i] != 0x23;
    assert(clean ==> crate::request_line::target_fault(target, 0) is None) by {
        if clean {
            assert forall|i: int| 0 <= i < target.len() implies byte_fault(
                #[trigger] target[i],
            ) is None by {}
        }
    }
    if 0 <= k < target.len() && (forall|i: int|
        0 <= i < k ==> #[trigger] target[i] <= 0x7e && target[i] != 0x23) {
        lemma_fault_at(target, 0, k);
    }
}

proof fn lemma_fault_at(target: Seq<u8>, i: int, k: int)
    requires
        0 <= i <= k < target.len(),
        forall|j: int| 0 <= j < target.len() ==> 0x21 <= #[trigger] target[j],
        forall|j: int| 0 <= j < k ==> #[trigger] target[j] <= 0x7e && target[j] != 0x23,
    ensures
        byte_fault(target[k]) is Some ==> crate::request_line::target_fault(target, i)
            == byte_fault(target[k]),
    decreases k - i,
{
    if i < k {
        assert(target[i] <= 0x7e && target[i] != 0x23);
        lemma_fault_at(target, i + 1, k);
    }
}

/// Nothing else is a request line: what is read is a method, a space, the target, a space,
/// `HTTP/1.1` and a line ending, in at most 8194 bytes.
pub proof fn lemma_request_line_parts(input: Seq<u8>)
    ensures
        crate::request_line::parsed(input) matches Ok(line) ==> exists|method: Seq<u8>|
            {
                &&& is_method(method)
                &&& line.method == #[trigger] lowered(method)
                &&& line.version is Http11
                &&& line.target.len() >= 1
                &&& forall|i: int|
                    0 <= i < line.target.len() ==> 0x21 <= #[trigger] line.target[i] <= 0x7e
                        && line.target[i] != 0x23
                &&& line.bytes_consumed <= input.len()
                &&& line.bytes_consumed <= 8194
                &&& input.take(line.bytes_consumed) == method + seq![0x20u8] + line.target + seq![
                    0x20u8,
                ] + utf8("HTTP/1.1"@) + seq![0x0du8, 0x0au8]
            },
{
    if crate::request_line::parsed(input) is Ok {
        let read = crate::request_line::parsed(input)->Ok_0;
        crate::request_line::lemma_line_end(input, 0);
        let end = crate::request_line::line_end(input, 0)->Ok_0;
        let line = input.subrange(0, end);
        lemma_first_from(line, space(), 0);
        let m = first_from(line, space(), 0);
        lemma_first_from(line, space(), m + 1);
        let t = first_from(line, space(), m + 1);
        let method = line.subrange(0, m);
        let target = line.subrange(m + 1, t);
        lemma_methods(method);
        lemma_target_fault(target, 0);
        assert forall|i: int| 0 <= i < target.len() implies 0x21 <= #[trigger] target[i] <= 0x7e
            && target[i] != 0x23 by {
            assert(byte_fault(target[i]) is None);
        }
        assert(line =~= method + seq![0x20u8] + target + seq![0x20u8] + line.subrange(
            t + 1,
            line.len() as int,
        ));
        assert(input.take(end + 2) =~= line + seq![0x0du8, 0x0au8]);
        assert(read.method == lowered(method));
        assert(input.take(read.bytes_consumed) =~= method + seq![0x20u8] + read.target + seq![
            0x20u8,
        ] + utf8("HTTP/1.1"@) + seq![0x0du8, 0x0au8]);
    }
}

} // verus!
