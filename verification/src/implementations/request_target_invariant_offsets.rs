//! Target normalization by guards and byte offsets: the invariants of a target are proven before
//! any output is constructed.

use vstd::prelude::*;
use crate::bytes::{ByteClass, all_in, find_from, find_in, is_visible, lemma_split_step, split};
use crate::hex::hex_digit_value;
use crate::request_target::{
    TARGET_MAX, authority_end, authority_text, canonical, canonical_from, decode_escape,
    envelope_fault, escape_reason, find_authority_end, find_scheme, first_byte_reason,
    fixed_target, is_one_dot, is_two_dots, joined, kept_after, lemma_canonical_splits,
    lemma_envelope, lemma_path_after_authority, lemma_path_no_longer, lemma_path_visible,
    lemma_segments_of_canonical, normalized, one_dot, path_after_authority, path_of, path_reason,
    path_target, push_escape, query_of, reduced, segments_of, spell_authority, target_fault,
    two_dots, visible_text, with_query,
};
use crate::text::{append, lemma_ascii_literal, same_text, utf8};
use crate::types::{
    Fault, NormalizedTarget, PolyguardError, RequestLine, Result, TargetForm, TargetModel,
    invalid_target, limit_exceeded, outcome, utf8_opt,
};

verus! {

/// Normalizes by proving the target's invariants before constructing any output.
///
/// Classification uses guard decisions and byte offsets rather than a typed syntax tree. Path
/// transformation keeps offsets into the output; popping an offset is exactly the inverse of
/// appending one path segment.
pub fn normalize_request_target(request: &RequestLine) -> (result: Result<NormalizedTarget>)
    ensures
        outcome(result) == normalized(request@, true, true),
{
    let target: &[u8] = request.target.as_str().as_bytes();
    validate_target_envelope(target)?;
    proof {
        lemma_envelope(target@, true);
    }
    if target.len() == 1 && target[0] == '*' as u8 {
        assert(target@ =~= seq!['*' as u8]);
        if !same_text(request.method.as_str(), "options") {
            return Err(invalid_target("asterisk_method"));
        }
        proof {
            reveal_strlit("*");
            lemma_ascii_literal("*"@);
            assert(utf8("*"@) =~= seq!['*' as u8]);
        }
        return Ok(fixed_target(TargetForm::Asterisk, None, "*".to_owned()));
    }
    if same_text(request.method.as_str(), "connect") {
        if target[0] == '/' as u8 || find_scheme(target).is_some() {
            return Err(invalid_target("connect_requires_authority"));
        }
        let authority: String = normalize_authority(target, true)?;
        return Ok(fixed_target(TargetForm::Authority, Some(authority.clone()), authority));
    }
    if target[0] == '/' as u8 {
        validate_path_and_query(target)?;
        let (path_and_query, routing_path) = transform_path_and_query(target);
        return finish_path_target(TargetForm::Origin, None, None, path_and_query, routing_path);
    }
    match find_scheme(target) {
        None => Err(invalid_target("authority_method")),
        Some((scheme, start)) => {
            let remainder: &[u8] = &target[start..target.len()];
            proof {
                assert(remainder@ =~= target@.skip(start as int));
                lemma_path_after_authority(target@, start as int);
            }
            normalize_absolute(remainder, scheme)
        },
    }
}

fn validate_target_envelope(target: &[u8]) -> (checked: Result<()>)
    ensures
        match checked {
            Ok(_) => envelope_fault(target@, true) is None,
            Err(e) => envelope_fault(target@, true) == Some(e@),
        },
{
    if target.len() > TARGET_MAX {
        return Err(limit_exceeded("target_bytes", TARGET_MAX, target.len()));
    }
    if target.len() == 0 {
        return Err(invalid_target("empty_target"));
    }
    let mut index: usize = 0;
    while index < target.len()
        invariant
            index <= target@.len(),
            0 < target@.len() <= TARGET_MAX,
            first_byte_reason(target@, 0) == first_byte_reason(target@, index as int),
        decreases target@.len() - index,
    {
        let byte: u8 = target[index];
        if byte == '#' as u8 {
            return Err(invalid_target("fragment_not_allowed"));
        }
        if byte == '\\' as u8 {
            return Err(invalid_target("backslash_not_allowed"));
        }
        if !is_visible(byte) {
            return Err(invalid_target("invalid_target_byte"));
        }
        index += 1;
    }
    Ok(())
}

fn normalize_absolute(remainder: &[u8], scheme: &'static str) -> (result: Result<NormalizedTarget>)
    requires
        ({
            let value = path_after_authority(remainder@);
            &&& 0 < value.len() <= TARGET_MAX
            &&& value[0] == '/' as u8
            &&& all_in(value, ByteClass::Visible)
        }),
    ensures
        ({
            let authority = authority_text(
                remainder@.subrange(0, authority_end(remainder@)),
                false,
            );
            outcome(result) == if authority is None {
                Err::<TargetModel, Fault>(Fault::InvalidAuthority)
            } else {
                path_target(
                    TargetForm::Absolute,
                    Some(utf8(scheme@)),
                    authority,
                    path_of(path_after_authority(remainder@), true),
                )
            }
        }),
{
    let boundary: usize = find_authority_end(remainder);
    let authority: String = normalize_authority(&remainder[0..boundary], false)?;
    let suffix: &[u8] = &remainder[boundary..remainder.len()];
    assert(suffix@ =~= remainder@.skip(boundary as int));
    if suffix.len() > 0 && suffix[0] == '/' as u8 {
        validate_path_and_query(suffix)?;
        let (path_and_query, routing_path) = transform_path_and_query(suffix);
        return finish_path_target(
            TargetForm::Absolute,
            Some(scheme.to_owned()),
            Some(authority),
            path_and_query,
            routing_path,
        );
    }
    let mut synthetic: Vec<u8> = Vec::new();
    synthetic.push('/' as u8);
    append(&mut synthetic, suffix);
    assert(synthetic@ =~= path_after_authority(remainder@));
    validate_path_and_query(synthetic.as_slice())?;
    let (path_and_query, routing_path) = transform_path_and_query(synthetic.as_slice());
    finish_path_target(
        TargetForm::Absolute,
        Some(scheme.to_owned()),
        Some(authority),
        path_and_query,
        routing_path,
    )
}

fn validate_path_and_query(value: &[u8]) -> (checked: Result<()>)
    requires
        value@.len() > 0,
        value@[0] == '/' as u8,
    ensures
        match checked {
            Ok(_) => path_reason(value@, true) is None,
            Err(e) => path_reason(value@, true) matches Some(reason) && e@ == target_fault(reason),
        },
{
    let question: usize = find_in(value, ByteClass::Only('?' as u8));
    proof {
        lemma_path_no_longer(value@, false);
    }
    let path: &[u8] = &value[0..question];
    validate_percent_triplets(path, true)?;
    if question < value.len() {
        let query: &[u8] = &value[question + 1..value.len()];
        assert(query@ =~= value@.skip(question + 1));
        validate_percent_triplets(query, false)?;
    }
    validate_root_balance(path)
}

fn validate_percent_triplets(value: &[u8], path: bool) -> (checked: Result<()>)
    ensures
        match checked {
            Ok(_) => escape_reason(value@, 0, path, false) is None,
            Err(e) => escape_reason(value@, 0, path, false) matches Some(reason) && e@
                == target_fault(reason),
        },
{
    let mut index: usize = 0;
    while index < value.len()
        invariant
            index <= value@.len(),
            escape_reason(value@, 0, path, false) == escape_reason(
                value@,
                index as int,
                path,
                false,
            ),
        decreases value@.len() - index,
    {
        if value[index] != '%' as u8 {
            index += 1;
            continue;
        }
        let decoded: u8 = match decode_escape(value, index) {
            Some(decoded) => decoded,
            None => return Err(invalid_target("invalid_percent_encoding")),
        };
        if path && (decoded == '/' as u8 || decoded == '\\' as u8) {
            return Err(invalid_target("encoded_separator"));
        }
        if decoded <= 31 || decoded == 127 {
            return Err(invalid_target("encoded_control"));
        }
        index += 3;
    }
    Ok(())
}

/// The depth of a path proves that dot removal cannot escape the root.
fn validate_root_balance(path: &[u8]) -> (checked: Result<()>)
    requires
        path@.len() > 0,
        path@[0] == '/' as u8,
        escape_reason(path@, 0, true, false) is None,
    ensures
        match checked {
            Ok(_) => reduced(segments_of(path@), 0, Seq::empty(), false) is Some,
            Err(e) => {
                &&& reduced(segments_of(path@), 0, Seq::empty(), false) is None
                &&& e@ == target_fault("path_traversal"@)
            },
        },
{
    let ghost raw = split(path@.skip(1), '/' as u8);
    let ghost made = segments_of(path@);
    let ghost mut kept: Seq<Seq<u8>> = Seq::empty();
    let ghost mut seen = 0int;
    let mut depth: usize = 0;
    let mut start: usize = 1;
    proof {
        lemma_segments_of_canonical(path@, false);
        lemma_canonical_splits(path@.skip(1), false);
        assert(raw.skip(0) =~= raw);
    }
    loop
        invariant
            1 <= start <= path@.len(),
            0 <= seen < raw.len(),
            raw.skip(seen) == split(path@.skip(start as int), '/' as u8),
            made.len() == raw.len(),
            made == segments_of(path@),
            forall|k: int| 0 <= k < raw.len() ==> #[trigger] made[k] == canonical(raw[k]),
            forall|k: int|
                0 <= k < raw.len() ==> escape_reason(#[trigger] raw[k], 0, true, false) is None,
            depth < start,
            depth == kept.len(),
            reduced(made, 0, Seq::empty(), false) == reduced(made, seen, kept, false),
        decreases path@.len() - start,
    {
        let end: usize = find_from(path, ByteClass::Only('/' as u8), start);
        proof {
            lemma_split_step(path@, '/' as u8, start as int, raw, seen);
        }
        let segment: &[u8] = &path[start..end];
        assert(segment@ == raw[seen]);
        let dots: u8 = decoded_dot_count(segment);
        if dots == 2 {
            if depth == 0 {
                return Err(invalid_target("path_traversal"));
            }
            depth -= 1;
        } else if dots != 1 {
            depth += 1;
        }
        proof {
            kept = kept_after(kept, made[seen], seen + 1 == made.len(), false).unwrap();
            seen = seen + 1;
        }
        if end == path.len() {
            return Ok(());
        }
        start = end + 1;
    }
}

fn decoded_dot_count(segment: &[u8]) -> (dots: u8)
    requires
        escape_reason(segment@, 0, true, false) is None,
    ensures
        dots == 1 <==> canonical(segment@) == one_dot(),
        dots == 2 <==> canonical(segment@) == two_dots(),
{
    let mut index: usize = 0;
    let mut count: u8 = 0;
    let ghost whole = canonical(segment@);
    let ghost mut front: Seq<u8> = Seq::empty();
    assert(front + canonical_from(segment@, 0) =~= whole);
    while index < segment.len()
        invariant
            index <= segment@.len(),
            count <= 2,
            front.len() == count,
            forall|j: int| 0 <= j < front.len() ==> #[trigger] front[j] == '.' as u8,
            whole == canonical(segment@),
            front + canonical_from(segment@, index as int) == whole,
            escape_reason(segment@, index as int, true, false) is None,
        decreases segment@.len() - index,
    {
        let escaped: bool = segment[index] == '%' as u8;
        let byte: u8 = if escaped {
            hex_digit_value(segment[index + 1]) * 16 + hex_digit_value(segment[index + 2])
        } else {
            segment[index]
        };
        let width: usize = if escaped {
            3
        } else {
            1
        };
        let ghost rest = canonical_from(segment@, index as int);
        proof {
            assert(rest.len() > 0);
            assert(whole[front.len() as int] == rest[0]);
            assert(rest[0] == '.' as u8 <==> byte == '.' as u8);
            assert(whole.len() >= front.len() + 1);
        }
        if byte != '.' as u8 || count == 2 {
            proof {
                assert(one_dot().len() == 1 && one_dot()[0] == '.' as u8);
                assert(two_dots().len() == 2 && two_dots()[0] == '.' as u8 && two_dots()[1]
                    == '.' as u8);
            }
            return 0;
        }
        proof {
            let next = canonical_from(segment@, index + width);
            assert(rest =~= seq!['.' as u8] + next);
            assert(front.push('.' as u8) + next =~= whole);
            front = front.push('.' as u8);
        }
        count += 1;
        index += width;
    }
    proof {
        assert(whole =~= front);
        if count == 1 {
            assert(whole =~= one_dot());
        } else if count == 2 {
            assert(whole =~= two_dots());
        }
        assert(one_dot().len() == 1);
        assert(two_dots().len() == 2);
    }
    count
}

/// Offsets of segments in a joined path.
spec fn are_offsets(offsets: Seq<usize>, kept: Seq<Seq<u8>>) -> bool {
    &&& offsets.len() == kept.len()
    &&& forall|k: int| 0 <= k < kept.len() ==> #[trigger] offsets[k] == joined(kept.take(k)).len()
}

fn transform_path_and_query(value: &[u8]) -> (texts: (Vec<u8>, Vec<u8>))
    requires
        value@.len() > 0,
        value@[0] == '/' as u8,
        path_reason(value@, true) is None,
    ensures
        path_of(value@, true) == Ok::<(Seq<u8>, Seq<u8>), Fault>((texts.0@, texts.1@)),
        all_in(value@, ByteClass::Visible) ==> all_in(texts.0@, ByteClass::Visible) && all_in(
            texts.1@,
            ByteClass::Visible,
        ),
        texts.0@.len() <= value@.len(),
{
    let question: usize = find_in(value, ByteClass::Only('?' as u8));
    proof {
        lemma_path_no_longer(value@, false);
        if all_in(value@, ByteClass::Visible) {
            lemma_path_visible(value@);
        }
    }
    let raw_path: &[u8] = &value[0..question];
    let routing_path: Vec<u8> = transform_path(raw_path);
    let mut output: Vec<u8> = Vec::new();
    append(&mut output, routing_path.as_slice());
    if question < value.len() {
        let query: &[u8] = &value[question + 1..value.len()];
        assert(query@ =~= value@.skip(question + 1));
        output.push('?' as u8);
        append_canonical(&mut output, query, Ghost(false));
    }
    proof {
        let left = reduced(segments_of(raw_path@), 0, Seq::empty(), false).unwrap();
        assert(output@ =~= with_query(joined(left), query_of(value@)));
    }
    (output, routing_path)
}

fn transform_path(raw_path: &[u8]) -> (output: Vec<u8>)
    requires
        raw_path@.len() > 0,
        raw_path@[0] == '/' as u8,
        escape_reason(raw_path@, 0, true, false) is None,
        reduced(segments_of(raw_path@), 0, Seq::empty(), false) is Some,
    ensures
        reduced(segments_of(raw_path@), 0, Seq::empty(), false) matches Some(left) && output@
            == joined(left),
{
    let ghost raw = split(raw_path@.skip(1), '/' as u8);
    let ghost made = segments_of(raw_path@);
    let ghost mut kept: Seq<Seq<u8>> = Seq::empty();
    let ghost mut seen = 0int;
    let mut output: Vec<u8> = Vec::new();
    let mut segment_offsets: Vec<usize> = Vec::new();
    let mut start: usize = 1;
    proof {
        lemma_segments_of_canonical(raw_path@, false);
        lemma_canonical_splits(raw_path@.skip(1), false);
        assert(raw.skip(0) =~= raw);
    }
    loop
        invariant
            1 <= start <= raw_path@.len(),
            0 <= seen < raw.len(),
            raw.skip(seen) == split(raw_path@.skip(start as int), '/' as u8),
            made.len() == raw.len(),
            made == segments_of(raw_path@),
            forall|k: int| 0 <= k < raw.len() ==> #[trigger] made[k] == canonical(raw[k]),
            forall|k: int|
                0 <= k < raw.len() ==> escape_reason(#[trigger] raw[k], 0, true, false) is None,
            output@ == joined(kept),
            are_offsets(segment_offsets@, kept),
            reduced(made, 0, Seq::empty(), false) is Some,
            reduced(made, 0, Seq::empty(), false) == reduced(made, seen, kept, false),
        decreases raw_path@.len() - start,
    {
        let end: usize = find_from(raw_path, ByteClass::Only('/' as u8), start);
        proof {
            lemma_split_step(raw_path@, '/' as u8, start as int, raw, seen);
        }
        let final_segment: bool = end == raw_path.len();
        let output_offset: usize = output.len();
        let source: &[u8] = &raw_path[start..end];
        assert(source@ == raw[seen]);
        output.push('/' as u8);
        append_canonical(&mut output, source, Ghost(true));
        let ghost segment = made[seen];
        let ghost next = kept_after(kept, segment, final_segment, false).unwrap();
        assert(output@ =~= joined(kept) + seq!['/' as u8] + segment);
        let output_end: usize = output.len();
        let written: &[u8] = &output.as_slice()[output_offset + 1..output_end];
        assert(written@ =~= segment);
        let one: bool = is_one_dot(written);
        let two: bool = is_two_dots(written);
        let ghost none = Seq::<u8>::empty();
        if one {
            output.truncate(output_offset);
            assert(output@ =~= joined(kept));
            if final_segment {
                output.push('/' as u8);
            }
        } else if two {
            assert(kept.len() > 0);
            proof {
                lemma_joined_prefix(kept);
            }
            let previous: usize = match segment_offsets.pop() {
                Some(previous) => previous,
                None => 0,
            };
            assert(previous == joined(kept.drop_last()).len()) by {
                assert(kept.take(kept.len() - 1) =~= kept.drop_last());
            }
            output.truncate(previous);
            assert(output@ =~= joined(kept.drop_last()));
            if final_segment {
                output.push('/' as u8);
            }
        } else {
            segment_offsets.push(output_offset);
        }
        if final_segment {
            proof {
                assert(kept.push(none).drop_last() =~= kept);
                assert(kept.push(segment).drop_last() =~= kept);
                if kept.len() > 0 {
                    let fewer = kept.drop_last();
                    assert(fewer.push(none).drop_last() =~= fewer);
                }
                assert(output@ =~= joined(next));
                assert(reduced(made, seen + 1, next, false) == Some(next));
            }
            return output;
        }
        proof {
            assert(kept.push(segment).drop_last() =~= kept);
            assert(output@ =~= joined(next));
            assert forall|k: int| 0 <= k < next.len() implies #[trigger] segment_offsets@[k]
                == joined(next.take(k)).len() by {
                if two {
                    assert(next.take(k) =~= kept.take(k));
                } else if !one {
                    if k < kept.len() {
                        assert(next.take(k) =~= kept.take(k));
                    } else {
                        assert(next.take(k) =~= kept);
                    }
                }
            }
            kept = next;
            seen = seen + 1;
        }
        start = end + 1;
    }
}

/// A joined path begins with the joined path of all its segments but the last.
proof fn lemma_joined_prefix(segments: Seq<Seq<u8>>)
    requires
        segments.len() > 0,
    ensures
        joined(segments.drop_last()).len() < joined(segments).len(),
        joined(segments).take(joined(segments.drop_last()).len() as int) == joined(
            segments.drop_last(),
        ),
{
    let less = joined(segments.drop_last());
    assert(joined(segments).take(less.len() as int) =~= less);
}

fn append_canonical(output: &mut Vec<u8>, input: &[u8], Ghost(in_path): Ghost<bool>)
    requires
        escape_reason(input@, 0, in_path, false) is None,
    ensures
        final(output)@ == old(output)@ + canonical(input@),
{
    let mut index: usize = 0;
    let ghost before = output@;
    while index < input.len()
        invariant
            index <= input@.len(),
            before == old(output)@,
            output@ + canonical_from(input@, index as int) == before + canonical(input@),
            escape_reason(input@, index as int, in_path, false) is None,
        decreases input@.len() - index,
    {
        let ghost so_far = output@;
        let ghost rest = canonical_from(input@, index as int);
        if input[index] != '%' as u8 {
            output.push(input[index]);
            assert(output@ + canonical_from(input@, index + 1) =~= so_far + rest);
            index += 1;
            continue;
        }
        let decoded: u8 = hex_digit_value(input[index + 1]) * 16 + hex_digit_value(
            input[index + 2],
        );
        push_escape(output, decoded);
        assert(output@ + canonical_from(input@, index + 3) =~= so_far + rest);
        index += 3;
    }
    assert(output@ + canonical_from(input@, index as int) =~= output@);
}

fn normalize_authority(value: &[u8], port_required: bool) -> (result: Result<String>)
    ensures
        match authority_text(value@, port_required) {
            Some(text) => result is Ok && utf8(result->Ok_0@) == text,
            None => result is Err && result->Err_0@ == Fault::InvalidAuthority,
        },
{
    match spell_authority(value, port_required) {
        Some(spelling) => Ok(spelling),
        None => Err(PolyguardError::InvalidAuthority),
    }
}

fn finish_path_target(
    form: TargetForm,
    scheme: Option<String>,
    authority: Option<String>,
    path_and_query: Vec<u8>,
    routing_path: Vec<u8>,
) -> (result: Result<NormalizedTarget>)
    requires
        path_and_query@.len() <= TARGET_MAX,
        all_in(path_and_query@, ByteClass::Visible),
        all_in(routing_path@, ByteClass::Visible),
    ensures
        outcome(result) == Ok::<TargetModel, Fault>(
            TargetModel {
                form,
                scheme: utf8_opt(scheme),
                authority: utf8_opt(authority),
                path_and_query: path_and_query@,
                routing_path: routing_path@,
            },
        ),
{
    if path_and_query.len() > TARGET_MAX {
        return Err(limit_exceeded("target_bytes", TARGET_MAX, path_and_query.len()));
    }
    Ok(
        NormalizedTarget {
            form,
            scheme,
            authority,
            path_and_query: visible_text(path_and_query.as_slice()),
            routing_path: visible_text(routing_path.as_slice()),
        },
    )
}

} // verus!
