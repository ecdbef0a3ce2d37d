//! Where a section of field lines is refused.

use vstd::prelude::*;
use crate::bytes::{ByteClass, all_in, any_in, lowered};
use crate::header::{
    field_of, lemma_line_end_at, lemma_line_too_long, parsed_whole, section, section_end,
};
use crate::laws::sections::{
    WireField, all_said, is_declarable, is_line, is_name, lemma_declarable, lemma_declarations,
    lemma_line_found, lemma_trailer_line_found, line_bytes, lines_bytes, said,
};
use crate::trailer::{
    declaration_fault, first_declaration_fault, has_name, next_field, parsed_in_phases,
    received_fault, trailer_field, trailer_line_end, trailer_section,
};
use crate::types::{BlockModel, Fault, FieldModel};

verus! {

/// Whether a text holds no line break.
pub open spec fn is_unended(s: Seq<u8>) -> bool {
    forall|i: int| 0 <= i < s.len() ==> #[trigger] s[i] != 0x0d && s[i] != 0x0a
}

proof fn lemma_header_walk(
    input: Seq<u8>,
    start: int,
    lines: Seq<WireField>,
    k: int,
    tail: Seq<u8>,
    hasty: bool,
)
    requires
        0 <= k <= lines.len() <= 128,
        0 <= start <= input.len(),
        forall|i: int| 0 <= i < lines.len() ==> is_line(#[trigger] lines[i]),
        input.skip(start) == lines_bytes(lines.skip(k)) + tail,
        start + lines_bytes(lines.skip(k)).len() <= 32768,
    ensures
        ({
            let n = start + lines_bytes(lines.skip(k)).len();
            &&& section(input, start, all_said(lines.take(k))) == section(
                input,
                n,
                all_said(lines),
            )
            &&& section_end(input, start, hasty) == section_end(input, n, hasty)
        }),
    decreases lines.len() - k,
{
    let left = lines.skip(k);
    let read = all_said(lines.take(k));
    let rest = input.skip(start);
    if k < lines.len() {
        let line = lines[k];
        let s = line_bytes(line);
        let n = s.len() as int;
        let end = start + n;
        let later = lines_bytes(lines.skip(k + 1));
        assert(left[0] == line);
        assert(left.skip(1) =~= lines.skip(k + 1));
        lemma_line_found(line);
        assert(rest =~= s + seq![0x0du8, 0x0au8] + (later + tail));
        assert(rest.len() == input.len() - start);
        assert forall|j: int| start <= j < end implies !ByteClass::LineBreak.has(
            #[trigger] input[j],
        ) by {
            assert(input[j] == rest[j - start]);
            assert(rest[j - start] == s[j - start]);
        }
        assert(input[end] == rest[n]);
        assert(input[end + 1] == rest[n + 1]);
        lemma_line_end_at(input, start, start, end, false);
        lemma_line_end_at(input, start, start, end, hasty);
        assert(crate::header::line_end(input, start, start, false) == Ok::<int, Fault>(end));
        assert(crate::header::line_end(input, start, start, hasty) == Ok::<int, Fault>(end));
        assert(input.subrange(start, end) =~= s) by {
            assert forall|j: int| 0 <= j < n implies input.subrange(start, end)[j] == s[j] by {
                assert(input[start + j] == rest[j]);
            }
        }
        assert(field_of(s, start) == Ok::<FieldModel, Fault>(said(line)));
        assert(input.skip(end + 2) =~= later + tail) by {
            assert(input.skip(end + 2) =~= rest.skip(n + 2));
        }
        lemma_header_walk(input, end + 2, lines, k + 1, tail, hasty);
        assert(all_said(lines.take(k + 1)) =~= read.push(said(line)));
    } else {
        assert(lines_bytes(left) =~= Seq::<u8>::empty());
        assert(lines.take(k) =~= lines);
    }
}

proof fn lemma_from_lines(lines: Seq<WireField>, tail: Seq<u8>, hasty: bool)
    requires
        lines.len() <= 128,
        forall|i: int| 0 <= i < lines.len() ==> is_line(#[trigger] lines[i]),
        lines_bytes(lines).len() <= 32768,
    ensures
        ({
            let input = lines_bytes(lines) + tail;
            let start = lines_bytes(lines).len() as int;
            &&& crate::header::parsed(input) == section(input, start, all_said(lines))
            &&& section_end(input, 0, hasty) == section_end(input, start, hasty)
        }),
{
    let input = lines_bytes(lines) + tail;
    assert(lines.skip(0) =~= lines);
    assert(input.skip(0) =~= input);
    assert(all_said(lines.take(0)) =~= Seq::<FieldModel>::empty());
    lemma_header_walk(input, 0, lines, 0, tail, hasty);
}

/// A header section that does not end, after lines that are in order: it is incomplete while it
/// may go on, too long after 32768 bytes, and refused at a line break that is not CR LF. That
/// holds in whatever way the section is parsed.
pub proof fn lemma_header_not_ended(
    lines: Seq<WireField>,
    s: Seq<u8>,
    b: u8,
    rest: Seq<u8>,
    hasty: bool,
    greedy: bool,
)
    requires
        lines.len() <= 128,
        forall|i: int| 0 <= i < lines.len() ==> is_line(#[trigger] lines[i]),
        is_unended(s),
        lines_bytes(lines).len() <= 32768,
        b == 0x0a || b == 0x0d && (rest.len() == 0 || rest[0] != 0x0a),
    ensures
        ({
            let start = lines_bytes(lines).len() as int;
            let open = lines_bytes(lines) + s;
            let broken = lines_bytes(lines) + (s + seq![b] + rest);
            let too_long = Err::<BlockModel, Fault>(
                Fault::LimitExceeded { limit: "header_section_bytes"@, max: 32768, actual: 32769 },
            );
            let bare = Err::<BlockModel, Fault>(
                Fault::InvalidHeader { index: start, reason: "bare_line_ending"@ },
            );
            &&& open.len() <= 32768 ==> crate::header::parsed(open) == Err::<BlockModel, Fault>(
                Fault::Incomplete,
            ) && parsed_whole(open, hasty, greedy) == Err::<BlockModel, Fault>(Fault::Incomplete)
            &&& open.len() > 32768 ==> crate::header::parsed(open) == too_long && parsed_whole(
                open,
                hasty,
                greedy,
            ) == too_long
            &&& open.len() + 1 < 32768 ==> crate::header::parsed(broken) == bare && parsed_whole(
                broken,
                hasty,
                greedy,
            ) == bare
        }),
{
    let front = lines_bytes(lines);
    let start = front.len() as int;
    let open = front + s;
    let n = open.len() as int;
    lemma_from_lines(lines, s, hasty);
    assert forall|j: int| start <= j < n implies !ByteClass::LineBreak.has(#[trigger] open[j]) by {
        assert(open[j] == s[j - start]);
    }
    if n <= 32768 {
        lemma_line_end_at(open, start, start, n, false);
        lemma_line_end_at(open, start, start, n, hasty);
    } else {
        lemma_line_too_long(open, start, start, false);
        lemma_line_too_long(open, start, start, hasty);
    }
    let tail = s + seq![b] + rest;
    let broken = front + tail;
    lemma_from_lines(lines, tail, hasty);
    assert forall|j: int| start <= j < n implies !ByteClass::LineBreak.has(#[trigger] broken[j]) by {
        assert(broken[j] == s[j - start]);
    }
    assert(broken[n] == b);
    if rest.len() > 0 {
        assert(broken[n + 1] == rest[0]);
    }
    if n + 1 < 32768 {
        lemma_line_end_at(broken, start, start, n, false);
        lemma_line_end_at(broken, start, start, n, hasty);
    }
}

/// The first line of a header section with something wrong in it is what the refusal tells of,
/// whatever comes after it; and a line after 128 fields is one too many.
pub proof fn lemma_header_stops_at(lines: Seq<WireField>, s: Seq<u8>, rest: Seq<u8>)
    requires
        lines.len() <= 128,
        forall|i: int| 0 <= i < lines.len() ==> is_line(#[trigger] lines[i]),
        s.len() > 0,
        is_unended(s),
        lines_bytes(lines).len() + s.len() + 2 <= 32768,
    ensures
        ({
            let input = lines_bytes(lines) + (s + seq![0x0du8, 0x0au8] + rest);
            let told = field_of(s, lines_bytes(lines).len() as int);
            &&& lines.len() == 128 ==> crate::header::parsed(input) == Err::<BlockModel, Fault>(
                Fault::TooManyHeaders,
            )
            &&& lines.len() < 128 && told is Err ==> crate::header::parsed(input) == Err::<
                BlockModel,
                Fault,
            >(told->Err_0)
        }),
{
    let front = lines_bytes(lines);
    let start = front.len() as int;
    let tail = s + seq![0x0du8, 0x0au8] + rest;
    let input = front + tail;
    let end = start + s.len();
    lemma_from_lines(lines, tail, false);
    assert forall|j: int| start <= j < end implies !ByteClass::LineBreak.has(#[trigger] input[j]) by {
        assert(input[j] == s[j - start]);
    }
    assert(input[end] == 0x0d);
    assert(input[end + 1] == 0x0a);
    lemma_line_end_at(input, start, start, end, false);
    assert(input.subrange(start, end) =~= s);
}

proof fn lemma_trailer_walk(
    input: Seq<u8>,
    start: int,
    lines: Seq<WireField>,
    k: int,
    declared: Seq<Seq<u8>>,
    tail: Seq<u8>,
)
    requires
        0 <= k <= lines.len() <= 32,
        0 <= start <= input.len(),
        forall|i: int| 0 <= i < lines.len() ==> is_line(#[trigger] lines[i]),
        forall|i: int|
            0 <= i < lines.len() ==> declared.contains(lowered((#[trigger] lines[i]).name)),
        forall|i: int, j: int|
            0 <= i < j < lines.len() ==> lowered((#[trigger] lines[i]).name) != lowered(
                (#[trigger] lines[j]).name,
            ),
        forall|i: int| 0 <= i < declared.len() ==> is_declarable(#[trigger] declared[i]),
        input.skip(start) == lines_bytes(lines.skip(k)) + tail,
        start + lines_bytes(lines.skip(k)).len() <= 8192,
    ensures
        trailer_section(input, start, declared, all_said(lines.take(k))) == trailer_section(
            input,
            start + lines_bytes(lines.skip(k)).len(),
            declared,
            all_said(lines),
        ),
    decreases lines.len() - k,
{
    let left = lines.skip(k);
    let read = all_said(lines.take(k));
    let rest = input.skip(start);
    if k < lines.len() {
        let line = lines[k];
        let s = line_bytes(line);
        let n = s.len() as int;
        let end = start + n;
        let later = lines_bytes(lines.skip(k + 1));
        assert(left[0] == line);
        assert(left.skip(1) =~= lines.skip(k + 1));
        lemma_line_found(line);
        assert(rest =~= s + seq![0x0du8, 0x0au8] + (later + tail));
        assert(rest.len() == input.len() - start);
        assert forall|j: int| start <= j < end implies !ByteClass::LineBreak.has(
            #[trigger] input[j],
        ) by {
            assert(input[j] == rest[j - start]);
            assert(rest[j - start] == s[j - start]);
        }
        assert(input[end] == rest[n]);
        assert(input[end + 1] == rest[n + 1]);
        lemma_trailer_line_found(input, end, start);
        assert(input.subrange(start, end) =~= s) by {
            assert forall|j: int| 0 <= j < n implies input.subrange(start, end)[j] == s[j] by {
                assert(input[start + j] == rest[j]);
            }
        }
        assert(trailer_field(s, true) == Ok::<FieldModel, Fault>(said(line)));
        let name = lowered(line.name);
        assert(received_fault(name, declared, read) is None) by {
            assert(declared.contains(name));
            let d = choose|d: int| 0 <= d < declared.len() && declared[d] == name;
            assert(is_declarable(declared[d]));
            lemma_declarable(name);
            if has_name(read, name) {
                let i = choose|i: int| 0 <= i < read.len() && (#[trigger] read[i]).name == name;
                assert(lowered(lines[i].name) == lowered(lines[k].name));
            }
        }
        assert(next_field(s, declared, read, true) == Ok::<FieldModel, Fault>(said(line)));
        assert(input.skip(end + 2) =~= later + tail) by {
            assert(input.skip(end + 2) =~= rest.skip(n + 2));
        }
        lemma_trailer_walk(input, end + 2, lines, k + 1, declared, tail);
        assert(all_said(lines.take(k + 1)) =~= read.push(said(line)));
    } else {
        assert(lines_bytes(left) =~= Seq::<u8>::empty());
        assert(lines.take(k) =~= lines);
    }
}

proof fn lemma_trailer_open_to(input: Seq<u8>, i: int, n: int)
    requires
        0 <= i <= n <= input.len(),
        n <= 8192,
        forall|j: int| i <= j < n ==> #[trigger] input[j] != 0x0d && input[j] != 0x0a,
    ensures
        trailer_line_end(input, i, false) == trailer_line_end(input, n, false),
    decreases n - i,
{
    if i < n {
        assert(input[i] != 0x0d && input[i] != 0x0a);
        lemma_trailer_open_to(input, i + 1, n);
    }
}

/// Where a trailer section is refused, after lines that are in order: it is incomplete while it
/// may go on, too long after 8192 bytes, and refused at a line break that is not CR LF, at a line
/// after 32 fields, and at the first line with something wrong in it.
pub proof fn lemma_trailer_stops_at(
    lines: Seq<WireField>,
    declared: Seq<Seq<u8>>,
    s: Seq<u8>,
    b: u8,
    rest: Seq<u8>,
)
    requires
        lines.len() <= 32,
        forall|i: int| 0 <= i < lines.len() ==> is_line(#[trigger] lines[i]),
        forall|i: int|
            0 <= i < lines.len() ==> declared.contains(lowered((#[trigger] lines[i]).name)),
        forall|i: int, j: int|
            0 <= i < j < lines.len() ==> lowered((#[trigger] lines[i]).name) != lowered(
                (#[trigger] lines[j]).name,
            ),
        forall|i: int| 0 <= i < declared.len() ==> is_declarable(#[trigger] declared[i]),
        declared.no_duplicates(),
        is_unended(s),
        lines_bytes(lines).len() <= 8192,
        b == 0x0a || b == 0x0d && (rest.len() == 0 || rest[0] != 0x0a),
    ensures
        ({
            let front = lines_bytes(lines);
            let n = front.len() + s.len();
            let open = crate::trailer::parsed(front + s, declared);
            let broken = crate::trailer::parsed(front + (s + seq![b] + rest), declared);
            let ended = crate::trailer::parsed(
                front + (s + seq![0x0du8, 0x0au8] + rest),
                declared,
            );
            let told = next_field(s, declared, all_said(lines), true);
            &&& n <= 8192 ==> open == Err::<BlockModel, Fault>(Fault::Incomplete)
            &&& n > 8192 ==> open == Err::<BlockModel, Fault>(
                Fault::LimitExceeded { limit: "trailer_bytes"@, max: 8192, actual: 8193 },
            )
            &&& n < 8192 ==> broken == Err::<BlockModel, Fault>(
                Fault::InvalidTrailer { reason: "bare_line_ending"@ },
            )
            &&& n + 2 <= 8192 && s.len() > 0 && lines.len() == 32 ==> ended == Err::<
                BlockModel,
                Fault,
            >(Fault::InvalidTrailer { reason: "too_many_fields"@ })
            &&& n + 2 <= 8192 && s.len() > 0 && lines.len() < 32 && told is Err ==> ended == Err::<
                BlockModel,
                Fault,
            >(told->Err_0)
        }),
{
    let front = lines_bytes(lines);
    let start = front.len() as int;
    let n = start + s.len();
    lemma_declarations(declared, 0);
    lemma_trailer_from_lines(lines, declared, s);
    lemma_trailer_from_lines(lines, declared, s + seq![b] + rest);
    lemma_trailer_from_lines(lines, declared, s + seq![0x0du8, 0x0au8] + rest);
    let open = front + s;
    let broken = front + (s + seq![b] + rest);
    let ended = front + (s + seq![0x0du8, 0x0au8] + rest);
    assert forall|j: int| start <= j < n implies #[trigger] open[j] != 0x0d && open[j] != 0x0a by {
        assert(open[j] == s[j - start]);
    }
    assert forall|j: int| start <= j < n implies #[trigger] broken[j] != 0x0d && broken[j]
        != 0x0a by {
        assert(broken[j] == s[j - start]);
    }
    assert forall|j: int| start <= j < n implies #[trigger] ended[j] != 0x0d && ended[j] != 0x0a by {
        assert(ended[j] == s[j - start]);
    }
    let m = if n <= 8192 {
        n
    } else {
        8192
    };
    lemma_trailer_open_to(open, start, m);
    lemma_trailer_open_to(broken, start, m);
    lemma_trailer_open_to(ended, start, m);
    assert(broken[n] == b);
    if rest.len() > 0 {
        assert(broken[n + 1] == rest[0]);
    }
    assert(ended[n] == 0x0d);
    assert(ended[n + 1] == 0x0a);
    assert(ended.subrange(start, n) =~= s);
}

proof fn lemma_trailer_from_lines(
    lines: Seq<WireField>,
    declared: Seq<Seq<u8>>,
    tail: Seq<u8>,
)
    requires
        lines.len() <= 32,
        forall|i: int| 0 <= i < lines.len() ==> is_line(#[trigger] lines[i]),
        forall|i: int|
            0 <= i < lines.len() ==> declared.contains(lowered((#[trigger] lines[i]).name)),
        forall|i: int, j: int|
            0 <= i < j < lines.len() ==> lowered((#[trigger] lines[i]).name) != lowered(
                (#[trigger] lines[j]).name,
            ),
        forall|i: int| 0 <= i < declared.len() ==> is_declarable(#[trigger] declared[i]),
        lines_bytes(lines).len() <= 8192,
    ensures
        trailer_section(lines_bytes(lines) + tail, 0, declared, Seq::empty()) == trailer_section(
            lines_bytes(lines) + tail,
            lines_bytes(lines).len() as int,
            declared,
            all_said(lines),
        ),
{
    let input = lines_bytes(lines) + tail;
    assert(lines.skip(0) =~= lines);
    assert(input.skip(0) =~= input);
    assert(all_said(lines.take(0)) =~= Seq::<FieldModel>::empty());
    lemma_trailer_walk(input, 0, lines, 0, declared, tail);
}

/// What is wrong with declared names, whatever the section holds: the first that is not a name
/// without capitals is an invalid declaration, the first of those that no trailer may have is
/// forbidden, and where nothing else is wrong a name that comes twice is a duplicate.
pub proof fn lemma_declaration_is_refused(input: Seq<u8>, declared: Seq<Seq<u8>>, k: int)
    requires
        0 <= k < declared.len(),
        forall|i: int| 0 <= i < k ==> is_declarable(#[trigger] declared[i]),
    ensures
        ({
            let name = declared[k];
            let worded = is_name(name) && forall|i: int|
                0 <= i < name.len() ==> !(0x41 <= #[trigger] name[i] <= 0x5a);
            let one = crate::trailer::parsed(input, declared);
            let other = parsed_in_phases(input, declared);
            &&& !worded ==> one == Err::<BlockModel, Fault>(
                Fault::InvalidTrailer { reason: "invalid_declaration"@ },
            ) && other == one
            &&& worded && !is_declarable(name) ==> one == Err::<BlockModel, Fault>(
                Fault::InvalidTrailer { reason: "forbidden_field"@ },
            ) && other == one
            &&& (forall|i: int| 0 <= i < declared.len() ==> is_declarable(#[trigger] declared[i]))
                && !declared.no_duplicates() ==> one == Err::<BlockModel, Fault>(
                Fault::InvalidTrailer { reason: "duplicate_declaration"@ },
            ) && other == one
        }),
{
    let name = declared[k];
    lemma_declarable(name);
    lemma_declarations(declared, 0);
    if !is_declarable(name) {
        lemma_first_fault(declared, 0, k);
        lemma_declaration_words(name);
    }
}

proof fn lemma_declaration_words(name: Seq<u8>)
    ensures
        ({
            let worded = is_name(name) && forall|i: int|
                0 <= i < name.len() ==> !(0x41 <= #[trigger] name[i] <= 0x5a);
            &&& !worded ==> declaration_fault(name, true) == Some(
                Fault::InvalidTrailer { reason: "invalid_declaration"@ },
            )
            &&& worded && !is_declarable(name) ==> declaration_fault(name, true) == Some(
                Fault::InvalidTrailer { reason: "forbidden_field"@ },
            )
        }),
{
    lemma_declarable(name);
    let worded = is_name(name) && forall|i: int|
        0 <= i < name.len() ==> !(0x41 <= #[trigger] name[i] <= 0x5a);
    if worded {
        assert forall|i: int| 0 <= i < name.len() implies ByteClass::Token.has(#[trigger] name[i])
            && !ByteClass::Upper.has(name[i]) by {}
    } else if name.len() > 0 && name.len() <= 128 && all_in(name, ByteClass::Token) && !any_in(
        name,
        ByteClass::Upper,
    ) {
        assert forall|i: int| 0 <= i < name.len() implies ByteClass::Token.has(#[trigger] name[i])
            && !ByteClass::Upper.has(name[i]) by {}
        assert(is_name(name));
        assert forall|i: int| 0 <= i < name.len() implies !(0x41 <= #[trigger] name[i] <= 0x5a) by {
            assert(!ByteClass::Upper.has(name[i]));
        }
    }
}

proof fn lemma_first_fault(names: Seq<Seq<u8>>, from: int, k: int)
    requires
        0 <= from <= k < names.len(),
        forall|i: int| 0 <= i < k ==> is_declarable(#[trigger] names[i]),
        !is_declarable(names[k]),
    ensures
        first_declaration_fault(names, from, false) == declaration_fault(names[k], true),
    decreases k - from,
{
    lemma_declarable(names[from]);
    if from < k {
        assert(is_declarable(names[from]));
        lemma_first_fault(names, from + 1, k);
    }
}

} // verus!
