//! What lines are refused, and the words for it.

use vstd::prelude::*;
use crate::bytes::{
    ByteClass, all_in, any_in, first_from, lemma_first_from, lemma_first_from_unique, trimmed,
};
use crate::header::field_of;
use crate::request_line::{parsed_line, space};
use crate::text::{lemma_ascii_literal, utf8};
use crate::trailer::{received_fault, trailer_field};
use crate::types::{Fault, FieldModel, RequestLineModel};

verus! {

/// Whether the bytes before `upto` are no control bytes but tabs.
pub open spec fn is_open(input: Seq<u8>, upto: int) -> bool {
    forall|j: int|
        0 <= j < upto ==> #[trigger] input[j] == 0x09 || 0x20 <= input[j] && input[j] != 0x7f
}

proof fn lemma_open_to(input: Seq<u8>, i: int, n: int)
    requires
        0 <= i <= n <= input.len(),
        n <= 8192,
        is_open(input, n),
    ensures
        crate::request_line::line_end(input, i) == crate::request_line::line_end(input, n),
    decreases n - i,
{
    if i < n {
        assert(input[i] == 0x09 || 0x20 <= input[i] && input[i] != 0x7f);
        lemma_open_to(input, i + 1, n);
    }
}

/// A request line that does not end: it is incomplete while it may go on, too long after 8192
/// bytes, and refused at the first line break that is not CR LF, or other control byte.
pub proof fn lemma_request_line_not_ended(input: Seq<u8>, n: int)
    requires
        0 <= n <= input.len(),
        n <= 8192,
        is_open(input, n),
    ensures
        ({
            let read = crate::request_line::parsed(input);
            let ended = n + 1 < input.len() && input[n] == 0x0d && input[n + 1] == 0x0a;
            &&& n == input.len() ==> read == Err::<RequestLineModel, Fault>(Fault::Incomplete)
            &&& n == 8192 && n < input.len() && !ended ==> read == Err::<RequestLineModel, Fault>(
                Fault::LimitExceeded { limit: "request_line_bytes"@, max: 8192, actual: 8193 },
            )
            &&& n < 8192 && n < input.len() && !ended && (input[n] == 0x0d || input[n] == 0x0a)
                ==> read == Err::<RequestLineModel, Fault>(
                Fault::InvalidRequestLine { reason: "bare_line_ending"@ },
            )
            &&& n < 8192 && n < input.len() && input[n] != 0x0d && input[n] != 0x0a && input[n]
                != 0x09 && (input[n] < 0x20 || input[n] == 0x7f) ==> read == Err::<
                RequestLineModel,
                Fault,
            >(Fault::InvalidRequestLine { reason: "control_character"@ })
        }),
{
    lemma_open_to(input, 0, n);
}

proof fn lemma_line_ended(line: Seq<u8>, rest: Seq<u8>)
    requires
        line.len() <= 8192,
        is_open(line, line.len() as int),
    ensures
        crate::request_line::parsed(line + seq![0x0du8, 0x0au8] + rest) == parsed_line(line),
{
    let input = line + seq![0x0du8, 0x0au8] + rest;
    let n = line.len() as int;
    assert forall|j: int| 0 <= j < n implies #[trigger] input[j] == 0x09 || 0x20 <= input[j]
        && input[j] != 0x7f by {
        assert(input[j] == line[j]);
    }
    lemma_open_to(input, 0, n);
    assert(input[n] == 0x0d);
    assert(input[n + 1] == 0x0a);
    assert(input.subrange(0, n) =~= line);
}

/// Whether a text holds no space.
pub open spec fn is_unspaced(s: Seq<u8>) -> bool {
    forall|i: int| 0 <= i < s.len() ==> #[trigger] s[i] != 0x20
}

/// A request line that is not made of three parts with one space between each two: a tab
/// anywhere, an empty part, a missing target or a fourth part is wrong spacing, and two parts
/// alone lack a version that is supported.
pub proof fn lemma_request_line_misspaced(
    line: Seq<u8>,
    first: Seq<u8>,
    second: Seq<u8>,
    third: Seq<u8>,
    rest: Seq<u8>,
)
    requires
        line.len() <= 8192,
        is_open(line, line.len() as int),
        is_unspaced(first),
        is_unspaced(second),
    ensures
        ({
            let read = crate::request_line::parsed(line + seq![0x0du8, 0x0au8] + rest);
            let misspaced = Err::<RequestLineModel, Fault>(
                Fault::InvalidRequestLine { reason: "invalid_spacing"@ },
            );
            let tabbed = line.contains(0x09u8);
            let blank = seq![0x20u8];
            &&& tabbed ==> read == misspaced
            &&& line == first ==> read == misspaced
            &&& line == first + blank ==> read == misspaced
            &&& line == first + blank + second && first.len() == 0 ==> read == misspaced
            &&& line == first + blank + second && !tabbed && first.len() > 0 && second.len() > 0
                ==> read == Err::<RequestLineModel, Fault>(Fault::UnsupportedVersion)
            &&& line == first + blank + second + blank + third && (first.len() == 0 || second.len()
                == 0 || third.len() == 0 || !is_unspaced(third)) ==> read == misspaced
        }),
{
    let blank = seq![0x20u8];
    let n = line.len() as int;
    let m = first.len() as int;
    lemma_line_ended(line, rest);
    assert(line.contains(0x09u8) == any_in(line, ByteClass::Only('\t' as u8))) by {
        if line.contains(0x09u8) {
            let i = choose|i: int| 0 <= i < n && line[i] == 0x09;
            assert(ByteClass::Only('\t' as u8).has(line[i]));
        }
    }
    if line == first {
        assert forall|j: int| 0 <= j < n implies !space().has(#[trigger] line[j]) by {}
        lemma_first_from_unique(line, space(), 0, n);
    }
    if line == first + blank || line == first + blank + second || line == first + blank + second
        + blank + third {
        assert forall|j: int| 0 <= j < m implies !space().has(#[trigger] line[j]) by {
            assert(line[j] == first[j]);
        }
        assert(line[m] == 0x20);
        lemma_first_from_unique(line, space(), 0, m);
    }
    let t = m + 1 + second.len();
    if line == first + blank + second {
        assert forall|j: int| m + 1 <= j < n implies !space().has(#[trigger] line[j]) by {
            assert(line[j] == second[j - m - 1]);
        }
        lemma_first_from_unique(line, space(), m + 1, n);
    }
    if line == first + blank + second + blank + third {
        assert forall|j: int| m + 1 <= j < t implies !space().has(#[trigger] line[j]) by {
            assert(line[j] == second[j - m - 1]);
        }
        assert(line[t] == 0x20);
        lemma_first_from_unique(line, space(), m + 1, t);
        if !is_unspaced(third) {
            let k = choose|k: int| 0 <= k < third.len() && #[trigger] third[k] == 0x20;
            assert(line[t + 1 + k] == third[k]);
            lemma_first_from(line, space(), t + 1);
            if first_from(line, space(), t + 1) == n {
                assert(!space().has(line[t + 1 + k]));
            }
        }
    }
}

/// Whether a byte may stand in a name: a visible byte that is none of `"(),/:;<=>?@[\]{}`.
pub open spec fn is_name_byte(b: u8) -> bool {
    0x21 <= b <= 0x7e && b != 0x22 && b != 0x28 && b != 0x29 && b != 0x2c && b != 0x2f && b != 0x3a
        && b != 0x3b && b != 0x3c && b != 0x3d && b != 0x3e && b != 0x3f && b != 0x40 && b != 0x5b
        && b != 0x5c && b != 0x5d && b != 0x7b && b != 0x7d
}

proof fn lemma_line_split(name: Seq<u8>, raw: Seq<u8>)
    requires
        forall|i: int| 0 <= i < name.len() ==> #[trigger] name[i] != 0x3a,
    ensures
        ({
            let line = name + seq![0x3au8] + raw;
            let n = name.len() as int;
            &&& first_from(line, ByteClass::Only(':' as u8), 0) == n
            &&& line.subrange(0, n) == name
            &&& line.subrange(n + 1, line.len() as int) == raw
            &&& n > 0 ==> line[0] == name[0]
            &&& n == 0 ==> line[0] == 0x3a
        }),
{
    let line = name + seq![0x3au8] + raw;
    let n = name.len() as int;
    assert forall|j: int| 0 <= j < n implies !ByteClass::Only(':' as u8).has(#[trigger] line[j]) by {
        assert(line[j] == name[j]);
    }
    assert(line[n] == 0x3a);
    lemma_first_from_unique(line, ByteClass::Only(':' as u8), 0, n);
    assert(line.subrange(0, n) =~= name);
    assert(line.subrange(n + 1, line.len() as int) =~= raw);
}

proof fn lemma_name_classes(name: Seq<u8>)
    ensures
        any_in(name, ByteClass::Ows) == (name.contains(0x20u8) || name.contains(0x09u8)),
        all_in(name, ByteClass::Token) == forall|i: int|
            0 <= i < name.len() ==> is_name_byte(#[trigger] name[i]),
{
    if any_in(name, ByteClass::Ows) {
        let i = choose|i: int| 0 <= i < name.len() && ByteClass::Ows.has(#[trigger] name[i]);
        assert(name[i] == 0x20 || name[i] == 0x09);
    }
    if name.contains(0x20u8) {
        let i = choose|i: int| 0 <= i < name.len() && name[i] == 0x20;
        assert(ByteClass::Ows.has(name[i]));
    }
    if name.contains(0x09u8) {
        let i = choose|i: int| 0 <= i < name.len() && name[i] == 0x09;
        assert(ByteClass::Ows.has(name[i]));
    }
    if all_in(name, ByteClass::Token) {
        assert forall|i: int| 0 <= i < name.len() implies is_name_byte(#[trigger] name[i]) by {
            assert(ByteClass::Token.has(name[i]));
        }
    }
    if forall|i: int| 0 <= i < name.len() ==> is_name_byte(#[trigger] name[i]) {
        assert forall|i: int| 0 <= i < name.len() implies ByteClass::Token.has(
            #[trigger] name[i],
        ) by {
            assert(is_name_byte(name[i]));
        }
    }
}

proof fn lemma_value_class(raw: Seq<u8>)
    ensures
        all_in(raw, ByteClass::Field) == forall|i: int|
            0 <= i < raw.len() ==> #[trigger] raw[i] == 0x09 || 0x20 <= raw[i] && raw[i] != 0x7f,
{
    if all_in(raw, ByteClass::Field) {
        assert forall|i: int| 0 <= i < raw.len() implies #[trigger] raw[i] == 0x09 || 0x20 <= raw[i]
            && raw[i] != 0x7f by {
            assert(ByteClass::Field.has(raw[i]));
        }
    }
    if forall|i: int|
        0 <= i < raw.len() ==> #[trigger] raw[i] == 0x09 || 0x20 <= raw[i] && raw[i] != 0x7f {
        assert forall|i: int| 0 <= i < raw.len() implies ByteClass::Field.has(#[trigger] raw[i]) by {
            assert(raw[i] == 0x09 || 0x20 <= raw[i] && raw[i] != 0x7f);
        }
    }
}

/// What is wrong with a line of a header section, in the order in which it is looked for: it
/// begins with a space or a tab, has no colon, no name before it, a name of over 128 bytes, a
/// space or tab in the name, another byte that no name has, a byte that no value has, or a value
/// of over 8192 bytes.
pub proof fn lemma_header_line_is_refused(name: Seq<u8>, raw: Seq<u8>, offset: int)
    requires
        forall|i: int| 0 <= i < name.len() ==> #[trigger] name[i] != 0x3a,
    ensures
        ({
            let told = |reason: Seq<char>|
                Err::<FieldModel, Fault>(Fault::InvalidHeader { index: offset, reason });
            let line = name + seq![0x3au8] + raw;
            let read = field_of(line, offset);
            let folded = name.len() > 0 && (name[0] == 0x20 || name[0] == 0x09);
            let spaced = name.contains(0x20u8) || name.contains(0x09u8);
            let named = forall|i: int| 0 <= i < name.len() ==> is_name_byte(#[trigger] name[i]);
            let valued = forall|i: int|
                0 <= i < raw.len() ==> #[trigger] raw[i] == 0x09 || 0x20 <= raw[i] && raw[i] != 0x7f;
            &&& folded ==> read == told("obs_fold"@) && field_of(name, offset) == told("obs_fold"@)
            &&& !folded ==> field_of(name, offset) == told("invalid_name"@)
            &&& name.len() == 0 ==> read == told("invalid_name"@)
            &&& !folded && name.len() > 128 ==> read == Err::<FieldModel, Fault>(
                Fault::LimitExceeded {
                    limit: "header_name_bytes"@,
                    max: 128,
                    actual: name.len() as int,
                },
            )
            &&& !folded && 1 <= name.len() <= 128 && spaced ==> read == told(
                "whitespace_before_colon"@,
            )
            &&& !folded && 1 <= name.len() <= 128 && !spaced && !named ==> read == told(
                "invalid_name"@,
            )
            &&& 1 <= name.len() <= 128 && named && !valued ==> read == told("invalid_value_byte"@)
            &&& 1 <= name.len() <= 128 && named && valued && trimmed(raw).len() > 8192 ==> read
                == Err::<FieldModel, Fault>(
                Fault::LimitExceeded {
                    limit: "header_value_bytes"@,
                    max: 8192,
                    actual: trimmed(raw).len() as int,
                },
            )
        }),
{
    lemma_line_split(name, raw);
    lemma_name_classes(name);
    lemma_value_class(raw);
    assert forall|j: int| 0 <= j < name.len() implies !ByteClass::Only(':' as u8).has(
        #[trigger] name[j],
    ) by {}
    lemma_first_from_unique(name, ByteClass::Only(':' as u8), 0, name.len() as int);
    if forall|i: int| 0 <= i < name.len() ==> is_name_byte(#[trigger] name[i]) {
        if name.len() > 0 {
            assert(is_name_byte(name[0]));
        }
        if name.contains(0x20u8) {
            let i = choose|i: int| 0 <= i < name.len() && name[i] == 0x20;
            assert(is_name_byte(name[i]));
        }
        if name.contains(0x09u8) {
            let i = choose|i: int| 0 <= i < name.len() && name[i] == 0x09;
            assert(is_name_byte(name[i]));
        }
    }
}

/// What is wrong with a line of a trailer section, in the order in which it is looked for. Names
/// that are too long have a word of their own in some readings.
pub proof fn lemma_trailer_line_is_refused(name: Seq<u8>, raw: Seq<u8>, worded: bool)
    requires
        forall|i: int| 0 <= i < name.len() ==> #[trigger] name[i] != 0x3a,
    ensures
        ({
            let told = |reason: Seq<char>|
                Err::<FieldModel, Fault>(Fault::InvalidTrailer { reason });
            let line = name + seq![0x3au8] + raw;
            let read = trailer_field(line, worded);
            let folded = name.len() > 0 && (name[0] == 0x20 || name[0] == 0x09);
            let spaced = name.contains(0x20u8) || name.contains(0x09u8);
            let named = forall|i: int| 0 <= i < name.len() ==> is_name_byte(#[trigger] name[i]);
            let valued = forall|i: int|
                0 <= i < raw.len() ==> #[trigger] raw[i] == 0x09 || 0x20 <= raw[i] && raw[i] != 0x7f;
            &&& folded ==> read == told("obs_fold"@) && trailer_field(name, worded) == told(
                "obs_fold"@,
            )
            &&& !folded ==> trailer_field(name, worded) == told("invalid_name"@)
            &&& name.len() == 0 ==> read == told("invalid_name"@)
            &&& !folded && name.len() > 128 ==> read == told(
                if worded {
                    "name_too_long"@
                } else {
                    "invalid_name"@
                },
            )
            &&& !folded && 1 <= name.len() <= 128 && spaced ==> read == told(
                "whitespace_before_colon"@,
            )
            &&& !folded && 1 <= name.len() <= 128 && !spaced && !named ==> read == told(
                "invalid_name"@,
            )
            &&& 1 <= name.len() <= 128 && named && !valued ==> read == told("invalid_value_byte"@)
            &&& 1 <= name.len() <= 128 && named && valued && trimmed(raw).len() > 8192 ==> read
                == told("value_too_long"@)
        }),
{
    lemma_line_split(name, raw);
    lemma_name_classes(name);
    lemma_value_class(raw);
    assert forall|j: int| 0 <= j < name.len() implies !ByteClass::Only(':' as u8).has(
        #[trigger] name[j],
    ) by {}
    lemma_first_from_unique(name, ByteClass::Only(':' as u8), 0, name.len() as int);
    if forall|i: int| 0 <= i < name.len() ==> is_name_byte(#[trigger] name[i]) {
        if name.len() > 0 {
            assert(is_name_byte(name[0]));
        }
        if name.contains(0x20u8) {
            let i = choose|i: int| 0 <= i < name.len() && name[i] == 0x20;
            assert(is_name_byte(name[i]));
        }
        if name.contains(0x09u8) {
            let i = choose|i: int| 0 <= i < name.len() && name[i] == 0x09;
            assert(is_name_byte(name[i]));
        }
    }
}

/// What is wrong with a trailer field that is well-formed: first that its name is one of the
/// eleven that frame, route, authorize or hold state, or begins with `x-forwarded-`; then that it
/// was not declared; then that it came before.
pub proof fn lemma_trailer_field_is_refused(
    name: Seq<u8>,
    declared: Seq<Seq<u8>>,
    before: Seq<FieldModel>,
)
    ensures
        ({
            let forbidden = name == utf8("content-length"@) || name == utf8("transfer-encoding"@)
                || name == utf8("host"@) || name == utf8("connection"@) || name == utf8("trailer"@)
                || name == utf8("upgrade"@) || name == utf8("forwarded"@) || name == utf8(
                "authorization"@,
            ) || name == utf8("proxy-authorization"@) || name == utf8("cookie"@) || name == utf8(
                "set-cookie"@,
            ) || (name.len() >= 12 && name.take(12) == utf8("x-forwarded-"@));
            let repeated = exists|i: int|
                0 <= i < before.len() && (#[trigger] before[i]).name == name;
            received_fault(name, declared, before) == if forbidden {
                Some(Fault::InvalidTrailer { reason: "forbidden_field"@ })
            } else if !declared.contains(name) {
                Some(Fault::InvalidTrailer { reason: "undeclared_field"@ })
            } else if repeated {
                Some(Fault::InvalidTrailer { reason: "duplicate_field"@ })
            } else {
                None
            }
        }),
{
    reveal_strlit("x-forwarded-");
    lemma_ascii_literal("x-forwarded-"@);
    assert(utf8("x-forwarded-"@).len() == 12);
    if name.len() >= 12 {
        assert(name.take(12) =~= name.subrange(0, 12));
    }
}

} // verus!
