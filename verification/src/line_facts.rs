//! Facts on a field line, gathered byte by byte.

use vstd::prelude::*;
use crate::bytes::{
    ByteClass, all_in, any_in, first_from, is_field_byte, is_ows, is_token,
    lemma_first_from_unique, trimmed,
};
use crate::header::{content_seen, lemma_content_seen};

verus! {

/// The part of a field that is being read.
#[derive(Clone, Copy, PartialEq, Eq, Structural)]
pub enum FieldPart {
    Name,
    Value,
}

/// What a byte can be in a field.
#[derive(Clone, Copy, PartialEq, Eq, Structural)]
pub enum WireByte {
    Colon,
    Ows,
    Token,
    ValueOnly,
    Forbidden,
}

/// What is to be known of a line before its field is decided.
#[derive(Clone, Copy)]
pub struct LineFacts {
    pub colon: Option<usize>,
    pub name_has_whitespace: bool,
    pub name_has_invalid_byte: bool,
    pub value_has_invalid_byte: bool,
    pub first_value_content: Option<usize>,
    pub last_value_content: usize,
}

/// A byte that has no place in a name, white space aside.
pub open spec fn is_name_fault(b: u8) -> bool {
    !is_token(b) && !is_ows(b)
}

impl LineFacts {
    /// What the facts say of a name in `input[start..end]`.
    pub open spec fn name_seen(self, input: Seq<u8>, start: int, end: int) -> bool {
        &&& self.name_has_whitespace == exists|j: int|
            start <= j < end && is_ows(#[trigger] input[j])
        &&& self.name_has_invalid_byte == exists|j: int|
            start <= j < end && is_name_fault(#[trigger] input[j])
        &&& forall|j: int| start <= j < end ==> #[trigger] input[j] != ':' as u8
    }

    /// What the facts on a whole line say of its name and value.
    pub open spec fn decide(self, input: Seq<u8>, start: int, end: int) -> bool {
        let line = input.subrange(start, end);
        let colon = first_from(line, ByteClass::Only(':' as u8), 0);
        match self.colon {
            None => colon == line.len(),
            Some(c) => {
                let name = line.subrange(0, colon);
                let value = line.subrange(colon + 1, line.len() as int);
                &&& colon == c - start
                &&& name == input.subrange(start, c as int)
                &&& self.name_has_whitespace == any_in(name, ByteClass::Ows)
                &&& !self.name_has_whitespace && !self.name_has_invalid_byte <==> all_in(
                    name,
                    ByteClass::Token,
                )
                &&& self.value_has_invalid_byte == !all_in(value, ByteClass::Field)
                &&& !self.value_has_invalid_byte ==> trimmed(value) == match
                    self.first_value_content {
                    Some(f) => input.subrange(f as int, self.last_value_content as int),
                    None => input.subrange(end, end),
                }
            },
        }
    }

    /// What the facts say of the line that starts at `start`, read up to `upto`.
    pub open spec fn describes(self, input: Seq<u8>, start: int, upto: int, part: FieldPart) -> bool {
        match self.colon {
            None => {
                &&& part is Name
                &&& self.name_seen(input, start, upto)
                &&& !self.value_has_invalid_byte
                &&& self.first_value_content is None
            },
            Some(colon) => {
                &&& part is Value
                &&& start <= colon < upto
                &&& input[colon as int] == ':' as u8
                &&& self.name_seen(input, start, colon as int)
                &&& self.value_has_invalid_byte == exists|j: int|
                    colon < j < upto && !is_field_byte(#[trigger] input[j])
                &&& self.first_value_content matches Some(f) ==> f < self.last_value_content <= upto
                &&& !self.value_has_invalid_byte ==> content_seen(
                    input,
                    colon + 1,
                    upto,
                    self.first_value_content,
                    self.last_value_content as int,
                )
            },
        }
    }
}

/// What the facts on a whole line say of its field.
pub proof fn lemma_facts_decide(
    facts: LineFacts,
    input: Seq<u8>,
    start: int,
    end: int,
    part: FieldPart,
)
    requires
        0 <= start < end <= input.len(),
        facts.describes(input, start, end, part),
    ensures
        facts.decide(input, start, end),
{
    let line = input.subrange(start, end);
    let class = ByteClass::Only(':' as u8);
    match facts.colon {
        None => {
            assert forall|j: int| 0 <= j < line.len() implies !class.has(#[trigger] line[j]) by {
                assert(line[j] == input[start + j]);
            }
            lemma_first_from_unique(line, class, 0, line.len() as int);
        },
        Some(c) => {
            let colon = c - start;
            assert forall|j: int| 0 <= j < colon implies !class.has(#[trigger] line[j]) by {
                assert(line[j] == input[start + j]);
            }
            assert(line[colon] == input[c as int]);
            lemma_first_from_unique(line, class, 0, colon);
            let name = line.subrange(0, colon);
            let value = line.subrange(colon + 1, line.len() as int);
            assert(name =~= input.subrange(start, c as int));
            assert(value =~= input.subrange(c + 1, end));
            if facts.name_has_whitespace {
                let j = choose|j: int| start <= j < c && is_ows(#[trigger] input[j]);
                assert(ByteClass::Ows.has(name[j - start]));
            }
            if any_in(name, ByteClass::Ows) {
                let j = choose|j: int| 0 <= j < name.len() && ByteClass::Ows.has(
                    #[trigger] name[j],
                );
                assert(is_ows(input[start + j]));
            }
            if facts.name_has_invalid_byte {
                let j = choose|j: int| start <= j < c && is_name_fault(#[trigger] input[j]);
                assert(!ByteClass::Token.has(name[j - start]));
            }
            if !facts.name_has_whitespace && !facts.name_has_invalid_byte {
                assert forall|j: int| 0 <= j < name.len() implies ByteClass::Token.has(
                    #[trigger] name[j],
                ) by {
                    assert(!is_ows(input[start + j]) && !is_name_fault(input[start + j]));
                }
            }
            if facts.value_has_invalid_byte {
                let j = choose|j: int| c < j < end && !is_field_byte(#[trigger] input[j]);
                assert(!ByteClass::Field.has(value[j - c - 1]));
            } else {
                assert forall|j: int| 0 <= j < value.len() implies ByteClass::Field.has(
                    #[trigger] value[j],
                ) by {
                    assert(is_field_byte(input[c + 1 + j]));
                }
                lemma_content_seen(
                    input,
                    c + 1,
                    end,
                    facts.first_value_content,
                    facts.last_value_content as int,
                );
            }
        },
    }
}

/// What observing the byte at `index` does to the facts.
pub open spec fn observed(before: LineFacts, part: FieldPart, byte: WireByte, index: usize) -> LineFacts {
    match (part, byte) {
        (FieldPart::Name, WireByte::Colon) => LineFacts { colon: Some(index), ..before },
        (FieldPart::Name, WireByte::Ows) => LineFacts { name_has_whitespace: true, ..before },
        (FieldPart::Name, WireByte::Token) => before,
        (FieldPart::Name, _) => LineFacts { name_has_invalid_byte: true, ..before },
        (FieldPart::Value, WireByte::Forbidden) => LineFacts {
            value_has_invalid_byte: true,
            ..before
        },
        (FieldPart::Value, WireByte::Ows) => before,
        (FieldPart::Value, _) => LineFacts {
            first_value_content: match before.first_value_content {
                Some(first) => Some(first),
                None => Some(index),
            },
            last_value_content: (index + 1) as usize,
            ..before
        },
    }
}

proof fn lemma_observed(
    before: LineFacts,
    after: LineFacts,
    input: Seq<u8>,
    start: int,
    index: int,
    part: FieldPart,
)
    requires
        0 <= start <= index < input.len() <= usize::MAX,
        before.describes(input, start, index, part),
        after == observed(before, part, wire_class(input[index]), index as usize),
    ensures
        after.describes(
            input,
            start,
            index + 1,
            if part is Name && input[index] == ':' as u8 {
                FieldPart::Value
            } else {
                part
            },
        ),
{
    let b = input[index];
    if before.colon is None {
        if b != ':' as u8 {
            if before.name_has_whitespace {
                let j = choose|j: int| start <= j < index && is_ows(#[trigger] input[j]);
                assert(start <= j < index + 1 && is_ows(input[j]));
            }
            if before.name_has_invalid_byte {
                let j = choose|j: int| start <= j < index && is_name_fault(#[trigger] input[j]);
                assert(start <= j < index + 1 && is_name_fault(input[j]));
            }
            assert(is_ows(b) || is_name_fault(b) || is_token(b));
        }
    } else {
        if before.value_has_invalid_byte {
            let c = before.colon.unwrap();
            let j = choose|j: int| c < j < index && !is_field_byte(#[trigger] input[j]);
            assert(c < j < index + 1 && !is_field_byte(input[j]));
        }
    }
}

fn observe_byte(part: FieldPart, byte: WireByte, index: usize, facts: &mut LineFacts)
    requires
        index < usize::MAX,
    ensures
        *final(facts) == observed(*old(facts), part, byte, index),
{
    match (part, byte) {
        (FieldPart::Name, WireByte::Colon) => {
            facts.colon = Some(index);
        },
        (FieldPart::Name, WireByte::Ows) => {
            facts.name_has_whitespace = true;
        },
        (FieldPart::Name, WireByte::Token) => {},
        (FieldPart::Name, WireByte::ValueOnly | WireByte::Forbidden) => {
            facts.name_has_invalid_byte = true;
        },
        (FieldPart::Value, WireByte::Forbidden) => {
            facts.value_has_invalid_byte = true;
        },
        (FieldPart::Value, WireByte::Ows) => {},
        (FieldPart::Value, WireByte::Colon | WireByte::Token | WireByte::ValueOnly) => {
            if facts.first_value_content.is_none() {
                facts.first_value_content = Some(index);
            }
            facts.last_value_content = index + 1;
        },
    }
}

/// The class of a byte on the wire.
pub open spec fn wire_class(b: u8) -> WireByte {
    if b == ':' as u8 {
        WireByte::Colon
    } else if is_ows(b) {
        WireByte::Ows
    } else if is_token(b) {
        WireByte::Token
    } else if is_field_byte(b) {
        WireByte::ValueOnly
    } else {
        WireByte::Forbidden
    }
}

fn classify(byte: u8) -> (class: WireByte)
    ensures
        class == wire_class(byte),
{
    match byte {
        0x3a => WireByte::Colon,
        0x20 | 0x09 => WireByte::Ows,
        0x30..=0x39 | 0x41..=0x5a | 0x61..=0x7a => WireByte::Token,
        0x21 | 0x23..=0x27 | 0x2a | 0x2b | 0x2d | 0x2e | 0x5e..=0x60 | 0x7c | 0x7e => WireByte::Token,
        0x21..=0x7e | 0x80..=0xff => WireByte::ValueOnly,
        _ => WireByte::Forbidden,
    }
}

/// Gathers the facts on the line between `start` and `end`.
pub fn observe_line(input: &[u8], start: usize, end: usize) -> (facts: LineFacts)
    requires
        start < end <= input@.len(),
    ensures
        facts.describes(
            input@,
            start as int,
            end as int,
            if facts.colon is None {
                FieldPart::Name
            } else {
                FieldPart::Value
            },
        ),
        facts.decide(input@, start as int, end as int),
{
    let mut part = FieldPart::Name;
    let mut facts = LineFacts {
        colon: None,
        name_has_whitespace: false,
        name_has_invalid_byte: false,
        value_has_invalid_byte: false,
        first_value_content: None,
        last_value_content: start,
    };
    let mut index: usize = start;
    while index < end
        invariant
            start <= index <= end <= input@.len(),
            facts.describes(input@, start as int, index as int, part),
        decreases end - index,
    {
        let class = classify(input[index]);
        let ghost before = facts;
        observe_byte(part, class, index, &mut facts);
        proof {
            lemma_observed(before, facts, input@, start as int, index as int, part);
        }
        if matches!(part, FieldPart::Name) && matches!(class, WireByte::Colon) {
            part = FieldPart::Value;
        }
        index += 1;
    }
    proof {
        lemma_facts_decide(facts, input@, start as int, end as int, part);
    }
    facts
}

} // verus!
