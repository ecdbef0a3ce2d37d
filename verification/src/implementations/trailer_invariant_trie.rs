//! Trailer parsing with the declared names in a trie, which also keeps what has been received.

use vstd::prelude::*;
use crate::bytes::{
    ByteClass, all_bytes_in, all_in, any_byte_in, any_in, find_from, find_in, is_ows,
    lemma_first_in_unique, lemma_trimmed_ends, lowered, trim_ows, trimmed,
};
use crate::text::{token_text, utf8};
use crate::trailer::{
    TRAILER_FIELD_MAX, TRAILER_MAX, TRAILER_NAME_MAX, declarations_fault, first_declaration_fault,
    has_name, is_forbidden_name, lemma_trailer_end_after, lemma_trailer_line_end,
    lemma_trailer_line_end_is_first_cr, parsed_framed, received_fault, trailer_end, trailer_fault,
    trailer_field, trailer_line_end, trailer_lines,
};
use crate::trie::Trie;
use crate::types::{
    BlockModel, Fault, FieldModel, HeaderField, PolyguardError, Result, TrailerBlock, fields_of,
    invalid_trailer, limit_exceeded, outcome, texts_of,
};

verus! {

#[derive(Clone, Copy)]
struct FramedSection<'a> {
    field_bytes: &'a [u8],
    bytes_consumed: usize,
}

#[derive(Clone, Copy)]
struct RawField<'a> {
    name: &'a [u8],
    value: &'a [u8],
}

struct TrailerName(String);

struct TrailerValue<'a>(&'a [u8]);

struct ValidatedField<'a> {
    name: TrailerName,
    value: TrailerValue<'a>,
}

impl<'a> ValidatedField<'a> {
    spec fn field(self) -> FieldModel {
        FieldModel { name: utf8(self.name.0@), value: self.value.0@ }
    }
}

/// The fields that validated fields stand for.
spec fn validated(fields: Seq<ValidatedField<'_>>) -> Seq<FieldModel> {
    fields.map_values(|field: ValidatedField<'_>| field.field())
}

/// The declared names, as the paths of a trie. Two marks for each of its nodes tell whether the
/// name was declared and whether a field of it was received.
struct DeclaredNames {
    trie: Trie,
    declared: Vec<bool>,
    received: Vec<bool>,
}

/// Whether a name is the path of some node.
spec fn has_node(trie: Trie, name: Seq<u8>) -> bool {
    exists|node: int| 0 <= node < trie.size() && #[trigger] trie.path(node) == name
}

impl DeclaredNames {
    /// Whether the marks say which names were declared and which fields were received.
    spec fn keeps(self, names: Seq<Seq<u8>>, fields: Seq<FieldModel>) -> bool {
        &&& self.trie.well_formed()
        &&& self.declared@.len() == self.trie.size()
        &&& self.received@.len() == self.trie.size()
        &&& forall|node: int|
            0 <= node < self.trie.size() ==> #[trigger] self.declared@[node] == names.contains(
                self.trie.path(node),
            )
        &&& forall|node: int|
            0 <= node < self.trie.size() ==> #[trigger] self.received@[node] == has_name(
                fields,
                self.trie.path(node),
            )
        &&& forall|k: int| 0 <= k < names.len() ==> has_node(self.trie, #[trigger] names[k])
    }
}

pub fn parse_trailer_section(input: &[u8], declared_names: &[String]) -> (result: Result<
    TrailerBlock,
>)
    ensures
        outcome(result) == parsed_framed(input@, texts_of(declared_names@)),
{
    let framed = frame_section(input)?;
    let mut declarations = DeclaredNames::validate(declared_names)?;
    let fields = validate_fields(
        framed.field_bytes,
        &mut declarations,
        Ghost(input@),
        Ghost(texts_of(declared_names@)),
    )?;
    Ok(construct_output(fields, framed.bytes_consumed))
}

fn frame_section<'a>(input: &'a [u8]) -> (framed: Result<FramedSection<'a>>)
    ensures
        match framed {
            Ok(f) => {
                let stop = f.field_bytes@.len() as int;
                &&& trailer_end(input@, 0) == Ok::<int, Fault>(stop)
                &&& f.field_bytes@ == input@.subrange(0, stop)
                &&& f.bytes_consumed == stop + 2
            },
            Err(e) => trailer_end(input@, 0) == Err::<int, Fault>(e@),
        },
{
    let mut line_start: usize = 0;
    let mut position: usize = 0;
    while position < input.len()
        invariant
            line_start <= position <= input@.len(),
            position <= TRAILER_MAX,
            trailer_end(input@, 0) == trailer_end(input@, line_start as int),
            trailer_line_end(input@, line_start as int, false) == trailer_line_end(
                input@,
                position as int,
                false,
            ),
        decreases input@.len() - position,
    {
        if position == TRAILER_MAX {
            return Err(limit_exceeded("trailer_bytes", TRAILER_MAX, TRAILER_MAX + 1));
        }
        let byte: u8 = input[position];
        if byte == '\n' as u8 {
            return Err(invalid_trailer("bare_line_ending"));
        }
        if byte != '\r' as u8 {
            position += 1;
            continue;
        }
        if position + 1 >= input.len() || input[position + 1] != '\n' as u8 {
            return Err(invalid_trailer("bare_line_ending"));
        }
        let after_line: usize = position + 2;
        if after_line > TRAILER_MAX {
            return Err(limit_exceeded("trailer_bytes", TRAILER_MAX, after_line));
        }
        if position == line_start {
            return Ok(
                FramedSection { field_bytes: &input[0..position], bytes_consumed: after_line },
            );
        }
        line_start = after_line;
        position = after_line;
    }
    Err(PolyguardError::Incomplete)
}

impl DeclaredNames {
    fn validate(names: &[String]) -> (declarations: Result<Self>)
        ensures
            match declarations {
                Ok(d) => {
                    &&& declarations_fault(texts_of(names@), true) is None
                    &&& d.keeps(texts_of(names@), Seq::empty())
                },
                Err(e) => declarations_fault(texts_of(names@), true) == Some(e@),
            },
    {
        let ghost texts = texts_of(names@);
        let mut declarations = DeclaredNames {
            trie: Trie::new(),
            declared: vec![false],
            received: vec![false],
        };
        let mut index: usize = 0;
        assert(texts.take(0) =~= Seq::<Seq<u8>>::empty());
        while index < names.len()
            invariant
                index <= names@.len(),
                texts == texts_of(names@),
                declarations.keeps(texts.take(index as int), Seq::empty()),
                first_declaration_fault(texts, 0, true) == first_declaration_fault(
                    texts,
                    index as int,
                    true,
                ),
            decreases names@.len() - index,
        {
            let name: &[u8] = names[index].as_str().as_bytes();
            assert(texts[index as int] == name@);
            if !is_lowercase_token(name) {
                return Err(invalid_trailer("invalid_declaration"));
            }
            if is_forbidden_name(name) {
                return Err(invalid_trailer("forbidden_field"));
            }
            declarations.insert(name, Ghost(texts.take(index as int)))?;
            assert(texts.take(index + 1) =~= texts.take(index as int).push(name@));
            index += 1;
        }
        assert(texts.take(index as int) =~= texts);
        Ok(declarations)
    }

    fn insert(&mut self, name: &[u8], Ghost(names): Ghost<Seq<Seq<u8>>>) -> (inserted: Result<()>)
        requires
            old(self).keeps(names, Seq::empty()),
        ensures
            match inserted {
                Ok(_) => {
                    &&& !names.contains(name@)
                    &&& final(self).keeps(names.push(name@), Seq::empty())
                },
                Err(e) => {
                    &&& names.contains(name@)
                    &&& e@ == trailer_fault("duplicate_declaration"@)
                },
            },
    {
        let ghost before = self.trie;
        let node: usize = self.trie.reach(name);
        let count: usize = self.trie.node_count();
        while self.declared.len() < count
            invariant
                count == self.trie.size(),
                self.trie.well_formed(),
                node < count,
                self.trie.path(node as int) == name@,
                0 <= before.size() <= count,
                before.size() <= self.declared@.len() <= count,
                self.declared@.len() == self.received@.len(),
                forall|j: int|
                    0 <= j < before.size() ==> #[trigger] self.trie.path(j) == before.path(j),
                forall|j: int|
                    0 <= j < before.size() ==> #[trigger] self.declared@[j] == names.contains(
                        before.path(j),
                    ),
                forall|j: int|
                    before.size() <= j < self.declared@.len() ==> !#[trigger] self.declared@[j],
                forall|j: int| 0 <= j < self.received@.len() ==> !#[trigger] self.received@[j],
            decreases count - self.declared@.len(),
        {
            self.declared.push(false);
            self.received.push(false);
        }
        proof {
            assert forall|j: int| 0 <= j < count implies #[trigger] self.declared@[j]
                == names.contains(self.trie.path(j)) by {
                if j < before.size() {
                    assert(self.trie.path(j) == before.path(j));
                } else if names.contains(self.trie.path(j)) {
                    let k = choose|k: int| 0 <= k < names.len() && names[k] == self.trie.path(j);
                    assert(has_node(before, names[k]));
                    let other = choose|other: int|
                        0 <= other < before.size() && #[trigger] before.path(other) == names[k];
                    assert(self.trie.path(other) == before.path(other));
                    self.trie.lemma_paths_distinct(other, j);
                }
            }
        }
        if self.declared[node] {
            return Err(invalid_trailer("duplicate_declaration"));
        }
        let ghost marks = self.declared@;
        self.declared.set(node, true);
        proof {
            let longer = names.push(name@);
            assert forall|j: int| 0 <= j < count implies #[trigger] self.declared@[j]
                == longer.contains(self.trie.path(j)) by {
                let path = self.trie.path(j);
                assert(marks[j] == names.contains(path));
                if names.contains(path) {
                    let k = choose|k: int| 0 <= k < names.len() && names[k] == path;
                    assert(longer[k] == path);
                }
                if longer.contains(path) && path != name@ {
                    let k = choose|k: int| 0 <= k < longer.len() && longer[k] == path;
                    assert(names[k] == path);
                }
                if path == name@ {
                    assert(longer[names.len() as int] == path);
                    self.trie.lemma_paths_distinct(j, node as int);
                }
            }
            assert forall|k: int| 0 <= k < longer.len() implies has_node(
                self.trie,
                #[trigger] longer[k],
            ) by {
                if k < names.len() {
                    assert(has_node(before, names[k]));
                    let other = choose|other: int|
                        0 <= other < before.size() && #[trigger] before.path(other) == names[k];
                    assert(self.trie.path(other) == before.path(other));
                } else {
                    assert(self.trie.path(node as int) == name@);
                }
            }
        }
        Ok(())
    }

    fn accept_received(
        &mut self,
        name: &[u8],
        Ghost(names): Ghost<Seq<Seq<u8>>>,
        Ghost(fields): Ghost<Seq<FieldModel>>,
    ) -> (accepted: Result<()>)
        requires
            old(self).keeps(names, fields),
        ensures
            match accepted {
                Ok(_) => {
                    &&& received_fault(name@, names, fields) is None
                    &&& forall|field: FieldModel|
                        field.name == name@ ==> final(self).keeps(names, #[trigger] fields.push(field))
                },
                Err(e) => received_fault(name@, names, fields) == Some(e@),
            },
    {
        if is_forbidden_name(name) {
            return Err(invalid_trailer("forbidden_field"));
        }
        let node: usize = match self.trie.find(name) {
            Some(node) => node,
            None => {
                proof {
                    if names.contains(name@) {
                        let k = choose|k: int| 0 <= k < names.len() && names[k] == name@;
                        assert(has_node(self.trie, names[k]));
                    }
                }
                return Err(invalid_trailer("undeclared_field"));
            },
        };
        if !self.declared[node] {
            return Err(invalid_trailer("undeclared_field"));
        }
        if self.received[node] {
            return Err(invalid_trailer("duplicate_field"));
        }
        let ghost marks = self.received@;
        self.received.set(node, true);
        proof {
            assert forall|field: FieldModel| field.name == name@ implies self.keeps(
                names,
                #[trigger] fields.push(field),
            ) by {
                let longer = fields.push(field);
                assert forall|j: int| 0 <= j < self.trie.size() implies #[trigger] self.received@[j]
                    == has_name(longer, self.trie.path(j)) by {
                    let path = self.trie.path(j);
                    assert(marks[j] == has_name(fields, path));
                    if has_name(fields, path) {
                        let k = choose|k: int|
                            0 <= k < fields.len() && (#[trigger] fields[k]).name == path;
                        assert(longer[k].name == path);
                    }
                    if has_name(longer, path) && path != name@ {
                        let k = choose|k: int|
                            0 <= k < longer.len() && (#[trigger] longer[k]).name == path;
                        assert(fields[k].name == path);
                    }
                    if path == name@ {
                        assert(longer[fields.len() as int].name == path);
                        self.trie.lemma_paths_distinct(j, node as int);
                    }
                }
            }
        }
        Ok(())
    }
}

fn validate_fields<'a>(
    bytes: &'a [u8],
    declarations: &mut DeclaredNames,
    Ghost(input): Ghost<Seq<u8>>,
    Ghost(names): Ghost<Seq<Seq<u8>>>,
) -> (fields: Result<Vec<ValidatedField<'a>>>)
    requires
        trailer_end(input, 0) == Ok::<int, Fault>(bytes@.len() as int),
        bytes@ == input.subrange(0, bytes@.len() as int),
        old(declarations).keeps(names, Seq::empty()),
    ensures
        match fields {
            Ok(f) => trailer_lines(input, 0, bytes@.len() as int, names, Seq::empty()) == Ok::<
                Seq<FieldModel>,
                Fault,
            >(validated(f@)),
            Err(e) => trailer_lines(input, 0, bytes@.len() as int, names, Seq::empty()) == Err::<
                Seq<FieldModel>,
                Fault,
            >(e@),
        },
{
    let ghost stop = bytes@.len() as int;
    let mut fields: Vec<ValidatedField<'a>> = Vec::new();
    let mut remaining: &'a [u8] = bytes;
    proof {
        lemma_trailer_end_after(input, 0);
        assert(validated(fields@) =~= Seq::<FieldModel>::empty());
    }
    while remaining.len() > 0
        invariant
            stop == bytes@.len(),
            stop + 2 <= input.len(),
            stop <= TRAILER_MAX,
            remaining@.len() <= stop,
            remaining@ == input.subrange(stop - remaining@.len(), stop),
            trailer_end(input, stop - remaining@.len()) == Ok::<int, Fault>(stop),
            fields@.len() <= TRAILER_FIELD_MAX,
            declarations.keeps(names, validated(fields@)),
            trailer_lines(input, 0, stop, names, Seq::empty()) == trailer_lines(
                input,
                stop - remaining@.len(),
                stop,
                names,
                validated(fields@),
            ),
        decreases remaining@.len(),
    {
        let ghost start = stop - remaining@.len();
        let ghost end = trailer_line_end(input, start, false)->Ok_0;
        proof {
            lemma_trailer_line_end(input, start, false);
            lemma_trailer_line_end_is_first_cr(input, start, false);
            lemma_trailer_end_after(input, start);
            lemma_trailer_end_after(input, end + 2);
        }
        if fields.len() == TRAILER_FIELD_MAX {
            return Err(invalid_trailer("too_many_fields"));
        }
        let line_end: usize = find_in(remaining, ByteClass::Only('\r' as u8));
        proof {
            assert forall|j: int| 0 <= j < end - start implies !ByteClass::Only('\r' as u8).has(
                #[trigger] remaining@[j],
            ) by {
                assert(!ByteClass::LineBreak.has(input[start + j]));
            }
            assert(remaining@[end - start] == input[end]);
            lemma_first_in_unique(remaining@, ByteClass::Only('\r' as u8), end - start);
        }
        let line: &'a [u8] = &remaining[0..line_end];
        assert(line@ =~= input.subrange(start, end));
        let raw = validate_line(line)?;
        let name = TrailerName::canonicalize(raw.name);
        declarations.accept_received(
            name.0.as_str().as_bytes(),
            Ghost(names),
            Ghost(validated(fields@)),
        )?;
        let ghost before = validated(fields@);
        let field = ValidatedField { name, value: TrailerValue::trim(raw.value) };
        proof {
            assert(before.push(field.field()) == before.push(field.field()));
        }
        fields.push(field);
        assert(validated(fields@) =~= before.push(field.field()));
        remaining = &remaining[line_end + 2..remaining.len()];
        assert(remaining@ =~= input.subrange(end + 2, stop));
    }
    Ok(fields)
}

fn validate_line<'a>(line: &'a [u8]) -> (raw: Result<RawField<'a>>)
    requires
        line@.len() <= TRAILER_MAX,
    ensures
        match raw {
            Ok(r) => {
                &&& all_in(r.name@, ByteClass::Token)
                &&& trailer_field(line@, false) == Ok::<FieldModel, Fault>(
                    FieldModel { name: lowered(r.name@), value: trimmed(r.value@) },
                )
            },
            Err(e) => trailer_field(line@, false) == Err::<FieldModel, Fault>(e@),
        },
{
    if line.len() > 0 && is_ows(line[0]) {
        return Err(invalid_trailer("obs_fold"));
    }
    let colon: usize = find_from(line, ByteClass::Only(':' as u8), 0);
    if colon == line.len() {
        return Err(invalid_trailer("invalid_name"));
    }
    let name: &'a [u8] = &line[0..colon];
    if name.len() == 0 || name.len() > TRAILER_NAME_MAX {
        return Err(invalid_trailer("invalid_name"));
    }
    if any_byte_in(name, ByteClass::Ows) {
        return Err(invalid_trailer("whitespace_before_colon"));
    }
    if !all_bytes_in(name, ByteClass::Token) {
        return Err(invalid_trailer("invalid_name"));
    }
    let value: &'a [u8] = &line[colon + 1..line.len()];
    proof {
        lemma_trimmed_ends(value@);
    }
    if !all_bytes_in(value, ByteClass::Field) {
        return Err(invalid_trailer("invalid_value_byte"));
    }
    Ok(RawField { name, value })
}

impl TrailerName {
    fn canonicalize(bytes: &[u8]) -> (name: Self)
        requires
            all_in(bytes@, ByteClass::Token),
        ensures
            utf8(name.0@) == lowered(bytes@),
    {
        Self(token_text(bytes))
    }
}

impl<'a> TrailerValue<'a> {
    fn trim(bytes: &'a [u8]) -> (value: Self)
        ensures
            value.0@ == trimmed(bytes@),
    {
        TrailerValue(trim_ows(bytes))
    }
}

fn construct_output(fields: Vec<ValidatedField<'_>>, bytes_consumed: usize) -> (block: TrailerBlock)
    ensures
        block@ == (BlockModel {
            fields: validated(fields@),
            bytes_consumed: bytes_consumed as int,
        }),
{
    let ghost wanted = validated(fields@);
    let mut output: Vec<HeaderField> = Vec::new();
    let mut index: usize = 0;
    while index < fields.len()
        invariant
            index <= fields@.len(),
            wanted == validated(fields@),
            fields_of(output@) =~= wanted.take(index as int),
        decreases fields@.len() - index,
    {
        let field = HeaderField {
            name: fields[index].name.0.clone(),
            value: vstd::slice::slice_to_vec(fields[index].value.0),
        };
        let ghost before = fields_of(output@);
        output.push(field);
        assert(fields_of(output@) =~= before.push(field@));
        assert(wanted[index as int] == fields@[index as int].field());
        index += 1;
    }
    assert(wanted.take(index as int) =~= wanted);
    TrailerBlock { fields: output, bytes_consumed }
}

fn is_lowercase_token(bytes: &[u8]) -> (valid: bool)
    ensures
        valid == !(bytes@.len() == 0 || !all_in(bytes@, ByteClass::Token) || any_in(
            bytes@,
            ByteClass::Upper,
        )),
{
    bytes.len() > 0 && all_bytes_in(bytes, ByteClass::Token) && !any_byte_in(
        bytes,
        ByteClass::Upper,
    )
}

} // verus!
