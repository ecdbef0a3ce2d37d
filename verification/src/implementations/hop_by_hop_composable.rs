//! Hop-by-hop removal from composed scanning steps.

use vstd::prelude::*;
use crate::bytes::{
    ByteClass, find_from, first_in, is_ows, lemma_first_from_skip, lemma_trimmed, split, trimmed,
};
use crate::hop_by_hop::{
    copy_field, invalid_connection, is_fixed_name, is_nomination, lemma_nominates_next,
    lemma_removed_names, lemma_removes_next, lists_removed, member, nominated_name, nominates,
    rejected_at, removes, sanitized, survivors, valid_connection,
};
use crate::names::NameSet;
use crate::text::same_text;
use crate::types::{
    HeaderBlock, HeaderField, Result, SanitizedHeaders, fields_of, invalid_header, outcome,
};

verus! {

/// Remove fixed and Connection-nominated hop-by-hop fields while retaining the
/// exact order and representation of end-to-end fields.
pub fn remove_hop_by_hop_headers(headers: &HeaderBlock) -> (result: Result<SanitizedHeaders>)
    ensures
        outcome(result) == sanitized(headers@.fields),
{
    let removals = discover_removals(headers)?;
    let fields: Vec<HeaderField> = copy_survivors(&headers.fields, &removals);
    proof {
        lemma_removed_names(headers@.fields, removals.listed());
    }
    let removed_names: Vec<String> = removals.into_names();
    Ok(SanitizedHeaders { fields, removed_names })
}

fn discover_removals(headers: &HeaderBlock) -> (discovered: Result<NameSet>)
    ensures
        match discovered {
            Ok(set) => {
                &&& rejected_at(headers@.fields, 0) is None
                &&& set.well_formed()
                &&& lists_removed(headers@.fields, set.listed())
            },
            Err(e) => rejected_at(headers@.fields, 0) matches Some(i) && e@ == invalid_connection(
                i,
            ),
        },
{
    let mut removals = NameSet::new();
    let mut index: usize = 0;
    let ghost models = headers@.fields;
    while index < headers.fields.len()
        invariant
            index <= headers.fields@.len(),
            models == fields_of(headers.fields@),
            removals.well_formed(),
            rejected_at(models, 0) == rejected_at(models, index as int),
            forall|name: Seq<u8>|
                #[trigger] removals.has(name) <==> removes(models, index as int, name),
        decreases headers.fields@.len() - index,
    {
        let field: &HeaderField = &headers.fields[index];
        assert(models[index as int] == field@);
        proof {
            lemma_removes_next(models, index as int);
        }
        if is_fixed_name(field.name.as_str()) {
            removals.insert(field.name.clone());
        }
        if same_text(field.name.as_str(), "connection") {
            add_connection_value(field.value.as_slice(), index, &mut removals)?;
        }
        index += 1;
    }
    proof {
        assert forall|name: Seq<u8>| #[trigger] removals.listed().contains(name) <==> removes(
            models,
            models.len() as int,
            name,
        ) by {
            assert(removals.has(name) <==> removes(models, index as int, name));
        }
    }
    Ok(removals)
}

fn add_connection_value(value: &[u8], field_index: usize, removals: &mut NameSet) -> (added: Result<
    (),
>)
    requires
        old(removals).well_formed(),
    ensures
        final(removals).well_formed(),
        match added {
            Ok(_) => valid_connection(value@) && forall|name: Seq<u8>|
                #[trigger] final(removals).has(name) <==> old(removals).has(name) || nominates(
                    value@,
                    split(value@, ',' as u8).len() as int,
                    name,
                ),
            Err(e) => !valid_connection(value@) && e@ == invalid_connection(field_index as int),
        },
{
    let mut member_start: usize = 0;
    let ghost pieces = split(value@, ',' as u8);
    let ghost mut seen: int = 0;
    assert(value@.skip(0) =~= value@);
    assert(pieces.skip(0) =~= pieces);
    loop
        invariant
            member_start <= value@.len(),
            pieces == split(value@, ',' as u8),
            0 <= seen < pieces.len(),
            pieces.skip(seen) == split(value@.skip(member_start as int), ',' as u8),
            removals.well_formed(),
            forall|j: int| 0 <= j < seen ==> is_nomination(#[trigger] member(value@, j)),
            forall|name: Seq<u8>|
                #[trigger] removals.has(name) <==> old(removals).has(name) || nominates(
                    value@,
                    seen,
                    name,
                ),
        decreases value@.len() - member_start,
    {
        let member_end: usize = find_from(value, ByteClass::Only(',' as u8), member_start);
        proof {
            let rest = value@.skip(member_start as int);
            lemma_first_from_skip(value@, ByteClass::Only(',' as u8), member_start as int);
            let i = first_in(rest, ByteClass::Only(',' as u8));
            assert(rest.take(i) =~= value@.subrange(member_start as int, member_end as int));
            assert(pieces.skip(seen)[0] == pieces[seen]);
            if member_end < value@.len() {
                assert(rest.skip(i + 1) =~= value@.skip(member_end + 1));
                assert(pieces.skip(seen + 1) =~= pieces.skip(seen).skip(1));
                assert(split(rest, ',' as u8).skip(1) =~= split(rest.skip(i + 1), ',' as u8));
                assert(split(rest.skip(i + 1), ',' as u8).len() > 0);
            } else {
                assert(rest =~= value@.subrange(member_start as int, member_end as int));
                assert(pieces.skip(seen).len() == 1);
            }
            lemma_nominates_next(value@, seen);
        }
        let candidate: &[u8] = strip_optional_whitespace(&value[member_start..member_end]);
        assert(candidate@ == member(value@, seen));
        match nominated_name(candidate) {
            None => return Err(invalid_header(field_index, "invalid_connection_token")),
            Some(name) => removals.insert(name),
        }
        proof {
            seen = seen + 1;
        }
        if member_end == value.len() {
            return Ok(());
        }
        member_start = member_end + 1;
    }
}

fn strip_optional_whitespace<'a>(candidate: &'a [u8]) -> (stripped: &'a [u8])
    ensures
        stripped@ == trimmed(candidate@),
{
    let mut start: usize = 0;
    while start < candidate.len() && is_ows(candidate[start])
        invariant
            start <= candidate@.len(),
            forall|j: int| 0 <= j < start ==> is_ows(#[trigger] candidate@[j]),
        decreases candidate@.len() - start,
    {
        start += 1;
    }
    let mut end: usize = candidate.len();
    while end > start && is_ows(candidate[end - 1])
        invariant
            start <= end <= candidate@.len(),
            forall|j: int| end <= j < candidate@.len() ==> is_ows(#[trigger] candidate@[j]),
        decreases end,
    {
        end -= 1;
    }
    proof {
        assert(start == end && start < candidate@.len() ==> is_ows(candidate@[end as int]));
        lemma_trimmed(candidate@, start as int, end as int);
    }
    &candidate[start..end]
}

fn copy_survivors(fields: &Vec<HeaderField>, removals: &NameSet) -> (kept: Vec<HeaderField>)
    requires
        removals.well_formed(),
        lists_removed(fields_of(fields@), removals.listed()),
    ensures
        fields_of(kept@) == survivors(fields_of(fields@), fields@.len() as int),
{
    let mut kept: Vec<HeaderField> = Vec::new();
    let mut index: usize = 0;
    let ghost models = fields_of(fields@);
    while index < fields.len()
        invariant
            index <= fields@.len(),
            models == fields_of(fields@),
            removals.well_formed(),
            lists_removed(models, removals.listed()),
            fields_of(kept@) =~= survivors(models, index as int),
        decreases fields@.len() - index,
    {
        let field: &HeaderField = &fields[index];
        assert(models[index as int] == field@);
        if !removals.contains(field.name.as_str()) {
            let ghost before = fields_of(kept@);
            kept.push(copy_field(field));
            assert(fields_of(kept@) =~= before.push(field@));
        }
        index += 1;
    }
    kept
}

} // verus!
