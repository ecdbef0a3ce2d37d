//! Hop-by-hop removal by a table of field policies.

use vstd::prelude::*;
use crate::bytes::{slices_of, split, split_on, trim_ows};
use crate::hop_by_hop::{
    connection, copy_field, invalid_connection, is_fixed, is_nomination, lemma_nominates_next,
    lemma_removed_names, lemma_removes_next, member, nominated_name, nominates, rejected_at,
    removes, sanitized, survivors, valid_connection,
};
use crate::names::NameSet;
use crate::text::{same_text, utf8};
use crate::types::{
    FieldModel, HeaderBlock, HeaderField, Result, SanitizedHeaders, fields_of, invalid_header,
    outcome,
};

verus! {

#[derive(Clone, Copy, PartialEq, Eq, Structural)]
enum FieldPolicy {
    ConnectionList,
    AlwaysRemove,
}

struct RemovalPlan {
    names: NameSet,
}

impl RemovalPlan {
    /// Whether the plan holds the names that the first `upto` fields cause to be removed.
    spec fn covers(self, fields: Seq<FieldModel>, upto: int) -> bool {
        &&& self.names.well_formed()
        &&& forall|name: Seq<u8>|
            #[trigger] self.names.has(name) <==> removes(fields, upto, name)
    }

    fn from_headers(headers: &HeaderBlock) -> (planned: Result<Self>)
        ensures
            match planned {
                Ok(plan) => rejected_at(headers@.fields, 0) is None && plan.covers(
                    headers@.fields,
                    headers@.fields.len() as int,
                ),
                Err(e) => rejected_at(headers@.fields, 0) matches Some(i) && e@
                    == invalid_connection(i),
            },
    {
        let mut plan = RemovalPlan { names: NameSet::new() };
        let mut index: usize = 0;
        let ghost models = headers@.fields;
        while index < headers.fields.len()
            invariant
                index <= headers.fields@.len(),
                models == fields_of(headers.fields@),
                rejected_at(models, 0) == rejected_at(models, index as int),
                plan.covers(models, index as int),
            decreases headers.fields@.len() - index,
        {
            let field: &HeaderField = &headers.fields[index];
            assert(models[index as int] == field@);
            proof {
                lemma_removes_next(models, index as int);
            }
            match field_policy(field.name.as_str()) {
                Some(FieldPolicy::ConnectionList) => {
                    plan.names.insert(field.name.clone());
                    add_connection_nominations(&mut plan.names, field.value.as_slice(), index)?;
                },
                Some(FieldPolicy::AlwaysRemove) => {
                    plan.names.insert(field.name.clone());
                },
                None => {},
            }
            index += 1;
        }
        Ok(plan)
    }

    fn removes(&self, field: &HeaderField) -> (removed: bool)
        requires
            self.names.well_formed(),
        ensures
            removed == self.names.has(field@.name),
    {
        self.names.contains(field.name.as_str())
    }
}

/// Remove connection-specific metadata according to the fixed field rule table and
/// the complete set of names nominated by every Connection field.
pub fn remove_hop_by_hop_headers(headers: &HeaderBlock) -> (result: Result<SanitizedHeaders>)
    ensures
        outcome(result) == sanitized(headers@.fields),
{
    let plan = RemovalPlan::from_headers(headers)?;
    let mut fields: Vec<HeaderField> = Vec::new();
    let mut index: usize = 0;
    let ghost models = headers@.fields;
    while index < headers.fields.len()
        invariant
            index <= headers.fields@.len(),
            models == fields_of(headers.fields@),
            plan.covers(models, models.len() as int),
            fields_of(fields@) =~= survivors(models, index as int),
        decreases headers.fields@.len() - index,
    {
        let field: &HeaderField = &headers.fields[index];
        assert(models[index as int] == field@);
        if !plan.removes(field) {
            let ghost before = fields_of(fields@);
            fields.push(copy_field(field));
            assert(fields_of(fields@) =~= before.push(field@));
        }
        index += 1;
    }
    proof {
        let listed = plan.names.listed();
        assert forall|name: Seq<u8>| #[trigger] listed.contains(name) <==> removes(
            models,
            models.len() as int,
            name,
        ) by {
            assert(plan.names.has(name) == listed.contains(name));
        }
        lemma_removed_names(models, listed);
    }
    Ok(SanitizedHeaders { fields, removed_names: plan.names.into_names() })
}

fn field_policy(name: &str) -> (policy: Option<FieldPolicy>)
    ensures
        policy is Some <==> is_fixed(utf8(name@)),
        policy == Some(FieldPolicy::ConnectionList) <==> utf8(name@) == connection(),
{
    if same_text(name, "connection") {
        Some(FieldPolicy::ConnectionList)
    } else if same_text(name, "proxy-connection") || same_text(name, "keep-alive") || same_text(
        name,
        "transfer-encoding",
    ) || same_text(name, "te") || same_text(name, "trailer") || same_text(name, "upgrade")
        || same_text(name, "proxy-authenticate") || same_text(name, "proxy-authorization") {
        Some(FieldPolicy::AlwaysRemove)
    } else {
        None
    }
}

fn add_connection_nominations(names: &mut NameSet, value: &[u8], field_index: usize) -> (added:
    Result<()>)
    requires
        old(names).well_formed(),
    ensures
        final(names).well_formed(),
        match added {
            Ok(_) => valid_connection(value@) && forall|name: Seq<u8>|
                #[trigger] final(names).has(name) <==> old(names).has(name) || nominates(
                    value@,
                    split(value@, ',' as u8).len() as int,
                    name,
                ),
            Err(e) => !valid_connection(value@) && e@ == invalid_connection(field_index as int),
        },
{
    let members: Vec<&[u8]> = split_on(value, ',' as u8);
    let ghost pieces = split(value@, ',' as u8);
    let mut index: usize = 0;
    assert(slices_of(members@).len() == members@.len());
    while index < members.len()
        invariant
            index <= members@.len(),
            pieces == split(value@, ',' as u8),
            pieces == slices_of(members@),
            members@.len() == pieces.len(),
            names.well_formed(),
            forall|j: int| 0 <= j < index ==> is_nomination(#[trigger] member(value@, j)),
            forall|name: Seq<u8>|
                #[trigger] names.has(name) <==> old(names).has(name) || nominates(
                    value@,
                    index as int,
                    name,
                ),
        decreases members@.len() - index,
    {
        let trimmed_member: &[u8] = trim_ows(members[index]);
        proof {
            assert(pieces[index as int] == members@[index as int]@);
            assert(trimmed_member@ == member(value@, index as int));
            lemma_nominates_next(value@, index as int);
        }
        match nominated_name(trimmed_member) {
            Some(name) => names.insert(name),
            None => return Err(invalid_header(field_index, "invalid_connection_token")),
        }
        index += 1;
    }
    Ok(())
}

} // verus!
