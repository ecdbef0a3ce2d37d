//! Hop-by-hop removal by a sorted plan of names.

use vstd::prelude::*;
use crate::bytes::{
    ByteClass, all_bytes_in, comes_before, lemma_precedes_irreflexive, lemma_precedes_transitive,
    lower_bytes, lowered, precedes, slices_of, split, split_on, trim_ows, trimmed,
};
use crate::hop_by_hop::{
    connection, contributes, copy_field, invalid_connection, is_fixed, is_nomination,
    lemma_nominates_next, lemma_removed_names, lists_removed, member, nominates, rejected_at,
    removes, sanitized, survivors, valid_connection,
};
use crate::names::{sorted_unique, strictly_sorted};
use crate::text::{ascii_text, same_text, utf8};
use crate::types::{
    FieldModel, HeaderBlock, HeaderField, Result, SanitizedHeaders, fields_of, invalid_header,
    outcome, texts_of,
};

verus! {

#[derive(Clone, Copy, PartialEq, Eq, Structural)]
enum HeaderAction {
    Remove,
    RemoveAndNominate,
}

#[derive(Clone, Copy)]
struct HeaderRule {
    name: &'static str,
    action: HeaderAction,
}

enum ConnectionMember<'a> {
    Token(&'a [u8]),
    Empty,
    Invalid,
}

impl<'a> ConnectionMember<'a> {
    fn classify(raw: &'a [u8]) -> (classified: Self)
        ensures
            match classified {
                ConnectionMember::Token(token) => token@ == trimmed(raw@) && is_nomination(token@),
                ConnectionMember::Empty => trimmed(raw@).len() == 0,
                ConnectionMember::Invalid => trimmed(raw@).len() > 0 && !is_nomination(
                    trimmed(raw@),
                ),
            },
    {
        let token: &'a [u8] = trim_ows(raw);
        if token.len() == 0 {
            ConnectionMember::Empty
        } else if all_bytes_in(token, ByteClass::Token) {
            ConnectionMember::Token(token)
        } else {
            ConnectionMember::Invalid
        }
    }
}

struct RemovalPlan {
    sorted_names: Vec<String>,
}

/// What a list of names holds of the names that fields cause to be removed: the fixed names of
/// all fields, and the nominations of the first `upto`.
spec fn gathers(names: Seq<Seq<u8>>, fields: Seq<FieldModel>, fixed: int, upto: int) -> bool {
    forall|name: Seq<u8>|
        #[trigger] names.contains(name) <==> has_fixed(fields, fixed, name) || has_nomination(
            fields,
            upto,
            name,
        )
}

/// Whether one of the first `upto` fields has the name, and the name is fixed.
spec fn has_fixed(fields: Seq<FieldModel>, upto: int, name: Seq<u8>) -> bool {
    is_fixed(name) && exists|i: int| 0 <= i < upto && (#[trigger] fields[i]).name == name
}

/// Whether one of the first `upto` fields nominates the name.
spec fn has_nomination(fields: Seq<FieldModel>, upto: int, name: Seq<u8>) -> bool {
    exists|i: int|
        0 <= i < upto && (#[trigger] fields[i]).name == connection() && nominates(
            fields[i].value,
            split(fields[i].value, ',' as u8).len() as int,
            name,
        )
}

proof fn lemma_gathers_all(fields: Seq<FieldModel>, name: Seq<u8>)
    ensures
        removes(fields, fields.len() as int, name) <==> has_fixed(fields, fields.len() as int, name)
            || has_nomination(fields, fields.len() as int, name),
{
    let n = fields.len() as int;
    if removes(fields, n, name) {
        let i = choose|i: int| 0 <= i < n && contributes(#[trigger] fields[i], name);
        assert(fields[i].name == name || fields[i].name == connection());
    }
    if has_fixed(fields, n, name) {
        let i = choose|i: int| 0 <= i < n && (#[trigger] fields[i]).name == name;
        assert(contributes(fields[i], name));
    }
    if has_nomination(fields, n, name) {
        let i = choose|i: int|
            0 <= i < n && (#[trigger] fields[i]).name == connection() && nominates(
                fields[i].value,
                split(fields[i].value, ',' as u8).len() as int,
                name,
            );
        assert(contributes(fields[i], name));
    }
}

/// Appending a text appends its bytes.
proof fn lemma_push_name(names: Seq<String>, name: String)
    ensures
        texts_of(names.push(name)) == texts_of(names).push(utf8(name@)),
        forall|other: Seq<u8>|
            #[trigger] texts_of(names.push(name)).contains(other) <==> texts_of(names).contains(
                other,
            ) || other == utf8(name@),
{
    let before = texts_of(names);
    let after = texts_of(names.push(name));
    assert(after =~= before.push(utf8(name@)));
    assert forall|other: Seq<u8>| #[trigger] after.contains(other) <==> before.contains(other)
        || other == utf8(name@) by {
        if before.contains(other) {
            let j = choose|j: int| 0 <= j < before.len() && before[j] == other;
            assert(after[j] == other);
        }
        assert(after[before.len() as int] == utf8(name@));
    }
}

impl RemovalPlan {
    fn compile(headers: &HeaderBlock) -> (compiled: Result<Self>)
        ensures
            match compiled {
                Ok(plan) => rejected_at(headers@.fields, 0) is None && lists_removed(
                    headers@.fields,
                    texts_of(plan.sorted_names@),
                ),
                Err(e) => rejected_at(headers@.fields, 0) matches Some(i) && e@
                    == invalid_connection(i),
            },
    {
        let mut names: Vec<String> = fixed_names(headers);
        let mut index: usize = 0;
        let ghost models = headers@.fields;
        let ghost n = models.len() as int;
        while index < headers.fields.len()
            invariant
                index <= headers.fields@.len(),
                models == fields_of(headers.fields@),
                n == models.len(),
                rejected_at(models, 0) == rejected_at(models, index as int),
                gathers(texts_of(names@), models, n, index as int),
            decreases headers.fields@.len() - index,
        {
            let field: &HeaderField = &headers.fields[index];
            assert(models[index as int] == field@);
            let nominates_others: bool = match rule_for(field.name.as_str()) {
                Some(rule) => matches!(rule.action, HeaderAction::RemoveAndNominate),
                None => false,
            };
            if nominates_others {
                let ghost before = texts_of(names@);
                add_nominations(field.value.as_slice(), index, &mut names)?;
            }
            proof {
                assert forall|name: Seq<u8>| #[trigger] has_nomination(
                    models,
                    index + 1,
                    name,
                ) <==> has_nomination(models, index as int, name) || (field@.name == connection()
                    && nominates(
                    field@.value,
                    split(field@.value, ',' as u8).len() as int,
                    name,
                )) by {
                    if has_nomination(models, index as int, name) {
                        let i = choose|i: int|
                            0 <= i < index && (#[trigger] models[i]).name == connection()
                                && nominates(
                                models[i].value,
                                split(models[i].value, ',' as u8).len() as int,
                                name,
                            );
                        assert(models[i].name == connection());
                    }
                    assert(models[index as int] == field@);
                }
            }
            index += 1;
        }
        proof {
            assert forall|name: Seq<u8>| #[trigger] texts_of(names@).contains(name) <==> removes(
                models,
                n,
                name,
            ) by {
                lemma_gathers_all(models, name);
            }
        }
        Ok(RemovalPlan { sorted_names: sorted_unique(names) })
    }

    /// Whether the plan removes fields with the name, by binary search.
    fn removes(&self, name: &str) -> (removed: bool)
        requires
            strictly_sorted(texts_of(self.sorted_names@)),
        ensures
            removed == texts_of(self.sorted_names@).contains(utf8(name@)),
    {
        let mut low: usize = 0;
        let mut high: usize = self.sorted_names.len();
        let ghost listed = texts_of(self.sorted_names@);
        let ghost key = utf8(name@);
        while low < high
            invariant
                low <= high <= listed.len(),
                listed == texts_of(self.sorted_names@),
                strictly_sorted(listed),
                key == utf8(name@),
                forall|j: int| 0 <= j < low ==> #[trigger] listed[j] != key,
                forall|j: int| high <= j < listed.len() ==> #[trigger] listed[j] != key,
            decreases high - low,
        {
            let middle: usize = low + (high - low) / 2;
            let candidate: &str = self.sorted_names[middle].as_str();
            let ghost mid = listed[middle as int];
            assert(mid == utf8(candidate@));
            if same_text(candidate, name) {
                return true;
            }
            if comes_before(candidate.as_bytes(), name.as_bytes()) {
                proof {
                    assert forall|j: int| 0 <= j < middle + 1 implies #[trigger] listed[j]
                        != key by {
                        if j < middle && listed[j] == key {
                            lemma_precedes_transitive(key, mid, key, 0);
                            lemma_precedes_irreflexive(key, 0);
                        }
                    }
                }
                low = middle + 1;
            } else {
                proof {
                    assert forall|j: int| middle <= j < listed.len() implies #[trigger] listed[j]
                        != key by {
                        if j > middle && listed[j] == key {
                            assert(precedes(mid, key));
                        }
                    }
                }
                high = middle;
            }
        }
        false
    }
}

/// The fixed hop-by-hop names that occur, once for each field.
fn fixed_names(headers: &HeaderBlock) -> (names: Vec<String>)
    ensures
        gathers(texts_of(names@), headers@.fields, headers@.fields.len() as int, 0),
{
    let mut names: Vec<String> = Vec::new();
    let mut index: usize = 0;
    let ghost models = headers@.fields;
    while index < headers.fields.len()
        invariant
            index <= headers.fields@.len(),
            models == fields_of(headers.fields@),
            gathers(texts_of(names@), models, index as int, 0),
        decreases headers.fields@.len() - index,
    {
        let field: &HeaderField = &headers.fields[index];
        let ghost before = names@;
        assert(models[index as int] == field@);
        match rule_for(field.name.as_str()) {
            Some(rule) => {
                let name: String = rule.name.to_owned();
                proof {
                    lemma_push_name(names@, name);
                }
                names.push(name);
            },
            None => {},
        }
        proof {
            assert forall|name: Seq<u8>| #[trigger] has_fixed(models, index + 1, name)
                <==> has_fixed(models, index as int, name) || (is_fixed(name) && field@.name
                == name) by {
                if has_fixed(models, index as int, name) {
                    let i = choose|i: int| 0 <= i < index && (#[trigger] models[i]).name == name;
                    assert(models[i].name == name);
                }
                assert(models[index as int] == field@);
            }
        }
        index += 1;
    }
    names
}

/// Appends what a Connection value nominates.
fn add_nominations(value: &[u8], field_index: usize, names: &mut Vec<String>) -> (added: Result<()>)
    ensures
        match added {
            Ok(_) => valid_connection(value@) && forall|name: Seq<u8>|
                #[trigger] texts_of(final(names)@).contains(name) <==> texts_of(
                    old(names)@,
                ).contains(name) || nominates(
                    value@,
                    split(value@, ',' as u8).len() as int,
                    name,
                ),
            Err(e) => !valid_connection(value@) && e@ == invalid_connection(field_index as int),
        },
{
    let members: Vec<&[u8]> = split_on(value, ',' as u8);
    let ghost pieces = split(value@, ',' as u8);
    let mut index: usize = 0;
    assert(slices_of(members@).len() == members@.len());
    while index < members.len()
        invariant
            index <= members@.len(),
            pieces == split(value@, ',' as u8),
            pieces == slices_of(members@),
            members@.len() == pieces.len(),
            forall|j: int| 0 <= j < index ==> is_nomination(#[trigger] member(value@, j)),
            forall|name: Seq<u8>|
                #[trigger] texts_of(names@).contains(name) <==> texts_of(old(names)@).contains(name)
                    || nominates(value@, index as int, name),
        decreases members@.len() - index,
    {
        proof {
            assert(pieces[index as int] == members@[index as int]@);
            lemma_nominates_next(value@, index as int);
            assert(member(value@, index as int) == trimmed(members@[index as int]@));
        }
        match ConnectionMember::classify(members[index]) {
            ConnectionMember::Token(token) => {
                let name: String = lowercase_ascii(token);
                proof {
                    lemma_push_name(names@, name);
                }
                names.push(name);
            },
            ConnectionMember::Empty | ConnectionMember::Invalid => {
                return Err(invalid_header(field_index, "invalid_connection_token"));
            },
        }
        index += 1;
    }
    Ok(())
}

/// Compile all fixed and `Connection`-nominated names into a sorted removal
/// plan, then retain end-to-end headers without changing their representation.
pub fn remove_hop_by_hop_headers(headers: &HeaderBlock) -> (result: Result<SanitizedHeaders>)
    ensures
        outcome(result) == sanitized(headers@.fields),
{
    let plan = RemovalPlan::compile(headers)?;
    let mut fields: Vec<HeaderField> = Vec::new();
    let mut index: usize = 0;
    let ghost models = headers@.fields;
    while index < headers.fields.len()
        invariant
            index <= headers.fields@.len(),
            models == fields_of(headers.fields@),
            lists_removed(models, texts_of(plan.sorted_names@)),
            fields_of(fields@) =~= survivors(models, index as int),
        decreases headers.fields@.len() - index,
    {
        let field: &HeaderField = &headers.fields[index];
        assert(models[index as int] == field@);
        if !plan.removes(field.name.as_str()) {
            let ghost before = fields_of(fields@);
            fields.push(copy_field(field));
            assert(fields_of(fields@) =~= before.push(field@));
        }
        index += 1;
    }
    proof {
        lemma_removed_names(models, texts_of(plan.sorted_names@));
    }
    Ok(SanitizedHeaders { fields, removed_names: plan.sorted_names })
}

fn rule_for(name: &str) -> (rule: Option<HeaderRule>)
    ensures
        rule is Some <==> is_fixed(utf8(name@)),
        rule matches Some(r) ==> utf8(r.name@) == utf8(name@) && (r.action is RemoveAndNominate
            <==> utf8(name@) == connection()),
{
    if same_text(name, "connection") {
        return Some(HeaderRule { name: "connection", action: HeaderAction::RemoveAndNominate });
    }
    let fixed: &'static str = if same_text(name, "proxy-connection") {
        "proxy-connection"
    } else if same_text(name, "keep-alive") {
        "keep-alive"
    } else if same_text(name, "transfer-encoding") {
        "transfer-encoding"
    } else if same_text(name, "te") {
        "te"
    } else if same_text(name, "trailer") {
        "trailer"
    } else if same_text(name, "upgrade") {
        "upgrade"
    } else if same_text(name, "proxy-authenticate") {
        "proxy-authenticate"
    } else if same_text(name, "proxy-authorization") {
        "proxy-authorization"
    } else {
        return None;
    };
    Some(HeaderRule { name: fixed, action: HeaderAction::Remove })
}

fn lowercase_ascii(token: &[u8]) -> (text: String)
    requires
        is_nomination(token@),
    ensures
        utf8(text@) == lowered(token@),
{
    let canonical: Vec<u8> = lower_bytes(token);
    proof {
        assert(forall|i: int|
            0 <= i < token@.len() ==> ByteClass::Token.has(#[trigger] token@[i]));
    }
    ascii_text(canonical.as_slice())
}

} // verus!
