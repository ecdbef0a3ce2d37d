//! Hop-by-hop removal by a trie of nominated tokens.

use vstd::prelude::*;
use crate::bytes::{slices_of, split, split_on, trim_ows};
use crate::hop_by_hop::{
    connection, contributes, copy_field, invalid_connection, is_fixed, is_fixed_name,
    is_nomination, lemma_nominates_next, lemma_removed_names, member, nominated_name, nominates,
    rejected_at, removes, sanitized, survivors, valid_connection,
};
use crate::names::sorted_unique;
use crate::text::{same_text, utf8};
use crate::trie::Trie;
use crate::types::{
    FieldModel, HeaderBlock, HeaderField, Result, SanitizedHeaders, fields_of, invalid_header,
    outcome, texts_of,
};

verus! {

/// A set of tokens: the byte strings of the trie's terminal nodes.
pub struct TokenTrie {
    trie: Trie,
    terminal: Vec<bool>,
}

impl TokenTrie {
    pub closed spec fn well_formed(self) -> bool {
        self.trie.well_formed() && self.terminal@.len() == self.trie.size()
    }

    /// Whether a token is in the set.
    pub closed spec fn has(self, token: Seq<u8>) -> bool {
        exists|i: int|
            0 <= i < self.trie.size() && self.terminal@[i] && #[trigger] self.trie.path(i) == token
    }

    pub fn new() -> (tokens: Self)
        ensures
            tokens.well_formed(),
            forall|token: Seq<u8>| !#[trigger] tokens.has(token),
    {
        let mut terminal: Vec<bool> = Vec::new();
        terminal.push(false);
        TokenTrie { trie: Trie::new(), terminal }
    }

    /// Adds a token; says whether it is new.
    pub fn insert(&mut self, token: &[u8]) -> (added: bool)
        requires
            old(self).well_formed(),
        ensures
            final(self).well_formed(),
            added == !old(self).has(token@),
            forall|other: Seq<u8>|
                #[trigger] final(self).has(other) <==> old(self).has(other) || other == token@,
    {
        let ghost before = *self;
        let node: usize = self.trie.reach(token);
        self.fill();
        proof {
            assert(self.has(token@) ==> self.terminal@[node as int]) by {
                if self.has(token@) {
                    let i = choose|i: int|
                        0 <= i < self.trie.size() && self.terminal@[i] && #[trigger] self.trie.path(
                            i,
                        ) == token@;
                    self.trie.lemma_paths_distinct(i, node as int);
                }
            }
            assert forall|other: Seq<u8>| #[trigger] self.has(other) <==> before.has(other) by {
                if before.has(other) {
                    let i = choose|i: int|
                        0 <= i < before.trie.size() && before.terminal@[i]
                            && #[trigger] before.trie.path(i) == other;
                    assert(self.trie.path(i) == other);
                }
                if self.has(other) {
                    let i = choose|i: int|
                        0 <= i < self.trie.size() && self.terminal@[i] && #[trigger] self.trie.path(
                            i,
                        ) == other;
                    assert(before.trie.path(i) == other);
                }
            }
            if self.terminal@[node as int] {
                assert(self.trie.path(node as int) == token@);
            }
        }
        if self.terminal[node] {
            return false;
        }
        let ghost middle = *self;
        self.terminal.set(node, true);
        proof {
            assert forall|other: Seq<u8>| #[trigger] self.has(other) <==> before.has(other) || other
                == token@ by {
                assert(middle.has(other) <==> before.has(other));
                if middle.has(other) {
                    let i = choose|i: int|
                        0 <= i < middle.trie.size() && middle.terminal@[i]
                            && #[trigger] middle.trie.path(i) == other;
                    assert(self.trie.path(i) == other);
                }
                assert(self.trie.path(node as int) == token@);
                if self.has(other) && other != token@ {
                    let i = choose|i: int|
                        0 <= i < self.trie.size() && self.terminal@[i] && #[trigger] self.trie.path(
                            i,
                        ) == other;
                    assert(middle.trie.path(i) == other);
                }
            }
        }
        true
    }

    /// Gives every node without a mark the mark that it is not terminal.
    fn fill(&mut self)
        requires
            old(self).trie.well_formed(),
            old(self).terminal@.len() <= old(self).trie.size(),
        ensures
            final(self).trie == old(self).trie,
            final(self).well_formed(),
            forall|j: int|
                0 <= j < old(self).terminal@.len() ==> final(self).terminal@[j] == old(
                    self,
                ).terminal@[j],
            forall|j: int|
                old(self).terminal@.len() <= j < final(self).terminal@.len()
                    ==> !final(self).terminal@[j],
    {
        let size: usize = self.trie.node_count();
        while self.terminal.len() < size
            invariant
                self.trie == old(self).trie,
                size == self.trie.size(),
                self.terminal@.len() <= size,
                old(self).terminal@.len() <= self.terminal@.len(),
                forall|j: int|
                    0 <= j < old(self).terminal@.len() ==> self.terminal@[j] == old(
                        self,
                    ).terminal@[j],
                forall|j: int|
                    old(self).terminal@.len() <= j < self.terminal@.len() ==> !self.terminal@[j],
            decreases size - self.terminal@.len(),
        {
            self.terminal.push(false);
        }
    }

    /// Whether a token is in the set.
    pub fn contains(&self, token: &[u8]) -> (found: bool)
        requires
            self.well_formed(),
        ensures
            found == self.has(token@),
    {
        match self.trie.find(token) {
            Some(node) => {
                proof {
                    if self.has(token@) {
                        let i = choose|i: int|
                            0 <= i < self.trie.size() && self.terminal@[i]
                                && #[trigger] self.trie.path(i) == token@;
                        self.trie.lemma_paths_distinct(i, node as int);
                    }
                }
                self.terminal[node]
            },
            None => false,
        }
    }
}

/// The nominations of the first `upto` fields.
spec fn nominated(fields: Seq<FieldModel>, upto: int, name: Seq<u8>) -> bool {
    exists|i: int|
        0 <= i < upto && (#[trigger] fields[i]).name == connection() && nominates(
            fields[i].value,
            split(fields[i].value, ',' as u8).len() as int,
            name,
        )
}

/// Whether the trie and the list hold the same names.
spec fn in_step(names: TokenTrie, unique_names: Seq<String>) -> bool {
    &&& names.well_formed()
    &&& forall|name: Seq<u8>|
        #[trigger] names.has(name) <==> texts_of(unique_names).contains(name)
}

/// Appending a text appends its bytes.
proof fn lemma_push_name(names: Seq<String>, name: String)
    ensures
        forall|other: Seq<u8>|
            #[trigger] texts_of(names.push(name)).contains(other) <==> texts_of(names).contains(
                other,
            ) || other == utf8(name@),
{
    let before = texts_of(names);
    let after = texts_of(names.push(name));
    assert(after =~= before.push(utf8(name@)));
    assert forall|other: Seq<u8>| #[trigger] after.contains(other) <==> before.contains(other)
        || other == utf8(name@) by {
        if before.contains(other) {
            let j = choose|j: int| 0 <= j < before.len() && before[j] == other;
            assert(after[j] == other);
        }
        assert(after[before.len() as int] == utf8(name@));
    }
}

/// Adds what a Connection value nominates to the trie and the list.
fn collect_value(
    value: &[u8],
    field_index: usize,
    names: &mut TokenTrie,
    unique_names: &mut Vec<String>,
) -> (collected: Result<()>)
    requires
        in_step(*old(names), old(unique_names)@),
    ensures
        in_step(*final(names), final(unique_names)@),
        match collected {
            Ok(_) => valid_connection(value@) && forall|name: Seq<u8>|
                #[trigger] final(names).has(name) <==> old(names).has(name) || nominates(
                    value@,
                    split(value@, ',' as u8).len() as int,
                    name,
                ),
            Err(e) => !valid_connection(value@) && e@ == invalid_connection(field_index as int),
        },
{
    let members: Vec<&[u8]> = split_on(value, ',' as u8);
    let ghost pieces = split(value@, ',' as u8);
    let mut index: usize = 0;
    assert(slices_of(members@).len() == members@.len());
    while index < members.len()
        invariant
            index <= members@.len(),
            pieces == split(value@, ',' as u8),
            pieces == slices_of(members@),
            members@.len() == pieces.len(),
            in_step(*names, unique_names@),
            forall|j: int| 0 <= j < index ==> is_nomination(#[trigger] member(value@, j)),
            forall|name: Seq<u8>|
                #[trigger] names.has(name) <==> old(names).has(name) || nominates(
                    value@,
                    index as int,
                    name,
                ),
        decreases members@.len() - index,
    {
        let trimmed_member: &[u8] = trim_ows(members[index]);
        proof {
            assert(pieces[index as int] == members@[index as int]@);
            assert(trimmed_member@ == member(value@, index as int));
            lemma_nominates_next(value@, index as int);
        }
        match nominated_name(trimmed_member) {
            None => return Err(invalid_header(field_index, "invalid_connection_token")),
            Some(name) => {
                proof {
                    lemma_push_name(unique_names@, name);
                }
                if names.insert(name.as_str().as_bytes()) {
                    unique_names.push(name);
                }
            },
        }
        index += 1;
    }
    Ok(())
}

fn collect_nominations(headers: &HeaderBlock) -> (collected: Result<(TokenTrie, Vec<String>)>)
    ensures
        match collected {
            Ok((names, unique_names)) => {
                &&& rejected_at(headers@.fields, 0) is None
                &&& in_step(names, unique_names@)
                &&& forall|name: Seq<u8>|
                    #[trigger] names.has(name) <==> nominated(
                        headers@.fields,
                        headers@.fields.len() as int,
                        name,
                    )
            },
            Err(e) => rejected_at(headers@.fields, 0) matches Some(i) && e@ == invalid_connection(
                i,
            ),
        },
{
    let mut names = TokenTrie::new();
    let mut unique_names: Vec<String> = Vec::new();
    let mut index: usize = 0;
    let ghost models = headers@.fields;
    while index < headers.fields.len()
        invariant
            index <= headers.fields@.len(),
            models == fields_of(headers.fields@),
            rejected_at(models, 0) == rejected_at(models, index as int),
            in_step(names, unique_names@),
            forall|name: Seq<u8>|
                #[trigger] names.has(name) <==> nominated(models, index as int, name),
        decreases headers.fields@.len() - index,
    {
        let field: &HeaderField = &headers.fields[index];
        proof {
            assert(models[index as int] == field@);
            assert forall|name: Seq<u8>| #[trigger] nominated(models, index + 1, name)
                <==> nominated(models, index as int, name) || (field@.name == connection()
                && nominates(
                field@.value,
                split(field@.value, ',' as u8).len() as int,
                name,
            )) by {
                if nominated(models, index as int, name) {
                    let i = choose|i: int|
                        0 <= i < index && (#[trigger] models[i]).name == connection() && nominates(
                            models[i].value,
                            split(models[i].value, ',' as u8).len() as int,
                            name,
                        );
                    assert(models[i].name == connection());
                }
                assert(models[index as int] == field@);
            }
        }
        if same_text(field.name.as_str(), "connection") {
            collect_value(field.value.as_slice(), index, &mut names, &mut unique_names)?;
        }
        index += 1;
    }
    Ok((names, unique_names))
}

/// Whether one of the first `upto` fields has the name, and the name is fixed.
spec fn has_fixed(fields: Seq<FieldModel>, upto: int, name: Seq<u8>) -> bool {
    is_fixed(name) && exists|i: int| 0 <= i < upto && (#[trigger] fields[i]).name == name
}

proof fn lemma_removes(fields: Seq<FieldModel>, name: Seq<u8>)
    ensures
        removes(fields, fields.len() as int, name) <==> has_fixed(fields, fields.len() as int, name)
            || nominated(fields, fields.len() as int, name),
{
    let n = fields.len() as int;
    if removes(fields, n, name) {
        let i = choose|i: int| 0 <= i < n && contributes(#[trigger] fields[i], name);
        assert(fields[i].name == name || fields[i].name == connection());
    }
    if has_fixed(fields, n, name) {
        let i = choose|i: int| 0 <= i < n && (#[trigger] fields[i]).name == name;
        assert(contributes(fields[i], name));
    }
    if nominated(fields, n, name) {
        let i = choose|i: int|
            0 <= i < n && (#[trigger] fields[i]).name == connection() && nominates(
                fields[i].value,
                split(fields[i].value, ',' as u8).len() as int,
                name,
            );
        assert(contributes(fields[i], name));
    }
}

/// Remove fixed hop-by-hop fields and the fields whose names the nominations hold.
pub fn remove_hop_by_hop_headers(headers: &HeaderBlock) -> (result: Result<SanitizedHeaders>)
    ensures
        outcome(result) == sanitized(headers@.fields),
{
    let (nominations, mut removed_names) = collect_nominations(headers)?;
    let mut fields: Vec<HeaderField> = Vec::new();
    let mut index: usize = 0;
    let ghost models = headers@.fields;
    let ghost n = models.len() as int;
    assert forall|name: Seq<u8>| #[trigger] texts_of(removed_names@).contains(name) <==> nominated(
        models,
        n,
        name,
    ) by {
        assert(nominations.has(name) <==> texts_of(removed_names@).contains(name));
    }
    while index < headers.fields.len()
        invariant
            index <= headers.fields@.len(),
            models == fields_of(headers.fields@),
            n == models.len(),
            nominations.well_formed(),
            forall|name: Seq<u8>| #[trigger] nominations.has(name) <==> nominated(models, n, name),
            forall|name: Seq<u8>|
                #[trigger] texts_of(removed_names@).contains(name) <==> nominated(models, n, name)
                    || has_fixed(models, index as int, name),
            fields_of(fields@) =~= survivors(models, index as int),
        decreases headers.fields@.len() - index,
    {
        let field: &HeaderField = &headers.fields[index];
        let fixed: bool = is_fixed_name(field.name.as_str());
        let also_nominated: bool = nominations.contains(field.name.as_str().as_bytes());
        proof {
            assert(models[index as int] == field@);
            assert(has_fixed(models, n, field@.name) <==> is_fixed(field@.name));
            lemma_removes(models, field@.name);
            lemma_push_name(removed_names@, field.name);
            assert forall|name: Seq<u8>| #[trigger] has_fixed(models, index + 1, name)
                <==> has_fixed(models, index as int, name) || (is_fixed(name) && field@.name
                == name) by {
                if has_fixed(models, index as int, name) {
                    let i = choose|i: int| 0 <= i < index && (#[trigger] models[i]).name == name;
                    assert(models[i].name == name);
                }
                assert(models[index as int] == field@);
            }
        }
        if !fixed && !also_nominated {
            let ghost before = fields_of(fields@);
            fields.push(copy_field(field));
            assert(fields_of(fields@) =~= before.push(field@));
        } else if fixed {
            let name: String = field.name.clone();
            proof {
                lemma_push_name(removed_names@, name);
            }
            removed_names.push(name);
        }
        index += 1;
    }
    let removed_names: Vec<String> = sorted_unique(removed_names);
    proof {
        let listed = texts_of(removed_names@);
        assert forall|name: Seq<u8>| #[trigger] listed.contains(name) <==> removes(
            models,
            n,
            name,
        ) by {
            lemma_removes(models, name);
        }
        lemma_removed_names(models, listed);
    }
    Ok(SanitizedHeaders { fields, removed_names })
}

} // verus!
