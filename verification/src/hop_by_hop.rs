//! Removing hop-by-hop header fields.

use vstd::prelude::*;
use crate::bytes::{
    ByteClass, all_bytes_in, all_in, lemma_precedes_total, lemma_precedes_transitive, lower_bytes,
    lowered, precedes, split, trimmed,
};
use crate::names::{lemma_sorted_unique, strictly_sorted};
use crate::text::{ascii_text, is_ascii, same_text, utf8};
use crate::types::{Fault, FieldModel, HeaderField, SanitizedModel, Verdict};

verus! {

pub open spec fn connection() -> Seq<u8> {
    utf8("connection"@)
}

/// Whether a name is always hop-by-hop.
pub open spec fn is_fixed(name: Seq<u8>) -> bool {
    ||| name == utf8("connection"@)
    ||| name == utf8("proxy-connection"@)
    ||| name == utf8("keep-alive"@)
    ||| name == utf8("transfer-encoding"@)
    ||| name == utf8("te"@)
    ||| name == utf8("trailer"@)
    ||| name == utf8("upgrade"@)
    ||| name == utf8("proxy-authenticate"@)
    ||| name == utf8("proxy-authorization"@)
}

/// A member of a Connection value that nominates a field: a token.
pub open spec fn is_nomination(member: Seq<u8>) -> bool {
    member.len() > 0 && all_in(member, ByteClass::Token)
}

/// The members of a Connection value.
pub open spec fn member(value: Seq<u8>, j: int) -> Seq<u8> {
    trimmed(split(value, ',' as u8)[j])
}

/// Whether every member of a Connection value nominates a field.
pub open spec fn valid_connection(value: Seq<u8>) -> bool {
    forall|j: int|
        0 <= j < split(value, ',' as u8).len() ==> is_nomination(#[trigger] member(value, j))
}

/// Whether one of the first `upto` members of a Connection value nominates a name. Names are
/// nominated in lower case.
pub open spec fn nominates(value: Seq<u8>, upto: int, name: Seq<u8>) -> bool {
    exists|j: int| 0 <= j < upto && lowered(#[trigger] member(value, j)) == name
}

/// Whether a field causes a name to be removed.
pub open spec fn contributes(field: FieldModel, name: Seq<u8>) -> bool {
    ||| is_fixed(field.name) && field.name == name
    ||| field.name == connection() && nominates(
        field.value,
        split(field.value, ',' as u8).len() as int,
        name,
    )
}

/// Whether the first `upto` fields cause a name to be removed.
pub open spec fn removes(fields: Seq<FieldModel>, upto: int, name: Seq<u8>) -> bool {
    exists|i: int| 0 <= i < upto && contributes(#[trigger] fields[i], name)
}

/// The first Connection field, from `i` on, with a member that is no token.
pub open spec fn rejected_at(fields: Seq<FieldModel>, i: int) -> Option<int>
    decreases fields.len() - i,
{
    if i >= fields.len() {
        None
    } else if fields[i].name == connection() && !valid_connection(fields[i].value) {
        Some(i)
    } else {
        rejected_at(fields, i + 1)
    }
}

/// Those of the first `upto` fields whose names are not removed, in order.
pub open spec fn survivors(fields: Seq<FieldModel>, upto: int) -> Seq<FieldModel>
    decreases upto,
{
    if upto <= 0 {
        Seq::empty()
    } else {
        let before = survivors(fields, upto - 1);
        if removes(fields, fields.len() as int, fields[upto - 1].name) {
            before
        } else {
            before.push(fields[upto - 1])
        }
    }
}

/// Whether `names` lists the removed names, in ascending order and each once.
pub open spec fn lists_removed(fields: Seq<FieldModel>, names: Seq<Seq<u8>>) -> bool {
    &&& strictly_sorted(names)
    &&& forall|name: Seq<u8>|
        #[trigger] names.contains(name) <==> removes(fields, fields.len() as int, name)
}

/// The removed names, in ascending order.
pub open spec fn removed_names(fields: Seq<FieldModel>) -> Seq<Seq<u8>> {
    choose|names: Seq<Seq<u8>>| lists_removed(fields, names)
}

pub open spec fn invalid_connection(index: int) -> Fault {
    Fault::InvalidHeader { index, reason: "invalid_connection_token"@ }
}

/// The header fields without the hop-by-hop ones.
pub open spec fn sanitized(fields: Seq<FieldModel>) -> Verdict<SanitizedModel> {
    match rejected_at(fields, 0) {
        Some(index) => Err(invalid_connection(index)),
        None => Ok(
            SanitizedModel {
                fields: survivors(fields, fields.len() as int),
                removed_names: removed_names(fields),
            },
        ),
    }
}

/// There is one listing of the removed names only.
pub proof fn lemma_removed_names(fields: Seq<FieldModel>, names: Seq<Seq<u8>>)
    requires
        lists_removed(fields, names),
    ensures
        removed_names(fields) == names,
{
    let listed = removed_names(fields);
    assert(lists_removed(fields, listed));
    assert forall|name: Seq<u8>| #[trigger] listed.contains(name) <==> names.contains(name) by {}
    lemma_sorted_unique(listed, names);
}

/// What one field more causes to be removed.
pub proof fn lemma_removes_next(fields: Seq<FieldModel>, i: int)
    requires
        0 <= i < fields.len(),
    ensures
        forall|name: Seq<u8>|
            #[trigger] removes(fields, i + 1, name) <==> removes(fields, i, name) || contributes(
                fields[i],
                name,
            ),
{
    assert forall|name: Seq<u8>| #[trigger] removes(fields, i + 1, name) <==> removes(
        fields,
        i,
        name,
    ) || contributes(fields[i], name) by {
        if removes(fields, i, name) {
            let k = choose|k: int| 0 <= k < i && contributes(#[trigger] fields[k], name);
            assert(contributes(fields[k], name));
        }
        if contributes(fields[i], name) {
            assert(removes(fields, i + 1, name));
        }
    }
}

/// What one member more nominates.
pub proof fn lemma_nominates_next(value: Seq<u8>, j: int)
    requires
        0 <= j,
    ensures
        forall|name: Seq<u8>|
            #[trigger] nominates(value, j + 1, name) <==> nominates(value, j, name) || lowered(
                member(value, j),
            ) == name,
{
    assert forall|name: Seq<u8>| #[trigger] nominates(value, j + 1, name) <==> nominates(
        value,
        j,
        name,
    ) || lowered(member(value, j)) == name by {
        if nominates(value, j, name) {
            let k = choose|k: int| 0 <= k < j && lowered(#[trigger] member(value, k)) == name;
            assert(lowered(member(value, k)) == name);
        }
    }
}

/// Fields with the same contents as the input, as far as they survive.
pub proof fn lemma_survivors(fields: Seq<FieldModel>, upto: int)
    requires
        0 <= upto <= fields.len(),
    ensures
        forall|k: int|
            0 <= k < survivors(fields, upto).len() ==> exists|i: int|
                0 <= i < upto && #[trigger] survivors(fields, upto)[k] == fields[i] && !removes(
                    fields,
                    fields.len() as int,
                    fields[i].name,
                ),
    decreases upto,
{
    if upto > 0 {
        lemma_survivors(fields, upto - 1);
        assert forall|k: int| 0 <= k < survivors(fields, upto).len() implies exists|i: int|
            0 <= i < upto && #[trigger] survivors(fields, upto)[k] == fields[i] && !removes(
                fields,
                fields.len() as int,
                fields[i].name,
            ) by {
            let before = survivors(fields, upto - 1);
            if k < before.len() {
                assert(survivors(fields, upto)[k] == before[k]);
            } else {
                assert(survivors(fields, upto)[k] == fields[upto - 1]);
            }
        }
    }
}

/// A name put in its place among sorted ones.
proof fn lemma_insert(names: Seq<Seq<u8>>, name: Seq<u8>) -> (longer: Seq<Seq<u8>>)
    requires
        strictly_sorted(names),
    ensures
        strictly_sorted(longer),
        forall|other: Seq<u8>| #[trigger]
            longer.contains(other) <==> names.contains(other) || other == name,
    decreases names.len(),
{
    if names.len() == 0 {
        let longer = seq![name];
        assert(longer[0] == name);
        longer
    } else {
        let last = names.last();
        let less = names.drop_last();
        assert(names =~= less.push(last));
        assert forall|i: int, j: int| 0 <= i < j < less.len() implies precedes(
            #[trigger] less[i],
            #[trigger] less[j],
        ) by {
            assert(precedes(names[i], names[j]));
        }
        assert forall|other: Seq<u8>| #[trigger] names.contains(other) <==> less.contains(other)
            || other == last by {
            if less.contains(other) {
                let k = choose|k: int| 0 <= k < less.len() && less[k] == other;
                assert(names[k] == other);
            }
            if other == last {
                assert(names[names.len() - 1] == other);
            }
            if names.contains(other) {
                let k = choose|k: int| 0 <= k < names.len() && names[k] == other;
                if k < less.len() {
                    assert(less[k] == other);
                }
            }
        }
        if name == last {
            names
        } else if precedes(last, name) {
            let longer = names.push(name);
            assert forall|i: int, j: int| 0 <= i < j < longer.len() implies precedes(
                #[trigger] longer[i],
                #[trigger] longer[j],
            ) by {
                if j < names.len() {
                    assert(precedes(names[i], names[j]));
                } else if i < names.len() - 1 {
                    assert(precedes(names[i], names[names.len() - 1]));
                    lemma_precedes_transitive(names[i], last, name, 0);
                }
            }
            assert forall|other: Seq<u8>| #[trigger] longer.contains(other) <==> names.contains(other)
                || other == name by {
                if names.contains(other) {
                    let k = choose|k: int| 0 <= k < names.len() && names[k] == other;
                    assert(longer[k] == other);
                }
                assert(longer[names.len() as int] == name);
            }
            longer
        } else {
            if !precedes(name, last) {
                assert(name.take(0) =~= last.take(0));
                lemma_precedes_total(name, last, 0);
            }
            let inner = lemma_insert(less, name);
            let longer = inner.push(last);
            assert forall|i: int| 0 <= i < inner.len() implies precedes(#[trigger] inner[i], last) by {
                assert(inner.contains(inner[i]));
                if inner[i] != name {
                    assert(less.contains(inner[i]));
                    let k = choose|k: int| 0 <= k < less.len() && less[k] == inner[i];
                    assert(precedes(names[k], names[names.len() - 1]));
                }
            }
            assert forall|i: int, j: int| 0 <= i < j < longer.len() implies precedes(
                #[trigger] longer[i],
                #[trigger] longer[j],
            ) by {
                if j < inner.len() {
                    assert(precedes(inner[i], inner[j]));
                } else {
                    assert(precedes(inner[i], last));
                }
            }
            assert forall|other: Seq<u8>| #[trigger] longer.contains(other) <==> names.contains(other)
                || other == name by {
                if inner.contains(other) {
                    let k = choose|k: int| 0 <= k < inner.len() && inner[k] == other;
                    assert(longer[k] == other);
                }
                if other == last {
                    assert(longer[inner.len() as int] == other);
                }
                if longer.contains(other) {
                    let k = choose|k: int| 0 <= k < longer.len() && longer[k] == other;
                    if k < inner.len() {
                        assert(inner.contains(inner[k]));
                    }
                }
            }
            longer
        }
    }
}

/// The names that the first members of a value nominate, put among sorted ones.
proof fn lemma_insert_nominated(names: Seq<Seq<u8>>, value: Seq<u8>, upto: int) -> (longer: Seq<
    Seq<u8>,
>)
    requires
        strictly_sorted(names),
        0 <= upto,
    ensures
        strictly_sorted(longer),
        forall|other: Seq<u8>| #[trigger]
            longer.contains(other) <==> names.contains(other) || nominates(value, upto, other),
    decreases upto,
{
    if upto == 0 {
        names
    } else {
        let before = lemma_insert_nominated(names, value, upto - 1);
        let longer = lemma_insert(before, lowered(member(value, upto - 1)));
        assert forall|other: Seq<u8>| #[trigger] longer.contains(other) <==> names.contains(other)
            || nominates(value, upto, other) by {
            if nominates(value, upto, other) {
                let j = choose|j: int| 0 <= j < upto && lowered(#[trigger] member(value, j)) == other;
                if j < upto - 1 {
                    assert(nominates(value, upto - 1, other));
                }
            }
            if nominates(value, upto - 1, other) {
                let j = choose|j: int|
                    0 <= j < upto - 1 && lowered(#[trigger] member(value, j)) == other;
                assert(nominates(value, upto, other));
            }
            if other == lowered(member(value, upto - 1)) {
                assert(nominates(value, upto, other));
            }
        }
        longer
    }
}

proof fn lemma_listing(fields: Seq<FieldModel>, upto: int) -> (names: Seq<Seq<u8>>)
    requires
        0 <= upto <= fields.len(),
    ensures
        strictly_sorted(names),
        forall|name: Seq<u8>| #[trigger] names.contains(name) <==> removes(fields, upto, name),
    decreases upto,
{
    if upto == 0 {
        Seq::empty()
    } else {
        let before = lemma_listing(fields, upto - 1);
        let field = fields[upto - 1];
        let fixed = if is_fixed(field.name) {
            lemma_insert(before, field.name)
        } else {
            before
        };
        let names = if field.name == connection() {
            lemma_insert_nominated(
                fixed,
                field.value,
                split(field.value, ',' as u8).len() as int,
            )
        } else {
            fixed
        };
        assert forall|name: Seq<u8>| #[trigger] names.contains(name) <==> removes(
            fields,
            upto,
            name,
        ) by {
            assert(fixed.contains(name) <==> before.contains(name) || (is_fixed(field.name) && name
                == field.name));
            assert(names.contains(name) <==> before.contains(name) || contributes(field, name));
            if removes(fields, upto, name) {
                let i = choose|i: int| 0 <= i < upto && contributes(#[trigger] fields[i], name);
                if i < upto - 1 {
                    assert(removes(fields, upto - 1, name));
                }
            }
            if removes(fields, upto - 1, name) {
                let i = choose|i: int| 0 <= i < upto - 1 && contributes(#[trigger] fields[i], name);
                assert(contributes(fields[i], name));
            }
        }
        names
    }
}

/// The removed names are listed: sorted, each once, and no others.
pub proof fn lemma_removed_names_listed(fields: Seq<FieldModel>)
    ensures
        lists_removed(fields, removed_names(fields)),
{
    let names = lemma_listing(fields, fields.len() as int);
    assert(lists_removed(fields, names));
}

/// Nothing that is removed survives: no surviving field has a removed name or a name that is
/// always hop-by-hop.
pub proof fn lemma_survivors_are_end_to_end(fields: Seq<FieldModel>, k: int)
    requires
        0 <= k < survivors(fields, fields.len() as int).len(),
    ensures
        !is_fixed(survivors(fields, fields.len() as int)[k].name),
        !removes(fields, fields.len() as int, survivors(fields, fields.len() as int)[k].name),
{
    let n = fields.len() as int;
    lemma_survivors(fields, n);
    let i = choose|i: int|
        0 <= i < n && survivors(fields, n)[k] == fields[i] && !removes(fields, n, fields[i].name);
    if is_fixed(fields[i].name) {
        assert(contributes(fields[i], fields[i].name));
    }
}

/// Sanitizing what has been sanitized removes nothing more.
pub proof fn lemma_sanitizing_is_idempotent(fields: Seq<FieldModel>)
    requires
        sanitized(fields) is Ok,
    ensures
        sanitized(sanitized(fields)->Ok_0.fields) == Ok::<SanitizedModel, Fault>(
            SanitizedModel {
                fields: sanitized(fields)->Ok_0.fields,
                removed_names: Seq::empty(),
            },
        ),
{
    let kept = survivors(fields, fields.len() as int);
    assert forall|k: int| 0 <= k < kept.len() implies !is_fixed(#[trigger] kept[k].name) by {
        lemma_survivors_are_end_to_end(fields, k);
    }
    assert forall|name: Seq<u8>| !#[trigger] removes(kept, kept.len() as int, name) by {
        if removes(kept, kept.len() as int, name) {
            let i = choose|i: int|
                0 <= i < kept.len() && contributes(#[trigger] kept[i], name);
            assert(!is_fixed(kept[i].name));
        }
    }
    lemma_nothing_removed(kept, kept.len() as int);
    assert(kept.take(kept.len() as int) =~= kept);
    lemma_not_rejected(kept, 0);
    let none = Seq::<Seq<u8>>::empty();
    assert(lists_removed(kept, none));
    lemma_removed_names(kept, none);
}

proof fn lemma_nothing_removed(fields: Seq<FieldModel>, upto: int)
    requires
        0 <= upto <= fields.len(),
        forall|name: Seq<u8>| !#[trigger] removes(fields, fields.len() as int, name),
    ensures
        survivors(fields, upto) =~= fields.take(upto),
    decreases upto,
{
    if upto > 0 {
        lemma_nothing_removed(fields, upto - 1);
    }
}

proof fn lemma_not_rejected(fields: Seq<FieldModel>, i: int)
    requires
        0 <= i,
        forall|k: int| 0 <= k < fields.len() ==> !is_fixed(#[trigger] fields[k].name),
    ensures
        rejected_at(fields, i) is None,
    decreases fields.len() - i,
{
    if i < fields.len() {
        assert(!is_fixed(fields[i].name));
        lemma_not_rejected(fields, i + 1);
    }
}

/// A copy of a field.
pub fn copy_field(field: &HeaderField) -> (copy: HeaderField)
    ensures
        copy@ == field@,
{
    HeaderField {
        name: field.name.clone(),
        value: vstd::slice::slice_to_vec(field.value.as_slice()),
    }
}

/// Whether a name is always hop-by-hop.
pub fn is_fixed_name(name: &str) -> (fixed: bool)
    ensures
        fixed == is_fixed(utf8(name@)),
{
    same_text(name, "connection") || same_text(name, "proxy-connection") || same_text(
        name,
        "keep-alive",
    ) || same_text(name, "transfer-encoding") || same_text(name, "te") || same_text(name, "trailer")
        || same_text(name, "upgrade") || same_text(name, "proxy-authenticate") || same_text(
        name,
        "proxy-authorization",
    )
}

/// The canonical name of a nominating member.
pub fn nominated_name(member: &[u8]) -> (name: Option<String>)
    ensures
        name is Some <==> is_nomination(member@),
        name matches Some(n) ==> utf8(n@) == lowered(member@),
{
    if member.len() == 0 || !all_bytes_in(member, ByteClass::Token) {
        return None;
    }
    let canonical: Vec<u8> = lower_bytes(member);
    proof {
        assert(forall|i: int|
            0 <= i < member@.len() ==> ByteClass::Token.has(#[trigger] member@[i]));
        assert(is_ascii(canonical@));
    }
    Some(ascii_text(canonical.as_slice()))
}

} // verus!
