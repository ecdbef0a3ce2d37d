//! Hop-by-hop fields: which names go, and that everything else stays as it was.

use vstd::prelude::*;
use crate::bytes::{ByteClass, all_in, is_token, lowered, precedes, split, trimmed};
use crate::hop_by_hop::{
    connection, contributes, is_fixed, is_nomination, lemma_removed_names_listed, member,
    rejected_at, removes, sanitized, survivors, valid_connection,
};
use crate::text::utf8;
use crate::types::{Fault, FieldModel, SanitizedModel};

verus! {

/// What goes is: the nine hop-by-hop names, each where a field has it, and every name that a
/// member of a Connection field gives, in whatever case. What stays is every other field, in the
/// order in which they came.
pub proof fn lemma_hop_fields_go(fields: Seq<FieldModel>, name: Seq<u8>)
    ensures
        sanitized(fields) matches Ok(kept) ==> {
            let gone = (exists|i: int|
                0 <= i < fields.len() && (#[trigger] fields[i]).name == name && (name == utf8(
                    "connection"@,
                ) || name == utf8("proxy-connection"@) || name == utf8("keep-alive"@) || name
                    == utf8("transfer-encoding"@) || name == utf8("te"@) || name == utf8("trailer"@)
                    || name == utf8("upgrade"@) || name == utf8("proxy-authenticate"@) || name
                    == utf8("proxy-authorization"@))) || exists|i: int, j: int|
                0 <= i < fields.len() && fields[i].name == utf8("connection"@) && 0 <= j < split(
                    fields[i].value,
                    0x2c,
                ).len() && lowered(trimmed(#[trigger] split(fields[i].value, 0x2c)[j])) == name;
            &&& kept.removed_names.contains(name) <==> gone
            &&& (exists|k: int|
                0 <= k < kept.fields.len() && (#[trigger] kept.fields[k]).name == name) <==> (!gone
                && exists|i: int| 0 <= i < fields.len() && (#[trigger] fields[i]).name == name)
        },
{
    if sanitized(fields) is Ok {
        let kept = sanitized(fields)->Ok_0;
        let n = fields.len() as int;
        let fixed = name == utf8("connection"@) || name == utf8("proxy-connection"@) || name
            == utf8("keep-alive"@) || name == utf8("transfer-encoding"@) || name == utf8("te"@)
            || name == utf8("trailer"@) || name == utf8("upgrade"@) || name == utf8(
            "proxy-authenticate"@,
        ) || name == utf8("proxy-authorization"@);
        let listed = exists|i: int|
            0 <= i < fields.len() && (#[trigger] fields[i]).name == name && fixed;
        let nominated = exists|i: int, j: int|
            0 <= i < fields.len() && fields[i].name == utf8("connection"@) && 0 <= j < split(
                fields[i].value,
                0x2c,
            ).len() && lowered(trimmed(#[trigger] split(fields[i].value, 0x2c)[j])) == name;
        assert(removes(fields, n, name) <==> listed || nominated) by {
            if listed {
                let i = choose|i: int|
                    0 <= i < fields.len() && (#[trigger] fields[i]).name == name && fixed;
                assert(contributes(fields[i], name));
            }
            if nominated {
                let (i, j) = choose|i: int, j: int|
                    0 <= i < fields.len() && fields[i].name == utf8("connection"@) && 0 <= j
                        < split(fields[i].value, 0x2c).len() && lowered(
                        trimmed(#[trigger] split(fields[i].value, 0x2c)[j]),
                    ) == name;
                assert(lowered(member(fields[i].value, j)) == name);
                assert(contributes(fields[i], name));
            }
            if removes(fields, n, name) {
                let i = choose|i: int| 0 <= i < n && contributes(#[trigger] fields[i], name);
                if !(is_fixed(fields[i].name) && fields[i].name == name) {
                    let value = fields[i].value;
                    let j = choose|j: int|
                        0 <= j < split(value, ',' as u8).len() && lowered(
                            #[trigger] member(value, j),
                        ) == name;
                    assert(lowered(trimmed(split(fields[i].value, 0x2c)[j])) == name);
                }
            }
        }
        lemma_removed_names_listed(fields);
        assert(kept.removed_names.contains(name) <==> removes(fields, n, name));
        lemma_kept_in_order(fields, n);
        if exists|i: int| 0 <= i < fields.len() && (#[trigger] fields[i]).name == name {
            let i = choose|i: int| 0 <= i < fields.len() && (#[trigger] fields[i]).name == name;
            if !removes(fields, n, name) {
                assert(survivors(fields, n).contains(fields[i]));
                let k = choose|k: int| 0 <= k < kept.fields.len() && kept.fields[k] == fields[i];
                assert(kept.fields[k].name == name);
            }
        }
        if exists|k: int| 0 <= k < kept.fields.len() && (#[trigger] kept.fields[k]).name == name {
            let k = choose|k: int|
                0 <= k < kept.fields.len() && (#[trigger] kept.fields[k]).name == name;
            assert(survivors(fields, n).contains(kept.fields[k]));
        }
    }
}

proof fn lemma_kept_in_order(fields: Seq<FieldModel>, upto: int)
    requires
        0 <= upto <= fields.len(),
    ensures
        survivors(fields, upto) == fields.take(upto).filter(
            |field: FieldModel| !removes(fields, fields.len() as int, field.name),
        ),
        forall|i: int|
            0 <= i < upto && !removes(fields, fields.len() as int, (#[trigger] fields[i]).name)
                ==> survivors(fields, upto).contains(fields[i]),
        forall|field: FieldModel| #[trigger]
            survivors(fields, upto).contains(field) ==> fields.contains(field) && !removes(
                fields,
                fields.len() as int,
                field.name,
            ),
    decreases upto,
{
    let rule = |field: FieldModel| !removes(fields, fields.len() as int, field.name);
    reveal(Seq::filter);
    if upto > 0 {
        lemma_kept_in_order(fields, upto - 1);
        let before = survivors(fields, upto - 1);
        let now = survivors(fields, upto);
        let last = fields[upto - 1];
        assert(fields.take(upto).drop_last() =~= fields.take(upto - 1));
        assert(fields.take(upto).last() == last);
        assert forall|i: int|
            0 <= i < upto && !removes(
                fields,
                fields.len() as int,
                (#[trigger] fields[i]).name,
            ) implies now.contains(fields[i]) by {
            if i < upto - 1 {
                assert(before.contains(fields[i]));
                let k = choose|k: int| 0 <= k < before.len() && before[k] == fields[i];
                assert(now[k] == fields[i]);
            } else {
                assert(now[before.len() as int] == last);
            }
        }
        assert forall|field: FieldModel| #[trigger] now.contains(field) implies fields.contains(
            field,
        ) && !removes(fields, fields.len() as int, field.name) by {
            let k = choose|k: int| 0 <= k < now.len() && now[k] == field;
            if k < before.len() {
                assert(before[k] == field);
                assert(before.contains(field));
            } else {
                assert(field == last);
                assert(fields[upto - 1] == field);
            }
        }
    } else {
        assert(fields.take(0) =~= Seq::<FieldModel>::empty());
        assert(survivors(fields, 0) =~= fields.take(0).filter(rule));
    }
}

/// The fields that stay are the ones that came, without those of the names that went, in their
/// order and as often as they came. The names that went are listed once each, sorted.
pub proof fn lemma_other_fields_stay(fields: Seq<FieldModel>)
    ensures
        sanitized(fields) matches Ok(kept) ==> {
            &&& kept.fields == fields.filter(
                |field: FieldModel| !kept.removed_names.contains(field.name),
            )
            &&& forall|a: int, b: int|
                0 <= a < b < kept.removed_names.len() ==> precedes(
                    #[trigger] kept.removed_names[a],
                    #[trigger] kept.removed_names[b],
                )
        },
{
    if sanitized(fields) is Ok {
        let kept = sanitized(fields)->Ok_0;
        let n = fields.len() as int;
        lemma_removed_names_listed(fields);
        lemma_kept_in_order(fields, n);
        assert(fields.take(n) =~= fields);
        let one = |field: FieldModel| !removes(fields, n, field.name);
        let other = |field: FieldModel| !kept.removed_names.contains(field.name);
        assert forall|field: FieldModel| one(field) == #[trigger] other(field) by {
            assert(kept.removed_names.contains(field.name) <==> removes(fields, n, field.name));
        }
        lemma_same_filter(fields, one, other);
    }
}

pub(crate) proof fn lemma_same_filter(
    fields: Seq<FieldModel>,
    one: spec_fn(FieldModel) -> bool,
    other: spec_fn(FieldModel) -> bool,
)
    requires
        forall|field: FieldModel| one(field) == #[trigger] other(field),
    ensures
        fields.filter(one) == fields.filter(other),
    decreases fields.len(),
{
    reveal(Seq::filter);
    if fields.len() > 0 {
        lemma_same_filter(fields.drop_last(), one, other);
        assert(one(fields.last()) == other(fields.last()));
    }
}

/// A request is refused for the first Connection field with a member that, without spaces and
/// tabs around it, is not a token, and for nothing else.
pub proof fn lemma_connection_is_refused(fields: Seq<FieldModel>, i: int)
    requires
        0 <= i < fields.len(),
    ensures
        ({
            let broken = |f: int|
                fields[f].name == utf8("connection"@) && exists|j: int|
                    0 <= j < split(fields[f].value, 0x2c).len() && ({
                        let word = trimmed(#[trigger] split(fields[f].value, 0x2c)[j]);
                        word.len() == 0 || exists|c: int|
                            0 <= c < word.len() && !is_token(#[trigger] word[c])
                    });
            sanitized(fields) == Err::<SanitizedModel, Fault>(
                Fault::InvalidHeader { index: i, reason: "invalid_connection_token"@ },
            ) <==> broken(i) && forall|f: int| 0 <= f < i ==> !#[trigger] broken(f)
        }),
        sanitized(fields) matches Err(fault) ==> fault matches Fault::InvalidHeader {
            index,
            reason,
        } && 0 <= index < fields.len() && reason == "invalid_connection_token"@,
{
    let broken = |f: int|
        fields[f].name == utf8("connection"@) && exists|j: int|
            0 <= j < split(fields[f].value, 0x2c).len() && ({
                let word = trimmed(#[trigger] split(fields[f].value, 0x2c)[j]);
                word.len() == 0 || exists|c: int|
                    0 <= c < word.len() && !is_token(#[trigger] word[c])
            });
    assert forall|f: int| 0 <= f < fields.len() implies #[trigger] broken(f) == (fields[f].name
        == connection() && !valid_connection(fields[f].value)) by {
        let value = fields[f].value;
        let pieces = split(value, 0x2c);
        if exists|j: int|
            0 <= j < pieces.len() && ({
                let word = trimmed(#[trigger] pieces[j]);
                word.len() == 0 || exists|c: int|
                    0 <= c < word.len() && !is_token(#[trigger] word[c])
            }) {
            let j = choose|j: int|
                0 <= j < pieces.len() && ({
                    let word = trimmed(#[trigger] pieces[j]);
                    word.len() == 0 || exists|c: int|
                        0 <= c < word.len() && !is_token(#[trigger] word[c])
                });
            let word = trimmed(pieces[j]);
            assert(member(value, j) == word);
            if word.len() > 0 {
                let c = choose|c: int| 0 <= c < word.len() && !is_token(#[trigger] word[c]);
                assert(!ByteClass::Token.has(word[c]));
            }
            assert(!is_nomination(member(value, j)));
        } else {
            assert forall|j: int| 0 <= j < split(value, ',' as u8).len() implies is_nomination(
                #[trigger] member(value, j),
            ) by {
                let word = trimmed(pieces[j]);
                assert(word == member(value, j));
                assert(!(word.len() == 0 || exists|c: int|
                    0 <= c < word.len() && !is_token(#[trigger] word[c])));
                assert(all_in(word, ByteClass::Token));
            }
        }
    }
    lemma_first_rejected(fields, 0, broken);
}

proof fn lemma_first_rejected(fields: Seq<FieldModel>, from: int, broken: spec_fn(int) -> bool)
    requires
        0 <= from <= fields.len(),
        forall|f: int|
            0 <= f < fields.len() ==> #[trigger] broken(f) == (fields[f].name == connection()
                && !valid_connection(fields[f].value)),
    ensures
        match rejected_at(fields, from) {
            Some(i) => from <= i < fields.len() && broken(i) && forall|f: int|
                from <= f < i ==> !#[trigger] broken(f),
            None => forall|f: int| from <= f < fields.len() ==> !#[trigger] broken(f),
        },
    decreases fields.len() - from,
{
    if from < fields.len() {
        assert(broken(from) == (fields[from].name == connection() && !valid_connection(
            fields[from].value,
        )));
        lemma_first_rejected(fields, from + 1, broken);
    }
}

} // verus!
