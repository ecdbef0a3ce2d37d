//! Reconciling the authority of a request target with the Host field.

use vstd::prelude::*;
use crate::bytes::{
    ByteClass, any_byte_in, any_in, first_in, lemma_first_in, lowered, slices_of, split, split_on,
};
use crate::host::{endpoint, lemma_endpoint_bytes};
use crate::text::{same_bytes, same_text, utf8};
use crate::types::{
    AuthorityModel, Fault, FieldModel, HeaderBlock, HeaderField, PolyguardError, Result,
    TargetForm, TargetModel, Verdict, fields_of,
};

verus! {

pub open spec fn is_host(field: FieldModel) -> bool {
    field.name == utf8("host"@)
}

/// Whether a field is the Host field whatever the case of its name.
pub open spec fn is_host_any_case(field: FieldModel) -> bool {
    lowered(field.name) == utf8("host"@)
}

/// The members of a value between commas are all the same.
pub open spec fn members_repeat(value: Seq<u8>) -> bool {
    forall|i: int|
        0 <= i < split(value, ',' as u8).len() ==> #[trigger] split(value, ',' as u8)[i] == split(
            value,
            ',' as u8,
        )[0]
}

/// The error for a Host value that holds a comma: a repeated value counts as several Host fields.
pub open spec fn combined_host_fault(value: Seq<u8>) -> Fault {
    if split(value, ',' as u8)[0].len() > 0 && members_repeat(value) {
        Fault::MultipleHost
    } else {
        Fault::InvalidAuthority
    }
}

/// The value of the one Host field from `from` on, or that there are several; `found` is the value
/// of one that came before.
pub open spec fn only_host(fields: Seq<FieldModel>, from: int, found: Option<Seq<u8>>) -> Verdict<
    Option<Seq<u8>>,
>
    decreases fields.len() - from,
{
    if from >= fields.len() {
        Ok(found)
    } else if !is_host(fields[from]) {
        only_host(fields, from + 1, found)
    } else if found is Some {
        Err(Fault::MultipleHost)
    } else {
        only_host(fields, from + 1, Some(fields[from].value))
    }
}

/// The value of the Host field, if there is one, which is no list.
pub open spec fn host_value(fields: Seq<FieldModel>) -> Verdict<Option<Seq<u8>>> {
    match only_host(fields, 0, None) {
        Ok(Some(value)) => if any_in(value, ByteClass::Only(',' as u8)) {
            Err(combined_host_fault(value))
        } else {
            Ok(Some(value))
        },
        other => other,
    }
}

/// The default port of a target whose parts fit its form; nothing where they do not.
pub open spec fn shaped(target: TargetModel) -> Option<Option<u16>> {
    match target.form {
        TargetForm::Origin | TargetForm::Asterisk => if target.scheme is None
            && target.authority is None {
            Some(None)
        } else {
            None
        },
        TargetForm::Absolute => if target.authority is None {
            None
        } else if target.scheme == Some(utf8("http"@)) {
            Some(Some(80u16))
        } else if target.scheme == Some(utf8("https"@)) {
            Some(Some(443u16))
        } else {
            None
        },
        TargetForm::Authority => if target.scheme is None && target.authority is Some {
            Some(None)
        } else {
            None
        },
    }
}

/// The port that an endpoint is reached at, where it is known.
pub open spec fn reached_port(port: Option<u16>, default: Option<u16>) -> Option<u16> {
    if port is Some {
        port
    } else {
        default
    }
}

/// Whether two authorities name the same endpoint.
pub open spec fn same_endpoint(
    a: AuthorityModel,
    b: AuthorityModel,
    default: Option<u16>,
) -> bool {
    a.host == b.host && reached_port(a.port, default) == reached_port(b.port, default)
}

/// The authority without a port that is the default one.
pub open spec fn effective(authority: AuthorityModel, default: Option<u16>) -> AuthorityModel {
    AuthorityModel {
        host: authority.host,
        port: if authority.port is Some && authority.port == default {
            None
        } else {
            authority.port
        },
    }
}

/// The endpoint of an optional authority; nothing where it names none.
pub open spec fn optional_endpoint(authority: Option<Seq<u8>>) -> Option<Option<AuthorityModel>> {
    match authority {
        Some(text) => match endpoint(text) {
            Some(named) => Some(Some(named)),
            None => None,
        },
        None => Some(None),
    }
}

/// The authority of a request, from that of its target and that of its Host field. The target's
/// is preferred, but a Host field that names another endpoint is refused.
pub open spec fn settled(
    from_target: Option<Seq<u8>>,
    from_header: Option<Seq<u8>>,
    default: Option<u16>,
) -> Verdict<AuthorityModel> {
    match (optional_endpoint(from_target), optional_endpoint(from_header)) {
        (Some(Some(a)), Some(Some(b))) => if same_endpoint(a, b, default) {
            Ok(effective(a, default))
        } else {
            Err(Fault::AuthorityMismatch)
        },
        (Some(Some(a)), Some(None)) => Ok(effective(a, default)),
        (Some(None), Some(Some(b))) => Ok(effective(b, default)),
        (Some(None), Some(None)) => Err(Fault::MissingHost),
        _ => Err(Fault::InvalidAuthority),
    }
}

/// The effective authority of a request.
pub open spec fn reconciled(target: TargetModel, fields: Seq<FieldModel>) -> Verdict<
    AuthorityModel,
> {
    match host_value(fields) {
        Ok(host) => match shaped(target) {
            Some(default) => settled(target.authority, host, default),
            None => Err(Fault::InvalidAuthority),
        },
        Err(fault) => Err(fault),
    }
}

/// As [`reconciled`], but a form that needs a Host field is held to that before the target's parts
/// are looked at.
pub open spec fn reconciled_in_phases(target: TargetModel, fields: Seq<FieldModel>) -> Verdict<
    AuthorityModel,
> {
    match host_value(fields) {
        Ok(host) => if (target.form is Origin || target.form is Asterisk) && host is None {
            Err(Fault::MissingHost)
        } else {
            reconciled(target, fields)
        },
        Err(fault) => Err(fault),
    }
}

/// The value of the one Host field, in any case, from `from` on; a repeated value counts as
/// several fields.
pub open spec fn only_host_any_case(
    fields: Seq<FieldModel>,
    from: int,
    found: Option<Seq<u8>>,
) -> Verdict<Option<Seq<u8>>>
    decreases fields.len() - from,
{
    if from >= fields.len() {
        Ok(found)
    } else if !is_host_any_case(fields[from]) {
        only_host_any_case(fields, from + 1, found)
    } else if found is Some || (split(fields[from].value, ',' as u8).len() > 1 && members_repeat(
        fields[from].value,
    )) {
        Err(Fault::MultipleHost)
    } else {
        only_host_any_case(fields, from + 1, Some(fields[from].value))
    }
}

/// The default port of a target by its scheme, whatever its other parts.
pub open spec fn scheme_default(target: TargetModel) -> Option<u16> {
    if !(target.form is Absolute) {
        None
    } else if target.scheme == Some(utf8("http"@)) {
        Some(80u16)
    } else if target.scheme == Some(utf8("https"@)) {
        Some(443u16)
    } else {
        None
    }
}

/// The effective authority where the target's parts are taken as they come.
pub open spec fn reconciled_leniently(target: TargetModel, fields: Seq<FieldModel>) -> Verdict<
    AuthorityModel,
> {
    match only_host_any_case(fields, 0, None) {
        Ok(host) => if (target.form is Origin || target.form is Asterisk) && host is None {
            Err(Fault::MissingHost)
        } else {
            settled(target.authority, host, scheme_default(target))
        },
        Err(fault) => Err(fault),
    }
}

/// Where the target's parts fit its form, looking at the Host field first makes no difference.
pub proof fn lemma_phases_agree(target: TargetModel, fields: Seq<FieldModel>)
    requires
        shaped(target) is Some,
    ensures
        reconciled_in_phases(target, fields) == reconciled(target, fields),
{
}

/// To look at the Host field first decides only which error comes.
pub proof fn lemma_phases_accept_alike(target: TargetModel, fields: Seq<FieldModel>)
    ensures
        reconciled_in_phases(target, fields) is Ok <==> reconciled(target, fields) is Ok,
        reconciled(target, fields) is Ok ==> reconciled_in_phases(target, fields) == reconciled(
            target,
            fields,
        ),
{
}

/// Whether field names that are Host in some case are in lower case.
pub open spec fn host_names_lowered(fields: Seq<FieldModel>) -> bool {
    forall|i: int|
        0 <= i < fields.len() ==> (is_host_any_case(#[trigger] fields[i]) <==> is_host(fields[i]))
}

/// Whether no Host value is a list of empty members.
pub open spec fn no_blank_host_list(fields: Seq<FieldModel>) -> bool {
    forall|i: int|
        0 <= i < fields.len() && is_host(#[trigger] fields[i]) ==> split(
            fields[i].value,
            ',' as u8,
        ).len() == 1 || split(fields[i].value, ',' as u8)[0].len() > 0
}

/// A value is one member exactly if it holds no comma.
pub proof fn lemma_one_member(value: Seq<u8>)
    ensures
        split(value, ',' as u8).len() >= 1,
        split(value, ',' as u8).len() == 1 <==> !any_in(value, ByteClass::Only(',' as u8)),
{
    let class = ByteClass::Only(',' as u8);
    lemma_first_in(value, class);
    let i = first_in(value, class);
    if i < value.len() {
        assert(class.has(value[i]));
        assert(split(value.skip(i + 1), ',' as u8).len() > 0);
    }
}

proof fn lemma_hosts_agree(fields: Seq<FieldModel>, from: int, found: Option<Seq<u8>>)
    requires
        0 <= from,
        host_names_lowered(fields),
        no_blank_host_list(fields),
        found matches Some(v) ==> !(split(v, ',' as u8).len() > 1 && members_repeat(v)),
    ensures
        match only_host_any_case(fields, from, found) {
            Ok(host) => only_host(fields, from, found) == Ok::<Option<Seq<u8>>, Fault>(host) && (host
                matches Some(v) ==> !(split(v, ',' as u8).len() > 1 && members_repeat(v))),
            Err(fault) => fault == Fault::MultipleHost && (only_host(fields, from, found) == Err::<
                Option<Seq<u8>>,
                Fault,
            >(Fault::MultipleHost) || (only_host(fields, from, found) matches Ok(Some(v))
                && any_in(v, ByteClass::Only(',' as u8)) && combined_host_fault(v)
                == Fault::MultipleHost)),
        },
    decreases fields.len() - from,
{
    if from < fields.len() {
        assert(is_host_any_case(fields[from]) <==> is_host(fields[from]));
        if !is_host(fields[from]) {
            lemma_hosts_agree(fields, from + 1, found);
        } else if found is None {
            let v = fields[from].value;
            lemma_one_member(v);
            if split(v, ',' as u8).len() > 1 && members_repeat(v) {
                lemma_found_stays(fields, from + 1, v);
            } else {
                lemma_hosts_agree(fields, from + 1, Some(v));
            }
        }
    }
}

proof fn lemma_found_stays(fields: Seq<FieldModel>, from: int, value: Seq<u8>)
    requires
        0 <= from,
    ensures
        only_host(fields, from, Some(value)) == Ok::<Option<Seq<u8>>, Fault>(Some(value))
            || only_host(fields, from, Some(value)) == Err::<Option<Seq<u8>>, Fault>(
            Fault::MultipleHost,
        ),
    decreases fields.len() - from,
{
    if from < fields.len() && !is_host(fields[from]) {
        lemma_found_stays(fields, from + 1, value);
    }
}

/// The lenient reconciliation agrees with the strict one where the target's parts fit its form, the
/// Host field's name is in lower case, and its value is no list of empty members.
pub proof fn lemma_lenient_agrees(target: TargetModel, fields: Seq<FieldModel>)
    requires
        shaped(target) is Some,
        host_names_lowered(fields),
        no_blank_host_list(fields),
    ensures
        reconciled_leniently(target, fields) == reconciled(target, fields),
{
    lemma_hosts_agree(fields, 0, None);
    match only_host_any_case(fields, 0, None) {
        Ok(Some(value)) => {
            lemma_one_member(value);
            if any_in(value, ByteClass::Only(',' as u8)) {
                assert(combined_host_fault(value) == Fault::InvalidAuthority);
                if endpoint(value) is Some {
                    lemma_endpoint_bytes(value);
                }
            }
        },
        _ => {},
    }
}

/// A port that the effective authority gives is not the default one, in whatever way it was
/// reconciled.
pub proof fn lemma_effective_port(target: TargetModel, fields: Seq<FieldModel>)
    ensures
        reconciled(target, fields) matches Ok(authority) ==> (authority.port is Some
            ==> authority.port != shaped(target).unwrap()),
        reconciled_in_phases(target, fields) matches Ok(authority) ==> (authority.port is Some
            ==> authority.port != shaped(target).unwrap()),
        reconciled_leniently(target, fields) matches Ok(authority) ==> (authority.port is Some
            ==> authority.port != scheme_default(target)),
{
}

/// Whether the members of a value between commas are all the same.
pub fn repeats(value: &[u8]) -> (repeated: bool)
    ensures
        repeated == members_repeat(value@),
{
    let members: Vec<&[u8]> = split_on(value, ',' as u8);
    let ghost pieces = split(value@, ',' as u8);
    assert(slices_of(members@).len() == members@.len());
    assert(slices_of(members@)[0] == members@[0]@);
    let first: &[u8] = members[0];
    let mut i: usize = 1;
    while i < members.len()
        invariant
            1 <= i <= members@.len(),
            members@.len() == pieces.len(),
            pieces == slices_of(members@),
            pieces == split(value@, ',' as u8),
            first@ == pieces[0],
            forall|j: int| 0 <= j < i ==> #[trigger] pieces[j] == pieces[0],
        decreases members@.len() - i,
    {
        assert(pieces[i as int] == members@[i as int]@);
        if !same_bytes(members[i], first) {
            return false;
        }
        i += 1;
    }
    true
}

/// The error for a Host value that holds a comma.
pub fn combined_host_error(value: &[u8]) -> (error: PolyguardError)
    ensures
        error@ == combined_host_fault(value@),
{
    let members: Vec<&[u8]> = split_on(value, ',' as u8);
    assert(slices_of(members@)[0] == members@[0]@);
    if members[0].len() > 0 && repeats(value) {
        PolyguardError::MultipleHost
    } else {
        PolyguardError::InvalidAuthority
    }
}

/// The value of the Host field.
pub fn find_host<'a>(headers: &'a HeaderBlock) -> (found: Result<Option<&'a [u8]>>)
    ensures
        match found {
            Ok(Some(value)) => host_value(headers@.fields) == Ok::<Option<Seq<u8>>, Fault>(
                Some(value@),
            ),
            Ok(None) => host_value(headers@.fields) == Ok::<Option<Seq<u8>>, Fault>(None),
            Err(e) => host_value(headers@.fields) == Err::<Option<Seq<u8>>, Fault>(e@),
        },
{
    let mut found: Option<&'a [u8]> = None;
    let mut index: usize = 0;
    let ghost models = headers@.fields;
    while index < headers.fields.len()
        invariant
            index <= headers.fields@.len(),
            models == fields_of(headers.fields@),
            models == headers@.fields,
            only_host(models, 0, None) == only_host(models, index as int, slice_opt(found)),
        decreases headers.fields@.len() - index,
    {
        let field: &'a HeaderField = &headers.fields[index];
        assert(models[index as int] == field@);
        if same_text(field.name.as_str(), "host") {
            if found.is_some() {
                return Err(PolyguardError::MultipleHost);
            }
            found = Some(field.value.as_slice());
        }
        index += 1;
    }
    match found {
        Some(value) => {
            if any_byte_in(value, ByteClass::Only(',' as u8)) {
                return Err(combined_host_error(value));
            }
            Ok(Some(value))
        },
        None => Ok(None),
    }
}

/// The bytes of an optional slice.
pub open spec fn slice_opt(slice: Option<&[u8]>) -> Option<Seq<u8>> {
    match slice {
        Some(s) => Some(s@),
        None => None,
    }
}

} // verus!
