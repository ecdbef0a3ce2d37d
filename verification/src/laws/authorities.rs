//! The effective authority, from the target and the Host field.

use vstd::prelude::*;
use crate::authority::{
    host_value, is_host, is_host_any_case, members_repeat, only_host, only_host_any_case,
    reconciled, reconciled_in_phases, reconciled_leniently, scheme_default, shaped,
};
use crate::bytes::{ByteClass, any_in, lowered, split};
use crate::decimal::{decimal, digits_of};
use crate::host::{endpoint, lemma_endpoint_bytes};
use crate::ip_round_trip::lemma_split_whole;
use crate::laws::byte_text::{lemma_split_joins, with_between};
use crate::laws::hosts::{
    is_dotted, is_port, lemma_labels_make_hosts, lemma_names_are_endpoints, lemma_quads_are_hosts,
    quad,
};
use crate::text::{lemma_ascii_literal, utf8};
use crate::types::{AuthorityModel, Fault, FieldModel, TargetModel};

verus! {

proof fn lemma_host_is_lower()
    ensures
        lowered(utf8("host"@)) == utf8("host"@),
{
    reveal_strlit("host");
    lemma_ascii_literal("host"@);
    assert(lowered(utf8("host"@)) =~= utf8("host"@));
}

proof fn lemma_hosts_passed(fields: Seq<FieldModel>, from: int, found: Option<Seq<u8>>)
    requires
        0 <= from <= fields.len(),
        forall|k: int|
            from <= k < fields.len() ==> lowered((#[trigger] fields[k]).name) != utf8("host"@),
    ensures
        only_host(fields, from, found) == Ok::<Option<Seq<u8>>, Fault>(found),
        only_host_any_case(fields, from, found) == Ok::<Option<Seq<u8>>, Fault>(found),
    decreases fields.len() - from,
{
    lemma_host_is_lower();
    if from < fields.len() {
        assert(lowered(fields[from].name) != utf8("host"@));
        lemma_hosts_passed(fields, from + 1, found);
    }
}

proof fn lemma_host_reached(fields: Seq<FieldModel>, from: int, i: int)
    requires
        0 <= from <= i < fields.len(),
        fields[i].name == utf8("host"@),
        forall|k: int|
            0 <= k < fields.len() && k != i ==> lowered((#[trigger] fields[k]).name) != utf8(
                "host"@,
            ),
        forall|j: int| 0 <= j < fields[i].value.len() ==> #[trigger] fields[i].value[j] != 0x2c,
    ensures
        only_host(fields, from, None) == Ok::<Option<Seq<u8>>, Fault>(Some(fields[i].value)),
        only_host_any_case(fields, from, None) == Ok::<Option<Seq<u8>>, Fault>(
            Some(fields[i].value),
        ),
    decreases i - from,
{
    lemma_host_is_lower();
    if from < i {
        assert(lowered(fields[from].name) != utf8("host"@));
        lemma_host_reached(fields, from + 1, i);
    } else {
        let value = fields[i].value;
        assert(!any_in(value, ByteClass::Only(',' as u8))) by {
            assert forall|j: int| 0 <= j < value.len() implies !ByteClass::Only(',' as u8).has(
                #[trigger] value[j],
            ) by {
                assert(fields[i].value[j] != 0x2c);
            }
        }
        lemma_split_whole(value, ',' as u8);
        assert forall|k: int| i + 1 <= k < fields.len() implies lowered((#[trigger] fields[k]).name)
            != utf8("host"@) by {}
        lemma_hosts_passed(fields, i + 1, Some(value));
    }
}

proof fn lemma_host_field(fields: Seq<FieldModel>, i: int)
    requires
        0 <= i < fields.len(),
        fields[i].name == utf8("host"@),
        forall|k: int|
            0 <= k < fields.len() && k != i ==> lowered((#[trigger] fields[k]).name) != utf8(
                "host"@,
            ),
        forall|j: int| 0 <= j < fields[i].value.len() ==> #[trigger] fields[i].value[j] != 0x2c,
    ensures
        host_value(fields) == Ok::<Option<Seq<u8>>, Fault>(Some(fields[i].value)),
        only_host_any_case(fields, 0, None) == Ok::<Option<Seq<u8>>, Fault>(Some(fields[i].value)),
{
    let value = fields[i].value;
    lemma_host_reached(fields, 0, i);
    assert forall|j: int| 0 <= j < value.len() implies !ByteClass::Only(',' as u8).has(
        #[trigger] value[j],
    ) by {
        assert(fields[i].value[j] != 0x2c);
    }
}

/// A target that names no authority, as the origin form and the asterisk form do, gets that of
/// the one Host field: a name of dotted labels comes back in lower case, with its port if it has
/// one. A dotted quad comes back as it is.
pub proof fn lemma_host_field_decides(
    target: TargetModel,
    fields: Seq<FieldModel>,
    i: int,
    name: Seq<u8>,
    digits: Seq<u8>,
)
    requires
        target.form is Origin || target.form is Asterisk,
        target.scheme is None,
        target.authority is None,
        0 <= i < fields.len(),
        fields[i].name == utf8("host"@),
        forall|k: int|
            0 <= k < fields.len() && k != i ==> lowered((#[trigger] fields[k]).name) != utf8(
                "host"@,
            ),
        is_dotted(name),
        name.len() <= 253,
    ensures
        fields[i].value == name ==> {
            let read = Ok::<AuthorityModel, Fault>(
                AuthorityModel { host: lowered(name), port: None },
            );
            &&& reconciled(target, fields) == read
            &&& reconciled_in_phases(target, fields) == read
            &&& reconciled_leniently(target, fields) == read
        },
        fields[i].value == name + seq![0x3au8] + digits && is_port(digits) ==> {
            let read = Ok::<AuthorityModel, Fault>(
                AuthorityModel { host: lowered(name), port: Some(decimal(digits) as u16) },
            );
            &&& reconciled(target, fields) == read
            &&& reconciled_in_phases(target, fields) == read
            &&& reconciled_leniently(target, fields) == read
        },
{
    let value = fields[i].value;
    let with_port = name + seq![0x3au8] + digits;
    lemma_names_are_endpoints(name, digits);
    if value == name || (value == with_port && is_port(digits)) {
        assert forall|j: int| 0 <= j < value.len() implies #[trigger] fields[i].value[j] != 0x2c by {
            if j < name.len() {
                assert(value[j] == name[j]);
            } else if j > name.len() {
                assert(value[j] == digits[j - name.len() - 1]);
            }
        }
        lemma_host_field(fields, i);
    }
}

/// In general, where the Host field's value holds no comma, it decides as the endpoint that it
/// is, and is refused where it is none.
pub proof fn lemma_host_field_is_endpoint(target: TargetModel, fields: Seq<FieldModel>, i: int)
    requires
        target.form is Origin || target.form is Asterisk,
        target.scheme is None,
        target.authority is None,
        0 <= i < fields.len(),
        fields[i].name == utf8("host"@),
        forall|k: int|
            0 <= k < fields.len() && k != i ==> lowered((#[trigger] fields[k]).name) != utf8(
                "host"@,
            ),
        forall|j: int| 0 <= j < fields[i].value.len() ==> #[trigger] fields[i].value[j] != 0x2c,
    ensures
        ({
            let read = match endpoint(fields[i].value) {
                Some(named) => Ok::<AuthorityModel, Fault>(named),
                None => Err(Fault::InvalidAuthority),
            };
            &&& reconciled(target, fields) == read
            &&& reconciled_in_phases(target, fields) == read
            &&& reconciled_leniently(target, fields) == read
        }),
{
    lemma_host_field(fields, i);
}

/// Without a Host field a target that names no authority is refused for it, and with two Host
/// fields any target is.
pub proof fn lemma_host_field_is_owed(target: TargetModel, fields: Seq<FieldModel>)
    ensures
        (target.form is Origin || target.form is Asterisk) && target.scheme is None
            && target.authority is None && (forall|k: int|
            0 <= k < fields.len() ==> lowered((#[trigger] fields[k]).name) != utf8("host"@)) ==> {
            &&& reconciled(target, fields) == Err::<AuthorityModel, Fault>(Fault::MissingHost)
            &&& reconciled_in_phases(target, fields) == Err::<AuthorityModel, Fault>(
                Fault::MissingHost,
            )
            &&& reconciled_leniently(target, fields) == Err::<AuthorityModel, Fault>(
                Fault::MissingHost,
            )
        },
        (exists|i: int, j: int|
            0 <= i < j < fields.len() && (#[trigger] fields[i]).name == utf8("host"@) && (
            #[trigger] fields[j]).name == utf8("host"@)) ==> {
            &&& reconciled(target, fields) == Err::<AuthorityModel, Fault>(Fault::MultipleHost)
            &&& reconciled_in_phases(target, fields) == Err::<AuthorityModel, Fault>(
                Fault::MultipleHost,
            )
            &&& reconciled_leniently(target, fields) == Err::<AuthorityModel, Fault>(
                Fault::MultipleHost,
            )
        },
{
    if forall|k: int|
        0 <= k < fields.len() ==> lowered((#[trigger] fields[k]).name) != utf8("host"@) {
        lemma_hosts_passed(fields, 0, None);
    }
    if exists|i: int, j: int|
        0 <= i < j < fields.len() && (#[trigger] fields[i]).name == utf8("host"@) && (
        #[trigger] fields[j]).name == utf8("host"@) {
        let (i, j) = choose|i: int, j: int|
            0 <= i < j < fields.len() && (#[trigger] fields[i]).name == utf8("host"@) && (
            #[trigger] fields[j]).name == utf8("host"@);
        lemma_two_hosts(fields, 0, None, i, j);
    }
}

proof fn lemma_two_hosts(
    fields: Seq<FieldModel>,
    from: int,
    found: Option<Seq<u8>>,
    i: int,
    j: int,
)
    requires
        0 <= from <= j < fields.len(),
        fields[j].name == utf8("host"@),
        found is Some || from <= i < j,
        0 <= i < j,
        fields[i].name == utf8("host"@),
    ensures
        only_host(fields, from, found) == Err::<Option<Seq<u8>>, Fault>(Fault::MultipleHost),
        only_host_any_case(fields, from, found) == Err::<Option<Seq<u8>>, Fault>(
            Fault::MultipleHost,
        ),
    decreases j - from,
{
    lemma_host_is_lower();
    if is_host(fields[from]) && found is None && from < j {
        lemma_two_hosts(fields, from + 1, Some(fields[from].value), i, j);
    } else if !is_host(fields[from]) {
        lemma_two_hosts(fields, from + 1, found, i, j);
        if is_host_any_case(fields[from]) && found is None {
            lemma_two_hosts(fields, from + 1, Some(fields[from].value), i, j);
        }
    }
}

/// A target in absolute form names its authority: the port that its scheme stands for, 80 for
/// http and 443 for https, is left out. A Host field beside it has to name the same endpoint, and
/// to leave the scheme's port out or to give it is the same.
pub proof fn lemma_absolute_form_decides(
    target: TargetModel,
    fields: Seq<FieldModel>,
    text: Seq<u8>,
    default: u16,
)
    requires
        target.form is Absolute,
        target.scheme == Some(utf8("http"@)) && default == 80 || target.scheme == Some(
            utf8("https"@),
        ) && default == 443,
        target.authority == Some(text),
    ensures
        ({
            let read = match endpoint(text) {
                Some(named) => Ok::<AuthorityModel, Fault>(
                    AuthorityModel {
                        host: named.host,
                        port: if named.port == Some(default) {
                            None
                        } else {
                            named.port
                        },
                    },
                ),
                None => Err(Fault::InvalidAuthority),
            };
            &&& (forall|k: int|
                0 <= k < fields.len() ==> lowered((#[trigger] fields[k]).name) != utf8("host"@))
                ==> reconciled(target, fields) == read && reconciled_in_phases(target, fields)
                == read && reconciled_leniently(target, fields) == read
            &&& forall|i: int|
                {
                    &&& 0 <= i < fields.len()
                    &&& (#[trigger] fields[i]).name == utf8("host"@)
                    &&& forall|k: int|
                        0 <= k < fields.len() && k != i ==> lowered((#[trigger] fields[k]).name)
                            != utf8("host"@)
                    &&& forall|j: int|
                        0 <= j < fields[i].value.len() ==> #[trigger] fields[i].value[j] != 0x2c
                    &&& endpoint(text) is Some
                    &&& endpoint(fields[i].value) is Some
                } ==> {
                    let one = endpoint(text).unwrap();
                    let other = endpoint(fields[i].value).unwrap();
                    let same = one.host == other.host && (one.port == other.port || (one.port is None
                        && other.port == Some(default)) || (one.port == Some(default)
                        && other.port is None));
                    let told = if same {
                        read
                    } else {
                        Err(Fault::AuthorityMismatch)
                    };
                    reconciled(target, fields) == told && reconciled_in_phases(target, fields)
                        == told && reconciled_leniently(target, fields) == told
                }
        }),
{
    reveal_strlit("http");
    reveal_strlit("https");
    lemma_ascii_literal("http"@);
    lemma_ascii_literal("https"@);
    assert(utf8("http"@).len() == 4);
    assert(utf8("https"@).len() == 5);
    if forall|k: int|
        0 <= k < fields.len() ==> lowered((#[trigger] fields[k]).name) != utf8("host"@) {
        lemma_hosts_passed(fields, 0, None);
    }
    assert(shaped(target) == Some(Some(default)));
    assert(scheme_default(target) == Some(default));
    assert forall|i: int|
        {
            &&& 0 <= i < fields.len()
            &&& (#[trigger] fields[i]).name == utf8("host"@)
            &&& forall|k: int|
                0 <= k < fields.len() && k != i ==> lowered((#[trigger] fields[k]).name) != utf8(
                    "host"@,
                )
            &&& forall|j: int|
                0 <= j < fields[i].value.len() ==> #[trigger] fields[i].value[j] != 0x2c
            &&& endpoint(text) is Some
            &&& endpoint(fields[i].value) is Some
        } implies {
        let one = endpoint(text).unwrap();
        let other = endpoint(fields[i].value).unwrap();
        let same = one.host == other.host && (one.port == other.port || (one.port is None
            && other.port == Some(default)) || (one.port == Some(default) && other.port is None));
        let read = Ok::<AuthorityModel, Fault>(
            AuthorityModel {
                host: one.host,
                port: if one.port == Some(default) {
                    None
                } else {
                    one.port
                },
            },
        );
        let told = if same {
            read
        } else {
            Err(Fault::AuthorityMismatch)
        };
        reconciled(target, fields) == told && reconciled_in_phases(target, fields) == told
            && reconciled_leniently(target, fields) == told
    } by {
        lemma_host_field(fields, i);
    }
}

/// A target in authority form names its authority with its port, and a Host field beside it has
/// to name the same host and the same port.
pub proof fn lemma_authority_form_decides(
    target: TargetModel,
    fields: Seq<FieldModel>,
    text: Seq<u8>,
)
    requires
        target.form is Authority,
        target.scheme is None,
        target.authority == Some(text),
        endpoint(text) is Some,
    ensures
        ({
            let read = Ok::<AuthorityModel, Fault>(endpoint(text).unwrap());
            &&& (forall|k: int|
                0 <= k < fields.len() ==> lowered((#[trigger] fields[k]).name) != utf8("host"@))
                ==> reconciled(target, fields) == read && reconciled_in_phases(target, fields)
                == read && reconciled_leniently(target, fields) == read
            &&& forall|i: int|
                {
                    &&& 0 <= i < fields.len()
                    &&& (#[trigger] fields[i]).name == utf8("host"@)
                    &&& forall|k: int|
                        0 <= k < fields.len() && k != i ==> lowered((#[trigger] fields[k]).name)
                            != utf8("host"@)
                    &&& forall|j: int|
                        0 <= j < fields[i].value.len() ==> #[trigger] fields[i].value[j] != 0x2c
                    &&& endpoint(fields[i].value) is Some
                } ==> {
                    let told = if endpoint(text) == endpoint(fields[i].value) {
                        read
                    } else {
                        Err(Fault::AuthorityMismatch)
                    };
                    reconciled(target, fields) == told && reconciled_in_phases(target, fields)
                        == told && reconciled_leniently(target, fields) == told
                }
        }),
{
    if forall|k: int|
        0 <= k < fields.len() ==> lowered((#[trigger] fields[k]).name) != utf8("host"@) {
        lemma_hosts_passed(fields, 0, None);
    }
    assert forall|i: int|
        {
            &&& 0 <= i < fields.len()
            &&& (#[trigger] fields[i]).name == utf8("host"@)
            &&& forall|k: int|
                0 <= k < fields.len() && k != i ==> lowered((#[trigger] fields[k]).name) != utf8(
                    "host"@,
                )
            &&& forall|j: int|
                0 <= j < fields[i].value.len() ==> #[trigger] fields[i].value[j] != 0x2c
            &&& endpoint(fields[i].value) is Some
        } implies {
        let told = if endpoint(text) == endpoint(fields[i].value) {
            Ok::<AuthorityModel, Fault>(endpoint(text).unwrap())
        } else {
            Err(Fault::AuthorityMismatch)
        };
        reconciled(target, fields) == told && reconciled_in_phases(target, fields) == told
            && reconciled_leniently(target, fields) == told
    } by {
        lemma_host_field(fields, i);
    }
}

/// Every host that is made up of labels, with dots between them, is taken from the Host field of
/// a target that names no authority, and comes back in lower case, with its port if it has one:
/// a label is one to 63 letters, digits and hyphens, of which the first and the last are no
/// hyphens.
pub proof fn lemma_labels_are_taken(
    target: TargetModel,
    fields: Seq<FieldModel>,
    i: int,
    labels: Seq<Seq<u8>>,
    digits: Seq<u8>,
)
    requires
        target.form is Origin || target.form is Asterisk,
        target.scheme is None,
        target.authority is None,
        0 <= i < fields.len(),
        fields[i].name == utf8("host"@),
        forall|k: int|
            0 <= k < fields.len() && k != i ==> lowered((#[trigger] fields[k]).name) != utf8(
                "host"@,
            ),
        labels.len() >= 1,
        forall|k: int|
            0 <= k < labels.len() ==> {
                let label = #[trigger] labels[k];
                &&& 1 <= label.len() <= 63
                &&& label[0] != 0x2d
                &&& label[label.len() - 1] != 0x2d
                &&& forall|j: int|
                    0 <= j < label.len() ==> #[trigger] label[j] == 0x2d || 0x30 <= label[j] <= 0x39
                        || 0x41 <= label[j] <= 0x5a || 0x61 <= label[j] <= 0x7a
            },
        with_between(labels, 0x2e).len() <= 253,
    ensures
        fields[i].value == with_between(labels, 0x2e) ==> {
            let read = Ok::<AuthorityModel, Fault>(
                AuthorityModel { host: lowered(with_between(labels, 0x2e)), port: None },
            );
            &&& reconciled(target, fields) == read
            &&& reconciled_in_phases(target, fields) == read
            &&& reconciled_leniently(target, fields) == read
        },
        fields[i].value == with_between(labels, 0x2e) + seq![0x3au8] + digits && is_port(digits)
            ==> {
            let read = Ok::<AuthorityModel, Fault>(
                AuthorityModel {
                    host: lowered(with_between(labels, 0x2e)),
                    port: Some(decimal(digits) as u16),
                },
            );
            &&& reconciled(target, fields) == read
            &&& reconciled_in_phases(target, fields) == read
            &&& reconciled_leniently(target, fields) == read
        },
{
    lemma_labels_make_hosts(labels, digits);
    lemma_host_field_decides(target, fields, i, with_between(labels, 0x2e), digits);
}

/// Every dotted quad is taken from the Host field in the same way, and comes back as it is.
pub proof fn lemma_quads_are_taken(
    target: TargetModel,
    fields: Seq<FieldModel>,
    i: int,
    a: u8,
    b: u8,
    c: u8,
    d: u8,
    digits: Seq<u8>,
)
    requires
        target.form is Origin || target.form is Asterisk,
        target.scheme is None,
        target.authority is None,
        0 <= i < fields.len(),
        fields[i].name == utf8("host"@),
        forall|k: int|
            0 <= k < fields.len() && k != i ==> lowered((#[trigger] fields[k]).name) != utf8(
                "host"@,
            ),
    ensures
        ({
            let text = digits_of(a as nat) + seq![0x2eu8] + digits_of(b as nat) + seq![0x2eu8]
                + digits_of(c as nat) + seq![0x2eu8] + digits_of(d as nat);
            &&& fields[i].value == text ==> {
                let read = Ok::<AuthorityModel, Fault>(AuthorityModel { host: text, port: None });
                &&& reconciled(target, fields) == read
                &&& reconciled_in_phases(target, fields) == read
                &&& reconciled_leniently(target, fields) == read
            }
            &&& fields[i].value == text + seq![0x3au8] + digits && is_port(digits) ==> {
                let read = Ok::<AuthorityModel, Fault>(
                    AuthorityModel { host: text, port: Some(decimal(digits) as u16) },
                );
                &&& reconciled(target, fields) == read
                &&& reconciled_in_phases(target, fields) == read
                &&& reconciled_leniently(target, fields) == read
            }
        }),
{
    lemma_quads_are_hosts(a, b, c, d, digits);
    lemma_host_field_decides(target, fields, i, quad(a, b, c, d), digits);
}

proof fn lemma_list_reached(fields: Seq<FieldModel>, from: int, i: int)
    requires
        0 <= from <= i < fields.len(),
        fields[i].name == utf8("host"@),
        forall|k: int|
            0 <= k < fields.len() && k != i ==> lowered((#[trigger] fields[k]).name) != utf8(
                "host"@,
            ),
    ensures
        only_host(fields, from, None) == Ok::<Option<Seq<u8>>, Fault>(Some(fields[i].value)),
        only_host_any_case(fields, from, None) == if split(fields[i].value, ',' as u8).len() > 1
            && members_repeat(fields[i].value) {
            Err(Fault::MultipleHost)
        } else {
            Ok::<Option<Seq<u8>>, Fault>(Some(fields[i].value))
        },
    decreases i - from,
{
    lemma_host_is_lower();
    if from < i {
        assert(lowered(fields[from].name) != utf8("host"@));
        lemma_list_reached(fields, from + 1, i);
    } else {
        assert forall|k: int| i + 1 <= k < fields.len() implies lowered((#[trigger] fields[k]).name)
            != utf8("host"@) by {}
        lemma_hosts_passed(fields, i + 1, Some(fields[i].value));
    }
}

/// A Host field with a comma in its value is refused, whatever the target: as several hosts where
/// the members are all the same and not empty, else as an invalid authority. The lenient reading
/// takes empty members that are all the same for several hosts, too.
pub proof fn lemma_host_list_is_refused(target: TargetModel, fields: Seq<FieldModel>, i: int)
    requires
        0 <= i < fields.len(),
        fields[i].name == utf8("host"@),
        forall|k: int|
            0 <= k < fields.len() && k != i ==> lowered((#[trigger] fields[k]).name) != utf8(
                "host"@,
            ),
        fields[i].value.contains(0x2cu8),
    ensures
        ({
            let members = split(fields[i].value, 0x2c);
            let same = forall|k: int|
                0 <= k < members.len() ==> #[trigger] members[k] == members[0];
            let strict = Err::<AuthorityModel, Fault>(
                if same && members[0].len() > 0 {
                    Fault::MultipleHost
                } else {
                    Fault::InvalidAuthority
                },
            );
            &&& reconciled(target, fields) == strict
            &&& reconciled_in_phases(target, fields) == strict
            &&& reconciled_leniently(target, fields) == Err::<AuthorityModel, Fault>(
                if same {
                    Fault::MultipleHost
                } else {
                    Fault::InvalidAuthority
                },
            )
        }),
{
    let value = fields[i].value;
    let members = split(value, 0x2c);
    let c = choose|c: int| 0 <= c < value.len() && value[c] == 0x2c;
    assert(ByteClass::Only(',' as u8).has(value[c]));
    lemma_list_reached(fields, 0, i);
    lemma_split_joins(value, 0x2c);
    if members.len() == 1 {
        assert(with_between(members, 0x2c) == members[0]);
        assert(split(value, 0x2c)[0][c] != 0x2c);
    }
    let same = forall|k: int| 0 <= k < members.len() ==> #[trigger] members[k] == members[0];
    assert(same == members_repeat(value)) by {
        if members_repeat(value) {
            assert forall|k: int| 0 <= k < members.len() implies #[trigger] members[k]
                == members[0] by {
                assert(split(value, ',' as u8)[k] == split(value, ',' as u8)[0]);
            }
        }
        if same {
            assert forall|k: int| 0 <= k < split(value, ',' as u8).len() implies #[trigger] split(
                value,
                ',' as u8,
            )[k] == split(value, ',' as u8)[0] by {
                assert(members[k] == members[0]);
            }
        }
    }
    if endpoint(value) is Some {
        lemma_endpoint_bytes(value);
        assert(ByteClass::Authority.has(value[c]));
    }
}

} // verus!
