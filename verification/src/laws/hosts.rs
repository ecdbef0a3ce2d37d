//! Hosts and ports, said of their bytes.

use vstd::prelude::*;
use crate::bytes::{
    ByteClass, all_in, any_in, first_in, lemma_first_in, lemma_first_in_unique, lowered, split,
};
use crate::decimal::{decimal, digits_of, lemma_digits_of};
use crate::host::{endpoint, is_dns_label, is_dns_name, port_number, without_final_dot};
use crate::ip::{
    ipv4_octets, is_ipv4, is_ipv6, is_ipv6_byte, is_octet, lemma_ipv4_bytes, lemma_ipv6_bytes,
};
use crate::ip_round_trip::{lemma_split_push, lemma_split_whole};
use crate::laws::byte_text::{
    lemma_decimal_writes, lemma_joined_splits, lemma_split_joins, with_between,
};
use crate::types::AuthorityModel;

verus! {

/// Whether one of the bytes from `from` up to `to` is a dot.
pub open spec fn has_dot(s: Seq<u8>, from: int, to: int) -> bool {
    exists|j: int| from <= j < to && #[trigger] s[j] == 0x2e
}

/// A name of dotted labels: letters, digits, hyphens and dots, of which no dot stands at an end
/// or beside another one, no hyphen at an end or beside a dot, and no 64 bytes in a row are
/// without a dot.
pub open spec fn is_dotted(s: Seq<u8>) -> bool {
    &&& s.len() >= 1
    &&& forall|i: int|
        0 <= i < s.len() ==> 0x2d <= #[trigger] s[i] <= 0x2e || 0x30 <= s[i] <= 0x39 || 0x41 <= s[i]
            <= 0x5a || 0x61 <= s[i] <= 0x7a
    &&& s[0] != 0x2d && s[0] != 0x2e && s[s.len() - 1] != 0x2d && s[s.len() - 1] != 0x2e
    &&& forall|i: int, j: int|
        0 <= i && j == i + 1 && j < s.len() && (#[trigger] s[i] == 0x2e || s[i] == 0x2d)
            && #[trigger] s[j] == 0x2e ==> false
    &&& forall|i: int, j: int|
        0 <= i && j == i + 1 && j < s.len() && #[trigger] s[i] == 0x2e && #[trigger] s[j] == 0x2d
            ==> false
    &&& forall|i: int| 0 <= i && i + 64 <= s.len() ==> #[trigger] has_dot(s, i, i + 64)
}

proof fn lemma_dotted_labels(s: Seq<u8>)
    requires
        is_dotted(s),
    ensures
        forall|k: int| 0 <= k < split(s, 0x2e).len() ==> is_dns_label(#[trigger] split(s, 0x2e)[k]),
    decreases s.len(),
{
    let only = ByteClass::Only(0x2eu8);
    lemma_first_in(s, only);
    let i = first_in(s, only);
    let pieces = split(s, 0x2e);
    if i >= 64 {
        assert(has_dot(s, 0int, 0int + 64));
        let j = choose|j: int| 0 <= j < 64 && #[trigger] s[j] == 0x2e;
        assert(!only.has(s[j]));
    }
    let first = s.take(i);
    assert(i > 0);
    if i < s.len() {
        assert(s[i - 1] != 0x2d) by {
            if s[i - 1] == 0x2d {
                assert(s[i] == 0x2e);
            }
        }
    }
    assert(is_dns_label(first)) by {
        assert(first[0] == s[0]);
        assert(first.last() == s[i - 1]);
        assert forall|j: int| 0 <= j < first.len() implies ByteClass::Label.has(#[trigger] first[j]) by {
            assert(first[j] == s[j]);
            assert(!only.has(s[j]));
        }
    }
    if i < s.len() {
        let rest = s.skip(i + 1);
        assert(i < s.len() - 1);
        assert(rest[0] == s[i + 1]);
        assert(s[i] == 0x2e);
        assert(is_dotted(rest)) by {
            assert forall|j: int| 0 <= j < rest.len() implies 0x2d <= #[trigger] rest[j] <= 0x2e
                || 0x30 <= rest[j] <= 0x39 || 0x41 <= rest[j] <= 0x5a || 0x61 <= rest[j] <= 0x7a by {
                assert(rest[j] == s[i + 1 + j]);
            }
            assert forall|a: int, b: int|
                0 <= a && b == a + 1 && b < rest.len() && (#[trigger] rest[a] == 0x2e || rest[a]
                    == 0x2d) && #[trigger] rest[b] == 0x2e implies false by {
                assert(rest[a] == s[i + 1 + a]);
                assert(rest[b] == s[i + 1 + b]);
            }
            assert forall|a: int, b: int|
                0 <= a && b == a + 1 && b < rest.len() && #[trigger] rest[a] == 0x2e
                    && #[trigger] rest[b] == 0x2d implies false by {
                assert(rest[a] == s[i + 1 + a]);
                assert(rest[b] == s[i + 1 + b]);
            }
            assert forall|a: int| 0 <= a && a + 64 <= rest.len() implies #[trigger] has_dot(
                rest,
                a,
                a + 64,
            ) by {
                let c = i + 1 + a;
                assert(has_dot(s, c, c + 64));
                let j = choose|j: int| c <= j < c + 64 && #[trigger] s[j] == 0x2e;
                assert(rest[j - i - 1] == 0x2e);
            }
            assert(rest[rest.len() - 1] == s[s.len() - 1]);
        }
        lemma_dotted_labels(rest);
        assert(pieces =~= seq![first] + split(rest, 0x2e));
        assert forall|k: int| 0 <= k < pieces.len() implies is_dns_label(#[trigger] pieces[k]) by {
            if k > 0 {
                assert(pieces[k] == split(rest, 0x2e)[k - 1]);
            }
        }
    } else {
        assert(first =~= s);
        assert(pieces =~= seq![s]);
    }
}

proof fn lemma_labels_dotted(s: Seq<u8>)
    requires
        forall|k: int| 0 <= k < split(s, 0x2e).len() ==> is_dns_label(#[trigger] split(s, 0x2e)[k]),
    ensures
        is_dotted(s),
    decreases s.len(),
{
    let only = ByteClass::Only(0x2eu8);
    lemma_first_in(s, only);
    let i = first_in(s, only);
    let pieces = split(s, 0x2e);
    let first = s.take(i);
    assert(pieces[0] == first) by {
        if i >= s.len() {
            assert(first =~= s);
        }
    }
    assert(is_dns_label(first));
    assert forall|j: int| 0 <= j < i implies #[trigger] s[j] == 0x2d || 0x30 <= s[j] <= 0x39 || 0x41
        <= s[j] <= 0x5a || 0x61 <= s[j] <= 0x7a by {
        assert(s[j] == first[j]);
        assert(ByteClass::Label.has(first[j]));
    }
    assert(s[0] == first[0]);
    assert(s[i - 1] == first.last());
    if i < s.len() {
        let rest = s.skip(i + 1);
        assert(pieces =~= seq![first] + split(rest, 0x2e));
        assert forall|k: int| 0 <= k < split(rest, 0x2e).len() implies is_dns_label(
            #[trigger] split(rest, 0x2e)[k],
        ) by {
            assert(pieces[k + 1] == split(rest, 0x2e)[k]);
        }
        lemma_labels_dotted(rest);
        assert(rest[0] == s[i + 1]);
        assert(rest[rest.len() - 1] == s[s.len() - 1]);
        assert forall|j: int| 0 <= j < s.len() implies 0x2d <= #[trigger] s[j] <= 0x2e || 0x30
            <= s[j] <= 0x39 || 0x41 <= s[j] <= 0x5a || 0x61 <= s[j] <= 0x7a by {
            if j > i {
                assert(rest[j - i - 1] == s[j]);
            }
        }
        assert forall|a: int, b: int|
            0 <= a && b == a + 1 && b < s.len() && (#[trigger] s[a] == 0x2e || s[a] == 0x2d)
                && #[trigger] s[b] == 0x2e implies false by {
            if a > i {
                assert(rest[a - i - 1] == s[a]);
                assert(rest[b - i - 1] == s[b]);
            }
        }
        assert forall|a: int, b: int|
            0 <= a && b == a + 1 && b < s.len() && #[trigger] s[a] == 0x2e && #[trigger] s[b]
                == 0x2d implies false by {
            if a > i {
                assert(rest[a - i - 1] == s[a]);
                assert(rest[b - i - 1] == s[b]);
            }
        }
        assert forall|a: int| 0 <= a && a + 64 <= s.len() implies #[trigger] has_dot(
            s,
            a,
            a + 64,
        ) by {
            if a <= i {
                assert(s[i] == 0x2e);
            } else {
                let c = a - i - 1;
                assert(has_dot(rest, c, c + 64));
                let j = choose|j: int| c <= j < c + 64 && #[trigger] rest[j] == 0x2e;
                assert(s[j + i + 1] == 0x2e);
            }
        }
    } else {
        assert(first =~= s);
    }
}

/// A DNS name is a name of dotted labels of at most 253 bytes: each label has one to 63 letters,
/// digits and hyphens, of which the first and the last are no hyphens.
pub proof fn lemma_dns_names(s: Seq<u8>)
    ensures
        is_dns_name(s) <==> is_dotted(s) && s.len() <= 253,
{
    if is_dotted(s) {
        lemma_dotted_labels(s);
    }
    if is_dns_name(s) {
        assert forall|k: int| 0 <= k < split(s, 0x2e).len() implies is_dns_label(
            #[trigger] split(s, 0x2e)[k],
        ) by {
            assert(is_dns_label(split(s, '.' as u8)[k]));
        }
        lemma_labels_dotted(s);
    }
}

/// A label is one to 63 letters, digits and hyphens that neither begin nor end with a hyphen.
pub proof fn lemma_dns_labels(s: Seq<u8>)
    ensures
        is_dns_label(s) <==> {
            &&& 1 <= s.len() <= 63
            &&& s[0] != 0x2d
            &&& s[s.len() - 1] != 0x2d
            &&& forall|i: int|
                0 <= i < s.len() ==> #[trigger] s[i] == 0x2d || 0x30 <= s[i] <= 0x39 || 0x41 <= s[i]
                    <= 0x5a || 0x61 <= s[i] <= 0x7a
        },
{
    if 1 <= s.len() && forall|i: int|
        0 <= i < s.len() ==> #[trigger] s[i] == 0x2d || 0x30 <= s[i] <= 0x39 || 0x41 <= s[i] <= 0x5a
            || 0x61 <= s[i] <= 0x7a {
        assert(all_in(s, ByteClass::Label));
    }
    if all_in(s, ByteClass::Label) {
        assert forall|i: int| 0 <= i < s.len() implies #[trigger] s[i] == 0x2d || 0x30 <= s[i]
            <= 0x39 || 0x41 <= s[i] <= 0x5a || 0x61 <= s[i] <= 0x7a by {
            assert(ByteClass::Label.has(s[i]));
        }
    }
}

/// Whether a text is a port: decimal digits that stand for a number from 1 to 65535.
pub open spec fn is_port(digits: Seq<u8>) -> bool {
    &&& digits.len() >= 1
    &&& forall|i: int| 0 <= i < digits.len() ==> 0x30 <= #[trigger] digits[i] <= 0x39
    &&& 1 <= decimal(digits) <= 65535
}

/// The port that a text gives, where it gives one.
pub proof fn lemma_ports(digits: Seq<u8>)
    ensures
        is_port(digits) ==> port_number(digits) == Some(decimal(digits) as u16),
        !is_port(digits) ==> port_number(digits) is None,
{
    assert(all_in(digits, ByteClass::Digit) <==> forall|i: int|
        0 <= i < digits.len() ==> 0x30 <= #[trigger] digits[i] <= 0x39) by {
        if all_in(digits, ByteClass::Digit) {
            assert forall|i: int| 0 <= i < digits.len() implies 0x30 <= #[trigger] digits[i]
                <= 0x39 by {
                assert(ByteClass::Digit.has(digits[i]));
            }
        }
    }
}

/// Every name of dotted labels of at most 253 bytes is an endpoint, with a dot behind it or
/// without and with a port behind a colon or without: its host is the name in lower case.
pub proof fn lemma_names_are_endpoints(name: Seq<u8>, digits: Seq<u8>)
    requires
        is_dotted(name),
        name.len() <= 253,
    ensures
        endpoint(name) == Some(AuthorityModel { host: lowered(name), port: None }),
        endpoint(name + seq![0x2eu8]) == Some(AuthorityModel { host: lowered(name), port: None }),
        is_port(digits) ==> endpoint(name + seq![0x3au8] + digits) == Some(
            AuthorityModel { host: lowered(name), port: Some(decimal(digits) as u16) },
        ),
        is_port(digits) ==> endpoint(name + seq![0x2eu8] + seq![0x3au8] + digits) == Some(
            AuthorityModel { host: lowered(name), port: Some(decimal(digits) as u16) },
        ),
        !is_port(digits) ==> endpoint(name + seq![0x3au8] + digits) is None,
{
    let dotted = name + seq![0x2eu8];
    let none = Seq::<u8>::empty();
    lemma_dns_names(name);
    lemma_ports(digits);
    lemma_dns_endpoint(name, name, none);
    lemma_dns_endpoint(dotted, name, none);
    lemma_dns_endpoint(name, name, seq![0x3au8] + digits);
    lemma_dns_endpoint(dotted, name, seq![0x3au8] + digits);
    assert(name + none =~= name);
    assert(dotted + none =~= dotted);
    assert(name + (seq![0x3au8] + digits) =~= name + seq![0x3au8] + digits);
    assert(dotted + (seq![0x3au8] + digits) =~= dotted + seq![0x3au8] + digits);
    assert((seq![0x3au8] + digits).skip(1) =~= digits);
}

proof fn lemma_dns_endpoint(written: Seq<u8>, name: Seq<u8>, rest: Seq<u8>)
    requires
        is_dotted(name),
        name.len() <= 253,
        written == name || written == name + seq![0x2eu8],
        rest.len() == 0 || rest[0] == 0x3a,
    ensures
        endpoint(written + rest) == if rest.len() == 0 {
            Some(AuthorityModel { host: lowered(name), port: None })
        } else if port_number(rest.skip(1)) is Some {
            Some(AuthorityModel { host: lowered(name), port: port_number(rest.skip(1)) })
        } else {
            None
        },
{
    let s = written + rest;
    let only = ByteClass::Only(0x3au8);
    let n = written.len() as int;
    lemma_dns_names(name);
    assert forall|j: int| 0 <= j < n implies !only.has(#[trigger] s[j]) by {
        assert(s[j] == written[j]);
        if j < name.len() {
            assert(written[j] == name[j]);
        }
    }
    if rest.len() > 0 {
        assert(s[n] == rest[0]);
    }
    lemma_first_in_unique(s, only, n);
    assert(s.take(n) =~= written);
    assert(s[0] == name[0]);
    assert(without_final_dot(written) =~= name) by {
        if written != name {
            assert(written.drop_last() =~= name);
        }
    }
    if rest.len() > 0 {
        assert(s.skip(n + 1) =~= rest.skip(1));
    }
}

/// An endpoint that does not begin with a bracket is a name of dotted labels of at most 253
/// bytes, a dot or none, and a port behind a colon or none.
pub proof fn lemma_endpoints_are_names(s: Seq<u8>)
    requires
        endpoint(s) is Some,
        s[0] != 0x5b,
    ensures
        exists|name: Seq<u8>, rest: Seq<u8>|
            #![trigger name + rest]
            {
                &&& is_dotted(name)
                &&& name.len() <= 253
                &&& endpoint(s).unwrap().host == lowered(name)
                &&& s == name + rest || s == name + seq![0x2eu8] + rest
                &&& match endpoint(s).unwrap().port {
                    None => rest.len() == 0,
                    Some(port) => rest.len() >= 1 && rest[0] == 0x3a && is_port(rest.skip(1))
                        && decimal(rest.skip(1)) == port,
                }
            },
{
    let only = ByteClass::Only(0x3au8);
    lemma_first_in(s, only);
    let colon = first_in(s, only);
    let written = s.take(colon);
    let name = without_final_dot(written);
    let rest = s.skip(colon);
    lemma_dns_names(name);
    lemma_ports(s.skip(colon + 1));
    assert(s =~= written + rest);
    if written != name {
        assert(written =~= name + seq![0x2eu8]);
    }
    if colon < s.len() {
        assert(rest.skip(1) =~= s.skip(colon + 1));
        assert(rest[0] == s[colon]);
    }
    assert(name + rest == name + rest);
}

/// An IPv6 address in brackets is an endpoint, with a port behind a colon or without.
pub proof fn lemma_brackets_are_endpoints(inner: Seq<u8>, digits: Seq<u8>)
    requires
        is_ipv6(inner),
    ensures
        ({
            let text = seq![0x5bu8] + inner + seq![0x5du8];
            &&& endpoint(text) == Some(AuthorityModel { host: lowered(text), port: None })
            &&& is_port(digits) ==> endpoint(text + seq![0x3au8] + digits) == Some(
                AuthorityModel { host: lowered(text), port: Some(decimal(digits) as u16) },
            )
            &&& !is_port(digits) ==> endpoint(text + seq![0x3au8] + digits) is None
        }),
{
    let text = seq![0x5bu8] + inner + seq![0x5du8];
    let longer = text + seq![0x3au8] + digits;
    let only = ByteClass::Only(0x5du8);
    let close = inner.len() as int + 1;
    lemma_ipv6_bytes(inner);
    lemma_ports(digits);
    assert forall|j: int| 0 <= j < close implies !only.has(#[trigger] text[j]) by {
        if j > 0 {
            assert(text[j] == inner[j - 1]);
            assert(is_ipv6_byte(inner[j - 1]));
        }
    }
    assert forall|j: int| 0 <= j < close implies !only.has(#[trigger] longer[j]) by {
        assert(longer[j] == text[j]);
    }
    assert(text[close] == 0x5d);
    assert(longer[close] == text[close]);
    lemma_first_in_unique(text, only, close);
    lemma_first_in_unique(longer, only, close);
    assert(text.subrange(1, close) =~= inner);
    assert(longer.subrange(1, close) =~= inner);
    assert(text.take(close + 1) =~= text);
    assert(longer.take(close + 1) =~= text);
    assert(text.skip(close + 1).len() == 0);
    let rest = longer.skip(close + 1);
    assert(rest =~= seq![0x3au8] + digits);
    assert(rest.skip(1) =~= digits);
}

/// The dotted quad of four numbers.
pub open spec fn quad(a: u8, b: u8, c: u8, d: u8) -> Seq<u8> {
    digits_of(a as nat) + seq![0x2eu8] + digits_of(b as nat) + seq![0x2eu8] + digits_of(c as nat)
        + seq![0x2eu8] + digits_of(d as nat)
}

proof fn lemma_octet_digits(n: u8)
    ensures
        is_octet(digits_of(n as nat)),
        decimal(digits_of(n as nat)) == n,
        is_dns_label(digits_of(n as nat)),
        !any_in(digits_of(n as nat), ByteClass::Only(0x2eu8)),
        lowered(digits_of(n as nat)) == digits_of(n as nat),
{
    let digits = digits_of(n as nat);
    lemma_decimal_writes(n as nat);
    lemma_digits_of(n as nat);
    assert(digits.len() <= 3) by {
        reveal_with_fuel(digits_of, 4);
    }
    assert forall|i: int| 0 <= i < digits.len() implies ByteClass::Label.has(#[trigger] digits[i])
        && !ByteClass::Only(0x2eu8).has(digits[i]) by {
        assert(0x30 <= digits[i] <= 0x39);
    }
    assert(0x30 <= digits[0] <= 0x39);
    assert(0x30 <= digits[digits.len() - 1] <= 0x39);
    assert(lowered(digits) =~= digits) by {
        assert forall|i: int| 0 <= i < digits.len() implies lowered(digits)[i] == digits[i] by {
            assert(0x30 <= digits[i] <= 0x39);
        }
    }
}

proof fn lemma_octet_is_digits(s: Seq<u8>)
    requires
        is_octet(s),
    ensures
        s == digits_of(decimal(s)),
        decimal(s) <= 255,
{
    reveal_with_fuel(decimal, 4);
    reveal_with_fuel(digits_of, 4);
    assert(ByteClass::Digit.has(s[0]));
    if s.len() == 1 {
        assert(s =~= digits_of(decimal(s)));
    } else if s.len() == 2 {
        assert(ByteClass::Digit.has(s[1]));
        assert(s.drop_last()[0] == s[0]);
        let n = decimal(s);
        assert(n == (s[0] - 0x30) * 10 + (s[1] - 0x30));
        assert(n / 10 == s[0] - 0x30);
        assert(s =~= digits_of(n));
    } else {
        assert(ByteClass::Digit.has(s[1]));
        assert(ByteClass::Digit.has(s[2]));
        assert(s.drop_last()[0] == s[0]);
        assert(s.drop_last()[1] == s[1]);
        assert(s.drop_last().drop_last()[0] == s[0]);
        let n = decimal(s);
        assert(n == (s[0] - 0x30) * 100 + (s[1] - 0x30) * 10 + (s[2] - 0x30));
        assert(n / 10 == (s[0] - 0x30) * 10 + (s[1] - 0x30));
        assert(n / 10 / 10 == s[0] - 0x30);
        assert(s =~= digits_of(n));
    }
}

proof fn lemma_quad_split(a: u8, b: u8, c: u8, d: u8)
    ensures
        split(quad(a, b, c, d), 0x2e) == seq![
            digits_of(a as nat),
            digits_of(b as nat),
            digits_of(c as nat),
            digits_of(d as nat),
        ],
{
    let one = digits_of(a as nat);
    let two = one + seq![0x2eu8] + digits_of(b as nat);
    let three = two + seq![0x2eu8] + digits_of(c as nat);
    lemma_octet_digits(a);
    lemma_octet_digits(b);
    lemma_octet_digits(c);
    lemma_octet_digits(d);
    lemma_split_whole(one, 0x2e);
    lemma_split_push(one, 0x2e, digits_of(b as nat));
    lemma_split_push(two, 0x2e, digits_of(c as nat));
    lemma_split_push(three, 0x2e, digits_of(d as nat));
    assert(split(quad(a, b, c, d), 0x2e) =~= seq![
        digits_of(a as nat),
        digits_of(b as nat),
        digits_of(c as nat),
        digits_of(d as nat),
    ]);
}

/// Every dotted quad of numbers up to 255 is an IPv4 address, and as a host it comes back as it
/// is, with a port behind a colon or without.
pub proof fn lemma_quads_are_hosts(a: u8, b: u8, c: u8, d: u8, digits: Seq<u8>)
    ensures
        is_ipv4(quad(a, b, c, d)),
        ipv4_octets(quad(a, b, c, d)) == seq![a, b, c, d],
        is_dotted(quad(a, b, c, d)),
        quad(a, b, c, d).len() <= 15,
        lowered(quad(a, b, c, d)) == quad(a, b, c, d),
        endpoint(quad(a, b, c, d)) == Some(
            AuthorityModel { host: quad(a, b, c, d), port: None },
        ),
        is_port(digits) ==> endpoint(quad(a, b, c, d) + seq![0x3au8] + digits) == Some(
            AuthorityModel { host: quad(a, b, c, d), port: Some(decimal(digits) as u16) },
        ),
{
    let s = quad(a, b, c, d);
    lemma_octet_digits(a);
    lemma_octet_digits(b);
    lemma_octet_digits(c);
    lemma_octet_digits(d);
    lemma_quad_split(a, b, c, d);
    assert(ipv4_octets(s) =~= seq![a, b, c, d]);
    lemma_labels_dotted(s);
    assert(lowered(s) =~= s) by {
        assert forall|i: int| 0 <= i < s.len() implies lowered(s)[i] == s[i] by {
            lemma_ipv4_bytes(s);
        }
    }
    lemma_names_are_endpoints(s, digits);
}

/// An IPv4 address is the dotted quad of four numbers.
pub proof fn lemma_ipv4_is_quad(s: Seq<u8>)
    requires
        is_ipv4(s),
    ensures
        exists|a: u8, b: u8, c: u8, d: u8| s == #[trigger] quad(a, b, c, d),
{
    let pieces = split(s, 0x2e);
    lemma_split_joins(s, 0x2e);
    assert(is_octet(pieces[0]));
    assert(is_octet(pieces[1]));
    assert(is_octet(pieces[2]));
    assert(is_octet(pieces[3]));
    lemma_octet_is_digits(pieces[0]);
    lemma_octet_is_digits(pieces[1]);
    lemma_octet_is_digits(pieces[2]);
    lemma_octet_is_digits(pieces[3]);
    let a = decimal(pieces[0]) as u8;
    let b = decimal(pieces[1]) as u8;
    let c = decimal(pieces[2]) as u8;
    let d = decimal(pieces[3]) as u8;
    reveal_with_fuel(crate::laws::byte_text::with_between, 5);
    assert(pieces.skip(1)[0] == pieces[1]);
    assert(pieces.skip(1).skip(1)[0] == pieces[2]);
    assert(pieces.skip(1).skip(1).skip(1)[0] == pieces[3]);
    assert(s =~= quad(a, b, c, d));
}

/// Labels of one to 63 letters, digits and hyphens, none of which begins or ends with a hyphen,
/// make up a host with dots between them, as long as it has at most 253 bytes: it comes back in
/// lower case, with a port behind a colon or without.
pub proof fn lemma_labels_make_hosts(labels: Seq<Seq<u8>>, digits: Seq<u8>)
    requires
        labels.len() >= 1,
        forall|k: int|
            0 <= k < labels.len() ==> {
                let label = #[trigger] labels[k];
                &&& 1 <= label.len() <= 63
                &&& label[0] != 0x2d
                &&& label[label.len() - 1] != 0x2d
                &&& forall|i: int|
                    0 <= i < label.len() ==> #[trigger] label[i] == 0x2d || 0x30 <= label[i] <= 0x39
                        || 0x41 <= label[i] <= 0x5a || 0x61 <= label[i] <= 0x7a
            },
        with_between(labels, 0x2e).len() <= 253,
    ensures
        is_dotted(with_between(labels, 0x2e)),
        endpoint(with_between(labels, 0x2e)) == Some(
            AuthorityModel { host: lowered(with_between(labels, 0x2e)), port: None },
        ),
        is_port(digits) ==> endpoint(with_between(labels, 0x2e) + seq![0x3au8] + digits) == Some(
            AuthorityModel {
                host: lowered(with_between(labels, 0x2e)),
                port: Some(decimal(digits) as u16),
            },
        ),
{
    let name = with_between(labels, 0x2e);
    assert forall|k: int, j: int|
        0 <= k < labels.len() && 0 <= j < labels[k].len() implies #[trigger] labels[k][j]
        != 0x2e by {
        let label = labels[k];
        assert(label[j] == 0x2d || 0x30 <= label[j] <= 0x39 || 0x41 <= label[j] <= 0x5a || 0x61
            <= label[j] <= 0x7a);
    }
    lemma_joined_splits(labels, 0x2e);
    assert forall|k: int| 0 <= k < split(name, 0x2e).len() implies is_dns_label(
        #[trigger] split(name, 0x2e)[k],
    ) by {
        lemma_dns_labels(labels[k]);
    }
    lemma_labels_dotted(name);
    lemma_names_are_endpoints(name, digits);
}

} // verus!
