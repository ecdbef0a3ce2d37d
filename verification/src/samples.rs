//! Sample inputs of the operations.

use vstd::prelude::*;
use crate::bytes::{ByteClass, find_in, first_in, lemma_first_in};
use crate::canonical_head::HeadInput;
use crate::text::{
    append, ascii_text, decode_text, is_ascii, lemma_ascii_literal, lemma_text_around, utf8,
};
use crate::types::{
    AuthorityModel, BlockModel, BodyFraming, EffectiveAuthority, FieldModel, ForwardingModel,
    ForwardingPolicy, ForwardingResult, HeaderBlock, HeaderField, HttpVersion, NormalizedTarget,
    PolicyModel, RequestLine, RequestLineModel, RouteRule, RuleModel, SanitizedHeaders,
    SanitizedModel, TargetForm, TargetModel, fields_of, rules_of, texts_of,
};

verus! {

/// How many samples each operation has.
pub const SAMPLES: u64 = 12;

/// A well-mixed number.
pub open spec fn mixed(seed: u64, case: u64) -> u64 {
    let a = seed ^ case.wrapping_mul(0x9e37_79b9_7f4a_7c15);
    let b = (a ^ (a >> 30)).wrapping_mul(0xbf58_476d_1ce4_e5b9);
    let c = (b ^ (b >> 27)).wrapping_mul(0x94d0_49bb_1331_11eb);
    c ^ (c >> 31)
}

/// Mixes a seed and a case.
pub fn mix(seed: u64, case: u64) -> (number: u64)
    ensures
        number == mixed(seed, case),
{
    let mut x: u64 = seed ^ case.wrapping_mul(0x9e37_79b9_7f4a_7c15);
    x = x ^ (x >> 30);
    x = x.wrapping_mul(0xbf58_476d_1ce4_e5b9);
    x = x ^ (x >> 27);
    x = x.wrapping_mul(0x94d0_49bb_1331_11eb);
    x ^ (x >> 31)
}

/// To multiply by a number that has an inverse loses nothing.
proof fn lemma_product_injective(a: u64, b: u64, factor: u64, inverse: u64, multiple: int)
    requires
        factor * inverse == 0x1_0000_0000_0000_0000 * multiple + 1,
        a.wrapping_mul(factor) == b.wrapping_mul(factor),
    ensures
        a == b,
{
    let range = 0x1_0000_0000_0000_0000int;
    let x = a * factor;
    let y = b * factor;
    let gap = a - b;
    let turns = x / range - y / range;
    assert(x >= 0 && y >= 0) by (nonlinear_arith)
        requires
            x == a * factor,
            y == b * factor,
    ;
    assert(gap * factor == range * turns) by (nonlinear_arith)
        requires
            gap == a - b,
            x == a * factor,
            y == b * factor,
            x % range == y % range,
            turns == x / range - y / range,
            range > 0,
    ;
    let whole = turns * inverse - gap * multiple;
    assert(gap == range * whole) by (nonlinear_arith)
        requires
            gap * factor == range * turns,
            factor * inverse == range * multiple + 1,
            whole == turns * inverse - gap * multiple,
    ;
    assert(whole == 0) by (nonlinear_arith)
        requires
            gap == range * whole,
            -range < gap < range,
            range > 0,
    ;
}

/// Seeds that are mixed with the same case into the same number are the same.
pub proof fn lemma_mixing_is_injective(a: u64, b: u64, case: u64)
    requires
        mixed(a, case) == mixed(b, case),
    ensures
        a == b,
{
    let k = case.wrapping_mul(0x9e37_79b9_7f4a_7c15);
    let (a1, b1) = (a ^ k, b ^ k);
    let (a2, b2) = (a1 ^ (a1 >> 30), b1 ^ (b1 >> 30));
    let (a3, b3) = (
        a2.wrapping_mul(0xbf58_476d_1ce4_e5b9),
        b2.wrapping_mul(0xbf58_476d_1ce4_e5b9),
    );
    let (a4, b4) = (a3 ^ (a3 >> 27), b3 ^ (b3 >> 27));
    let (a5, b5) = (
        a4.wrapping_mul(0x94d0_49bb_1331_11eb),
        b4.wrapping_mul(0x94d0_49bb_1331_11eb),
    );
    assert(a5 ^ (a5 >> 31) == b5 ^ (b5 >> 31) ==> a5 == b5) by (bit_vector);
    lemma_product_injective(
        a4,
        b4,
        0x94d0_49bb_1331_11eb,
        0x3196_42b2_d24d_8ec3,
        2_077_064_247_507_883_091,
    );
    assert(a3 ^ (a3 >> 27) == b3 ^ (b3 >> 27) ==> a3 == b3) by (bit_vector);
    lemma_product_injective(
        a2,
        b2,
        0xbf58_476d_1ce4_e5b9,
        0x96de_1b17_3f11_9089,
        8_125_545_580_553_827_436,
    );
    assert(a1 ^ (a1 >> 30) == b1 ^ (b1 >> 30) ==> a1 == b1) by (bit_vector);
    assert(a ^ k == b ^ k ==> a == b) by (bit_vector);
}

/// Which sample a case of a seed stands for.
pub open spec fn chosen(seed: u64, case: u64) -> int {
    case.wrapping_add(mixed(seed, 0)) as int % SAMPLES as int
}

/// Which sample a case of a seed stands for.
pub fn choice_of(seed: u64, case: u64) -> (choice: usize)
    ensures
        choice == chosen(seed, case),
        choice < SAMPLES,
{
    (case.wrapping_add(mix(seed, 0)) % SAMPLES) as usize
}

/// The next case of a seed stands for the next sample, but where the cases begin anew.
pub proof fn lemma_next_case(seed: u64, case: u64)
    requires
        case < u64::MAX,
        case.wrapping_add(mixed(seed, 0)) < u64::MAX,
    ensures
        chosen(seed, (case + 1) as u64) == (chosen(seed, case) + 1) % SAMPLES as int,
{
}

/// A text so many times over.
pub open spec fn repeated(unit: Seq<u8>, count: nat) -> Seq<u8>
    decreases count,
{
    if count == 0 {
        Seq::empty()
    } else {
        repeated(unit, (count - 1) as nat) + unit
    }
}

/// A repeated text with something before and after it.
pub open spec fn around(
    before: Seq<char>,
    unit: Seq<char>,
    count: nat,
    after: Seq<char>,
) -> Seq<u8> {
    utf8(before) + repeated(utf8(unit), count) + utf8(after)
}

fn bytes_from(text: &str) -> (bytes: Vec<u8>)
    ensures
        bytes@ == utf8(text@),
{
    vstd::slice::slice_to_vec(text.as_bytes())
}

fn bytes_around(before: &str, unit: &str, count: usize, after: &str) -> (bytes: Vec<u8>)
    ensures
        bytes@ == around(before@, unit@, count as nat, after@),
{
    let mut bytes: Vec<u8> = bytes_from(before);
    let mut done: usize = 0;
    assert(bytes@ =~= utf8(before@) + repeated(utf8(unit@), 0));
    while done < count
        invariant
            done <= count,
            bytes@ == utf8(before@) + repeated(utf8(unit@), done as nat),
        decreases count - done,
    {
        append(&mut bytes, unit.as_bytes());
        done += 1;
        assert(bytes@ =~= utf8(before@) + repeated(utf8(unit@), done as nat));
    }
    append(&mut bytes, after.as_bytes());
    bytes
}

pub open spec fn named(name: Seq<char>, value: Seq<char>) -> FieldModel {
    FieldModel { name: utf8(name), value: utf8(value) }
}

/// A block of fields that was not read from anywhere.
pub open spec fn block_of(fields: Seq<FieldModel>) -> BlockModel {
    BlockModel { fields, bytes_consumed: 0 }
}

/// The fields with names and values.
pub open spec fn listed(fields: Seq<(&str, &str)>) -> Seq<FieldModel> {
    fields.map_values(|field: (&str, &str)| named(field.0@, field.1@))
}

/// A block of fields that was not read from anywhere.
pub fn block(fields: Vec<(&str, &str)>) -> (block: HeaderBlock)
    ensures
        block@ == block_of(listed(fields@)),
{
    let mut list: Vec<HeaderField> = Vec::new();
    let mut index: usize = 0;
    while index < fields.len()
        invariant
            index <= fields@.len(),
            fields_of(list@) == listed(fields@).take(index as int),
        decreases fields@.len() - index,
    {
        let (name, value) = fields[index];
        let field = HeaderField { name: name.to_owned(), value: bytes_from(value) };
        assert(field@ == listed(fields@)[index as int]);
        let ghost before = list@;
        list.push(field);
        assert(fields_of(list@) =~= fields_of(before).push(field@));
        index += 1;
        assert(fields_of(list@) =~= listed(fields@).take(index as int));
    }
    assert(listed(fields@).take(index as int) =~= listed(fields@));
    HeaderBlock { fields: list, bytes_consumed: 0 }
}

pub open spec fn line_of(method: Seq<char>, target: Seq<char>) -> RequestLineModel {
    RequestLineModel {
        method: utf8(method),
        target: utf8(target),
        version: HttpVersion::Http11,
        bytes_consumed: 0,
    }
}

/// A request line that was not read from anywhere.
pub fn line_with(method: &str, target: &str) -> (line: RequestLine)
    ensures
        line@ == line_of(method@, target@),
{
    RequestLine {
        method: method.to_owned(),
        target: target.to_owned(),
        version: HttpVersion::Http11,
        bytes_consumed: 0,
    }
}

/// A target in origin form, given its path and query.
pub open spec fn origin_of(path: Seq<u8>) -> TargetModel {
    TargetModel {
        form: TargetForm::Origin,
        scheme: None,
        authority: None,
        path_and_query: path,
        routing_path: path.take(first_in(path, ByteClass::Only('?' as u8))),
    }
}

/// A target in origin form, given its path and query.
pub fn target(path: &str) -> (target: NormalizedTarget)
    ensures
        target@ == origin_of(utf8(path@)),
{
    let bytes: &[u8] = path.as_bytes();
    let end: usize = find_in(bytes, ByteClass::Only('?' as u8));
    let head: &[u8] = &bytes[0..end];
    proof {
        vstd::utf8::encode_utf8_valid_utf8(path@);
        lemma_first_in(bytes@, ByteClass::Only('?' as u8));
        assert(head@ =~= bytes@.take(end as int));
        if end < bytes@.len() {
            assert(ByteClass::Only('?' as u8).has(bytes@[end as int]));
            lemma_text_around(bytes@, end as int);
        } else {
            assert(head@ =~= bytes@);
        }
    }
    let routing_path: String = match decode_text(vstd::slice::slice_to_vec(head)) {
        Some(text) => text,
        None => String::new(),
    };
    NormalizedTarget {
        form: TargetForm::Origin,
        scheme: None,
        authority: None,
        path_and_query: path.to_owned(),
        routing_path,
    }
}

pub open spec fn request_line_input(choice: int) -> Seq<u8> {
    if choice == 0 {
        utf8("GET / HTTP/1.1\r\n"@)
    } else if choice == 1 {
        utf8("M-SEARCH /x?y=1 HTTP/1.1\r\nnext"@)
    } else if choice == 2 {
        utf8("GET  / HTTP/1.1\r\n"@)
    } else if choice == 3 {
        utf8("GET / HTTP/1.0\r\n"@)
    } else if choice == 4 {
        utf8("GET /x#y HTTP/1.1\r\n"@)
    } else if choice == 5 {
        utf8("GET / HTTP/1.1\n"@)
    } else if choice == 6 {
        around(""@, "a"@, 8192, ""@)
    } else if choice == 7 {
        around(""@, "a"@, 8193, ""@)
    } else if choice == 8 {
        around(""@, "A"@, 32, " / HTTP/1.1\r\n"@)
    } else if choice == 9 {
        around(""@, "A"@, 33, " / HTTP/1.1\r\n"@)
    } else if choice == 10 {
        utf8("GET /%2f HTTP/1.1\r\n"@)
    } else {
        utf8("OPTIONS * HTTP/1.1\r\n"@)
    }
}

/// A request line to parse.
pub fn sample_request_line(choice: usize) -> (input: Vec<u8>)
    requires
        choice < SAMPLES,
    ensures
        input@ == request_line_input(choice as int),
{
    match choice {
        0 => bytes_from("GET / HTTP/1.1\r\n"),
        1 => bytes_from("M-SEARCH /x?y=1 HTTP/1.1\r\nnext"),
        2 => bytes_from("GET  / HTTP/1.1\r\n"),
        3 => bytes_from("GET / HTTP/1.0\r\n"),
        4 => bytes_from("GET /x#y HTTP/1.1\r\n"),
        5 => bytes_from("GET / HTTP/1.1\n"),
        6 => bytes_around("", "a", 8192, ""),
        7 => bytes_around("", "a", 8193, ""),
        8 => bytes_around("", "A", 32, " / HTTP/1.1\r\n"),
        9 => bytes_around("", "A", 33, " / HTTP/1.1\r\n"),
        10 => bytes_from("GET /%2f HTTP/1.1\r\n"),
        _ => bytes_from("OPTIONS * HTTP/1.1\r\n"),
    }
}

pub open spec fn header_section_input(choice: int) -> Seq<u8> {
    if choice == 0 {
        utf8("\r\n"@)
    } else if choice == 1 {
        utf8("Host: x\r\nX: y\r\n\r\nbody"@)
    } else if choice == 2 {
        utf8("X:\t a \t\r\n\r\n"@)
    } else if choice == 3 {
        utf8("Host : x\r\n\r\n"@)
    } else if choice == 4 {
        utf8("X: a\r\n b\r\n\r\n"@)
    } else if choice == 5 {
        utf8("X: a\0b\r\n\r\n"@)
    } else if choice == 6 {
        around(""@, "a"@, 32768, ""@)
    } else if choice == 7 {
        around(""@, "a"@, 32769, ""@)
    } else if choice == 8 {
        around(""@, "x:\r\n"@, 128, "\r\n"@)
    } else if choice == 9 {
        around(""@, "x:\r\n"@, 129, "\r\n"@)
    } else if choice == 10 {
        around("x:"@, "v"@, 8192, "\r\n\r\n"@)
    } else {
        around("x:"@, "v"@, 8193, "\r\n\r\n"@)
    }
}

/// A header section to parse.
pub fn sample_header_section(choice: usize) -> (input: Vec<u8>)
    requires
        choice < SAMPLES,
    ensures
        input@ == header_section_input(choice as int),
{
    match choice {
        0 => bytes_from("\r\n"),
        1 => bytes_from("Host: x\r\nX: y\r\n\r\nbody"),
        2 => bytes_from("X:\t a \t\r\n\r\n"),
        3 => bytes_from("Host : x\r\n\r\n"),
        4 => bytes_from("X: a\r\n b\r\n\r\n"),
        5 => bytes_from("X: a\0b\r\n\r\n"),
        6 => bytes_around("", "a", 32768, ""),
        7 => bytes_around("", "a", 32769, ""),
        8 => bytes_around("", "x:\r\n", 128, "\r\n"),
        9 => bytes_around("", "x:\r\n", 129, "\r\n"),
        10 => bytes_around("x:", "v", 8192, "\r\n\r\n"),
        _ => bytes_around("x:", "v", 8193, "\r\n\r\n"),
    }
}

pub open spec fn chunk_metadata_input(choice: int) -> Seq<u8> {
    if choice == 0 {
        utf8("0\r\n"@)
    } else if choice == 1 {
        utf8("a;Foo=bar;x=\"a\\\"b\"\r\ndata"@)
    } else if choice == 2 {
        utf8("1000000\r\n"@)
    } else if choice == 3 {
        utf8("1000001\r\n"@)
    } else if choice == 4 {
        utf8("0x10\r\n"@)
    } else if choice == 5 {
        utf8("a\n"@)
    } else if choice == 6 {
        around(""@, "a"@, 1024, ""@)
    } else if choice == 7 {
        around(""@, "a"@, 1025, ""@)
    } else if choice == 8 {
        utf8("a; x=y\r\n"@)
    } else if choice == 9 {
        utf8("a;x=\"bad\r\n"@)
    } else if choice == 10 {
        around("1"@, ";x"@, 16, "\r\n"@)
    } else {
        around("1"@, ";x"@, 17, "\r\n"@)
    }
}

/// Chunk metadata to parse.
pub fn sample_chunk_metadata(choice: usize) -> (input: Vec<u8>)
    requires
        choice < SAMPLES,
    ensures
        input@ == chunk_metadata_input(choice as int),
{
    match choice {
        0 => bytes_from("0\r\n"),
        1 => bytes_from("a;Foo=bar;x=\"a\\\"b\"\r\ndata"),
        2 => bytes_from("1000000\r\n"),
        3 => bytes_from("1000001\r\n"),
        4 => bytes_from("0x10\r\n"),
        5 => bytes_from("a\n"),
        6 => bytes_around("", "a", 1024, ""),
        7 => bytes_around("", "a", 1025, ""),
        8 => bytes_from("a; x=y\r\n"),
        9 => bytes_from("a;x=\"bad\r\n"),
        10 => bytes_around("1", ";x", 16, "\r\n"),
        _ => bytes_around("1", ";x", 17, "\r\n"),
    }
}

pub open spec fn trailer_section_input(choice: int) -> (Seq<u8>, Seq<Seq<u8>>) {
    if choice == 0 {
        (utf8("\r\n"@), Seq::empty())
    } else if choice == 1 {
        (utf8("Digest: x\r\n\r\nnext"@), seq![utf8("digest"@)])
    } else if choice == 2 {
        (utf8("X: y\r\n\r\n"@), Seq::empty())
    } else if choice == 3 {
        (utf8("X: a\r\nX: b\r\n\r\n"@), seq![utf8("x"@)])
    } else if choice == 4 {
        (utf8("\r\n"@), seq![utf8("content-length"@)])
    } else if choice == 5 {
        (utf8("\r\n"@), seq![utf8("X"@)])
    } else if choice == 6 {
        (around(""@, "a"@, 8192, ""@), Seq::empty())
    } else if choice == 7 {
        (around(""@, "a"@, 8193, ""@), Seq::empty())
    } else if choice == 8 {
        (utf8("X : y\r\n\r\n"@), seq![utf8("x"@)])
    } else if choice == 9 {
        (utf8("X: y\r\n z\r\n\r\n"@), seq![utf8("x"@)])
    } else if choice == 10 {
        (utf8("\r\n"@), seq![utf8("x"@), utf8("x"@)])
    } else {
        (utf8("Set-Cookie: x\r\n\r\n"@), seq![utf8("set-cookie"@)])
    }
}

fn names_from(names: Vec<&str>) -> (owned: Vec<String>)
    ensures
        texts_of(owned@) == names@.map_values(|name: &str| utf8(name@)),
{
    let ghost wanted = names@.map_values(|name: &str| utf8(name@));
    let mut owned: Vec<String> = Vec::new();
    let mut index: usize = 0;
    while index < names.len()
        invariant
            index <= names@.len(),
            wanted == names@.map_values(|name: &str| utf8(name@)),
            texts_of(owned@) == wanted.take(index as int),
        decreases names@.len() - index,
    {
        let name: String = names[index].to_owned();
        assert(utf8(name@) == wanted[index as int]);
        let ghost before = owned@;
        owned.push(name);
        assert(texts_of(owned@) =~= texts_of(before).push(utf8(name@)));
        index += 1;
        assert(texts_of(owned@) =~= wanted.take(index as int));
    }
    assert(wanted.take(index as int) =~= wanted);
    owned
}

/// A trailer section to parse, and the names that were declared.
pub fn sample_trailer_section(choice: usize) -> (input: (Vec<u8>, Vec<String>))
    requires
        choice < SAMPLES,
    ensures
        (input.0@, texts_of(input.1@)) == trailer_section_input(choice as int),
{
    let (bytes, names): (Vec<u8>, Vec<&str>) = match choice {
        0 => (bytes_from("\r\n"), vec![]),
        1 => (bytes_from("Digest: x\r\n\r\nnext"), vec!["digest"]),
        2 => (bytes_from("X: y\r\n\r\n"), vec![]),
        3 => (bytes_from("X: a\r\nX: b\r\n\r\n"), vec!["x"]),
        4 => (bytes_from("\r\n"), vec!["content-length"]),
        5 => (bytes_from("\r\n"), vec!["X"]),
        6 => (bytes_around("", "a", 8192, ""), vec![]),
        7 => (bytes_around("", "a", 8193, ""), vec![]),
        8 => (bytes_from("X : y\r\n\r\n"), vec!["x"]),
        9 => (bytes_from("X: y\r\n z\r\n\r\n"), vec!["x"]),
        10 => (bytes_from("\r\n"), vec!["x", "x"]),
        _ => (bytes_from("Set-Cookie: x\r\n\r\n"), vec!["set-cookie"]),
    };
    let owned: Vec<String> = names_from(names);
    assert(texts_of(owned@) =~= trailer_section_input(choice as int).1);
    (bytes, owned)
}

pub open spec fn body_framing_fields(choice: int) -> Seq<FieldModel> {
    if choice == 0 {
        Seq::empty()
    } else if choice == 1 {
        seq![named("content-length"@, "0"@)]
    } else if choice == 2 {
        seq![named("content-length"@, "5"@)]
    } else if choice == 3 {
        seq![named("content-length"@, "05, 5"@)]
    } else if choice == 4 {
        seq![named("content-length"@, "4,5"@)]
    } else if choice == 5 {
        seq![named("content-length"@, "+1"@)]
    } else if choice == 6 {
        seq![named("content-length"@, "16777217"@)]
    } else if choice == 7 {
        seq![named("transfer-encoding"@, "chunked"@)]
    } else if choice == 8 {
        seq![named("transfer-encoding"@, "gzip, chunked"@)]
    } else if choice == 9 {
        seq![named("transfer-encoding"@, "chunked"@), named("content-length"@, "0"@)]
    } else if choice == 10 {
        seq![named("transfer-encoding"@, "bad"@), named("content-length"@, "bad"@)]
    } else {
        seq![named("content-length"@, ""@)]
    }
}

fn body_framing_block(choice: usize) -> (headers: HeaderBlock)
    requires
        choice < SAMPLES,
    ensures
        headers@ == block_of(body_framing_fields(choice as int)),
{
    let fields: Vec<(&str, &str)> = match choice {
        0 => vec![],
        1 => vec![("content-length", "0")],
        2 => vec![("content-length", "5")],
        3 => vec![("content-length", "05, 5")],
        4 => vec![("content-length", "4,5")],
        5 => vec![("content-length", "+1")],
        6 => vec![("content-length", "16777217")],
        7 => vec![("transfer-encoding", "chunked")],
        8 => vec![("transfer-encoding", "gzip, chunked")],
        9 => vec![("transfer-encoding", "chunked"), ("content-length", "0")],
        10 => vec![("transfer-encoding", "bad"), ("content-length", "bad")],
        _ => vec![("content-length", "")],
    };
    assert(listed(fields@) =~= body_framing_fields(choice as int));
    block(fields)
}

/// A request and its fields, to find out how the body is framed.
pub fn sample_body_framing(choice: usize) -> (input: (RequestLine, HeaderBlock))
    requires
        choice < SAMPLES,
    ensures
        input.0@ == line_of("post"@, "/"@),
        input.1@ == block_of(body_framing_fields(choice as int)),
{
    (line_with("post", "/"), body_framing_block(choice))
}

pub open spec fn request_target_line(choice: int) -> RequestLineModel {
    if choice == 0 {
        line_of("get"@, "/a/%7e/b/../c?x=%2f"@)
    } else if choice == 1 {
        line_of("get"@, "HTTP://Example.TEST:80/a"@)
    } else if choice == 2 {
        line_of("connect"@, "example.test:443"@)
    } else if choice == 3 {
        line_of("options"@, "*"@)
    } else if choice == 4 {
        line_of("get"@, "*"@)
    } else if choice == 5 {
        line_of("get"@, "/a%2fb"@)
    } else if choice == 6 {
        line_of("get"@, "/../../x"@)
    } else if choice == 7 {
        line_of("get"@, "/a//b/./c"@)
    } else if choice == 8 {
        line_of("get"@, "https://example.test"@)
    } else if choice == 9 {
        line_of("connect"@, "[2001:DB8::1]:443"@)
    } else if choice == 10 {
        line_of("get"@, "/bad%GG"@)
    } else {
        RequestLineModel {
            method: utf8("get"@),
            target: around("/"@, "a"@, 8192, ""@),
            version: HttpVersion::Http11,
            bytes_consumed: 0,
        }
    }
}

/// A request whose target is to be normalized.
pub fn sample_request_target(choice: usize) -> (request: RequestLine)
    requires
        choice < SAMPLES,
    ensures
        request@ == request_target_line(choice as int),
{
    match choice {
        0 => line_with("get", "/a/%7e/b/../c?x=%2f"),
        1 => line_with("get", "HTTP://Example.TEST:80/a"),
        2 => line_with("connect", "example.test:443"),
        3 => line_with("options", "*"),
        4 => line_with("get", "*"),
        5 => line_with("get", "/a%2fb"),
        6 => line_with("get", "/../../x"),
        7 => line_with("get", "/a//b/./c"),
        8 => line_with("get", "https://example.test"),
        9 => line_with("connect", "[2001:DB8::1]:443"),
        10 => line_with("get", "/bad%GG"),
        _ => {
            let bytes: Vec<u8> = bytes_around("/", "a", 8192, "");
            proof {
                lemma_long_target_ascii();
            }
            RequestLine {
                method: "get".to_owned(),
                target: ascii_text(bytes.as_slice()),
                version: HttpVersion::Http11,
                bytes_consumed: 0,
            }
        },
    }
}

proof fn lemma_repeated_ascii(unit: Seq<u8>, count: nat)
    requires
        is_ascii(unit),
    ensures
        is_ascii(repeated(unit, count)),
    decreases count,
{
    if count > 0 {
        lemma_repeated_ascii(unit, (count - 1) as nat);
    }
}

proof fn lemma_long_target_ascii()
    ensures
        is_ascii(around("/"@, "a"@, 8192, ""@)),
{
    reveal_strlit("/");
    reveal_strlit("a");
    reveal_strlit("");
    lemma_ascii_literal("/"@);
    lemma_ascii_literal("a"@);
    lemma_ascii_literal(""@);
    lemma_repeated_ascii(utf8("a"@), 8192);
}

pub open spec fn authority_fields(choice: int) -> Seq<FieldModel> {
    if choice == 0 {
        seq![named("host"@, "Example.Test.:8080"@)]
    } else if choice == 1 {
        Seq::empty()
    } else if choice == 2 {
        seq![named("host"@, "x"@), named("host"@, "x"@)]
    } else if choice == 3 {
        seq![named("host"@, "x,x"@)]
    } else if choice == 4 {
        seq![named("host"@, "fe80::1"@)]
    } else if choice == 5 {
        seq![named("host"@, "[2001:DB8::1]:443"@)]
    } else if choice == 6 {
        seq![named("host"@, "a:0"@)]
    } else if choice == 7 {
        seq![named("host"@, "-a.test"@)]
    } else if choice == 8 {
        seq![named("host"@, "a.test."@)]
    } else if choice == 9 {
        seq![named("host"@, "u@a.test"@)]
    } else if choice == 10 {
        seq![named("host"@, "example.test"@)]
    } else {
        seq![named("host"@, "evil.test"@)]
    }
}

fn authority_block(choice: usize) -> (headers: HeaderBlock)
    requires
        choice < SAMPLES,
    ensures
        headers@ == block_of(authority_fields(choice as int)),
{
    let fields: Vec<(&str, &str)> = match choice {
        0 => vec![("host", "Example.Test.:8080")],
        1 => vec![],
        2 => vec![("host", "x"), ("host", "x")],
        3 => vec![("host", "x,x")],
        4 => vec![("host", "fe80::1")],
        5 => vec![("host", "[2001:DB8::1]:443")],
        6 => vec![("host", "a:0")],
        7 => vec![("host", "-a.test")],
        8 => vec![("host", "a.test.")],
        9 => vec![("host", "u@a.test")],
        10 => vec![("host", "example.test")],
        _ => vec![("host", "evil.test")],
    };
    assert(listed(fields@) =~= authority_fields(choice as int));
    block(fields)
}

/// The target of the samples on authorities; the last two are in absolute form.
pub open spec fn authority_target(choice: int) -> TargetModel {
    if choice < 10 {
        origin_of(utf8("/"@))
    } else {
        TargetModel {
            form: TargetForm::Absolute,
            scheme: Some(utf8("http"@)),
            authority: Some(
                if choice == 10 {
                    utf8("example.test:80"@)
                } else {
                    utf8("example.test"@)
                },
            ),
            path_and_query: utf8("/"@),
            routing_path: utf8("/"@),
        }
    }
}

/// A target and fields whose authorities are to be reconciled.
pub fn sample_authority(choice: usize) -> (input: (NormalizedTarget, HeaderBlock))
    requires
        choice < SAMPLES,
    ensures
        input.0@ == authority_target(choice as int),
        input.1@ == block_of(authority_fields(choice as int)),
{
    let target: NormalizedTarget = if choice < 10 {
        self::target("/")
    } else {
        let authority: &str = if choice == 10 {
            "example.test:80"
        } else {
            "example.test"
        };
        NormalizedTarget {
            form: TargetForm::Absolute,
            scheme: Some("http".to_owned()),
            authority: Some(authority.to_owned()),
            path_and_query: "/".to_owned(),
            routing_path: "/".to_owned(),
        }
    };
    (target, authority_block(choice))
}

pub open spec fn hop_by_hop_fields(choice: int) -> Seq<FieldModel> {
    if choice == 0 {
        Seq::empty()
    } else if choice == 1 {
        seq![named("connection"@, "x-hop"@), named("x-hop"@, "secret"@), named("x-end"@, "ok"@)]
    } else if choice == 2 {
        seq![named("connection"@, "close,,upgrade"@)]
    } else if choice == 3 {
        seq![named("transfer-encoding"@, "chunked"@)]
    } else if choice == 4 {
        seq![named("authorization"@, "x"@), named("cookie"@, "y"@)]
    } else if choice == 5 {
        seq![named("proxy-authorization"@, "x"@)]
    } else if choice == 6 {
        seq![named("connection"@, "missing"@)]
    } else if choice == 7 {
        seq![named("connection"@, ""@)]
    } else if choice == 8 {
        seq![named("te"@, "trailers"@)]
    } else if choice == 9 {
        seq![named("forwarded"@, "old"@)]
    } else if choice == 10 {
        seq![named("x-forwarded-for"@, "old"@)]
    } else {
        seq![named("host"@, "x"@)]
    }
}

fn hop_by_hop_block(choice: usize) -> (headers: HeaderBlock)
    requires
        choice < SAMPLES,
    ensures
        headers@ == block_of(hop_by_hop_fields(choice as int)),
{
    let fields: Vec<(&str, &str)> = match choice {
        0 => vec![],
        1 => vec![("connection", "x-hop"), ("x-hop", "secret"), ("x-end", "ok")],
        2 => vec![("connection", "close,,upgrade")],
        3 => vec![("transfer-encoding", "chunked")],
        4 => vec![("authorization", "x"), ("cookie", "y")],
        5 => vec![("proxy-authorization", "x")],
        6 => vec![("connection", "missing")],
        7 => vec![("connection", "")],
        8 => vec![("te", "trailers")],
        9 => vec![("forwarded", "old")],
        10 => vec![("x-forwarded-for", "old")],
        _ => vec![("host", "x")],
    };
    assert(listed(fields@) =~= hop_by_hop_fields(choice as int));
    block(fields)
}

/// Fields of which those for one hop are to be removed.
pub fn sample_hop_by_hop(choice: usize) -> (headers: HeaderBlock)
    requires
        choice < SAMPLES,
    ensures
        headers@ == block_of(hop_by_hop_fields(choice as int)),
{
    hop_by_hop_block(choice)
}

/// What a head is to be made of.
pub struct HeadSample {
    pub method: String,
    pub target: NormalizedTarget,
    pub authority: EffectiveAuthority,
    pub headers: SanitizedHeaders,
    pub framing: BodyFraming,
    pub forwarding: ForwardingResult,
}

impl View for HeadSample {
    type V = HeadInput;

    open spec fn view(&self) -> HeadInput {
        HeadInput {
            method: utf8(self.method@),
            target: self.target@,
            authority: self.authority@,
            headers: self.headers@,
            framing: self.framing,
            forwarding: self.forwarding@,
        }
    }
}

pub open spec fn canonical_head_input(choice: int) -> HeadInput {
    HeadInput {
        method: if choice % 4 == 0 {
            utf8("get"@)
        } else if choice % 4 == 1 {
            utf8("post"@)
        } else if choice % 4 == 2 {
            utf8(""@)
        } else {
            utf8("bad method"@)
        },
        target: origin_of(
            if choice == 4 {
                utf8(""@)
            } else {
                utf8("/a?x=1"@)
            },
        ),
        authority: AuthorityModel {
            host: if choice == 5 {
                utf8("bad host"@)
            } else {
                utf8("example.test"@)
            },
            port: None,
        },
        headers: SanitizedModel {
            fields: if choice == 6 {
                seq![named("keep-alive"@, "x"@)]
            } else {
                seq![named("x-test"@, "y"@)]
            },
            removed_names: Seq::empty(),
        },
        framing: if choice % 4 == 0 {
            BodyFraming::NoBody
        } else if choice % 4 == 1 {
            BodyFraming::ContentLength(0)
        } else if choice % 4 == 2 {
            BodyFraming::ContentLength(12)
        } else {
            BodyFraming::Chunked
        },
        forwarding: ForwardingModel {
            forwarded: utf8("for=192.0.2.1;proto=https;host=\"example.test\""@),
            x_forwarded_for: utf8("192.0.2.1"@),
            x_forwarded_proto: utf8("https"@),
            x_forwarded_host: utf8("example.test"@),
        },
    }
}

/// The parts of a head that is to be serialized.
pub fn sample_canonical_head(choice: usize) -> (sample: HeadSample)
    requires
        choice < SAMPLES,
    ensures
        sample@ == canonical_head_input(choice as int),
{
    let method: &str = match choice % 4 {
        0 => "get",
        1 => "post",
        2 => "",
        _ => "bad method",
    };
    let path: &str = if choice == 4 {
        ""
    } else {
        "/a?x=1"
    };
    let host: &str = if choice == 5 {
        "bad host"
    } else {
        "example.test"
    };
    let kept: Vec<(&str, &str)> = if choice == 6 {
        vec![("keep-alive", "x")]
    } else {
        vec![("x-test", "y")]
    };
    let framing: BodyFraming = match choice % 4 {
        0 => BodyFraming::NoBody,
        1 => BodyFraming::ContentLength(0),
        2 => BodyFraming::ContentLength(12),
        _ => BodyFraming::Chunked,
    };
    assert(listed(kept@) =~= canonical_head_input(choice as int).headers.fields);
    let sample = HeadSample {
        method: method.to_owned(),
        target: target(path),
        authority: EffectiveAuthority { host: host.to_owned(), port: None },
        headers: SanitizedHeaders { fields: block(kept).fields, removed_names: Vec::new() },
        framing,
        forwarding: ForwardingResult {
            forwarded: "for=192.0.2.1;proto=https;host=\"example.test\"".to_owned(),
            x_forwarded_for: "192.0.2.1".to_owned(),
            x_forwarded_proto: "https".to_owned(),
            x_forwarded_host: "example.test".to_owned(),
        },
    };
    assert(sample@.headers.removed_names =~= Seq::<Seq<u8>>::empty());
    sample
}

pub open spec fn rule_of(path_prefix: Seq<char>, upstream: Seq<char>, order: int) -> RuleModel {
    RuleModel {
        host: utf8("example.test"@),
        path_prefix: utf8(path_prefix),
        upstream: utf8(upstream),
        declaration_order: order,
    }
}

pub open spec fn route_rules(choice: int) -> Seq<RuleModel> {
    if choice == 9 {
        Seq::new(257, |n: int| rule_of("/"@, "u"@, n))
    } else {
        seq![
            rule_of("/"@, "root"@, 9),
            rule_of(
                if choice == 6 {
                    "/api/"@
                } else {
                    "/api"@
                },
                if choice == 7 {
                    "bad/upstream"@
                } else {
                    "api"@
                },
                if choice == 8 {
                    9
                } else {
                    2
                },
            ),
        ]
    }
}

pub open spec fn route_path(choice: int) -> Seq<char> {
    if choice % 5 == 0 {
        "/"@
    } else if choice % 5 == 1 {
        "/api"@
    } else if choice % 5 == 2 {
        "/api/x"@
    } else if choice % 5 == 3 {
        "/apix"@
    } else {
        "/a%2Fb"@
    }
}

fn rule(path_prefix: &str, upstream: &str, order: usize) -> (rule: RouteRule)
    ensures
        rule@ == rule_of(path_prefix@, upstream@, order as int),
{
    RouteRule {
        host: "example.test".to_owned(),
        path_prefix: path_prefix.to_owned(),
        upstream: upstream.to_owned(),
        declaration_order: order,
    }
}

/// An authority, a target and rules by which it is to be routed.
pub fn sample_route(
    choice: usize,
) -> (input: (EffectiveAuthority, NormalizedTarget, Vec<RouteRule>))
    requires
        choice < SAMPLES,
    ensures
        input.0@ == (AuthorityModel {
            host: if choice == 10 {
                utf8("other.test"@)
            } else {
                utf8("example.test"@)
            },
            port: Some(8080u16),
        }),
        input.1@ == origin_of(utf8(route_path(choice as int))),
        rules_of(input.2@) == route_rules(choice as int),
{
    let path: &str = match choice % 5 {
        0 => "/",
        1 => "/api",
        2 => "/api/x",
        3 => "/apix",
        _ => "/a%2Fb",
    };
    let mut routes: Vec<RouteRule> = Vec::new();
    if choice == 9 {
        let mut order: usize = 0;
        while order < 257
            invariant
                order <= 257,
                routes@.len() == order,
                forall|k: int|
                    0 <= k < order ==> (#[trigger] routes@[k])@ == rule_of("/"@, "u"@, k),
            decreases 257 - order,
        {
            routes.push(rule("/", "u", order));
            order += 1;
        }
    } else {
        let prefix: &str = if choice == 6 {
            "/api/"
        } else {
            "/api"
        };
        let upstream: &str = if choice == 7 {
            "bad/upstream"
        } else {
            "api"
        };
        let order: usize = if choice == 8 {
            9
        } else {
            2
        };
        routes.push(rule("/", "root", 9));
        routes.push(rule(prefix, upstream, order));
    }
    assert(rules_of(routes@) =~= route_rules(choice as int));
    let host: &str = if choice == 10 {
        "other.test"
    } else {
        "example.test"
    };
    (
        EffectiveAuthority { host: host.to_owned(), port: Some(8080) },
        target(path),
        routes,
    )
}

pub open spec fn forwarding_policy(choice: int) -> PolicyModel {
    PolicyModel {
        trust_incoming: choice % 2 == 0,
        client_ip: if choice == 8 {
            utf8("bad"@)
        } else if choice == 9 {
            utf8("2001:db8::1"@)
        } else {
            utf8("192.0.2.1"@)
        },
        proto: if choice == 10 {
            utf8("HTTP"@)
        } else {
            utf8("https"@)
        },
        host: utf8("example.test"@),
    }
}

pub open spec fn forwarding_fields(choice: int) -> Seq<FieldModel> {
    if choice == 2 {
        seq![named("x-forwarded-for"@, "old"@)]
    } else if choice == 4 {
        seq![named("forwarded"@, "one"@), named("forwarded"@, "two"@)]
    } else if choice == 6 {
        seq![named("x-forwarded-for"@, "x,,y"@)]
    } else if choice == 7 {
        seq![
            FieldModel {
                name: utf8("x-forwarded-for"@),
                value: around(""@, "a"@, 1025, ""@),
            },
        ]
    } else {
        Seq::empty()
    }
}

/// A forwarding policy and the fields that it is to be applied to.
pub fn sample_forwarding(choice: usize) -> (input: (ForwardingPolicy, HeaderBlock))
    requires
        choice < SAMPLES,
    ensures
        input.0@ == forwarding_policy(choice as int),
        input.1@ == block_of(forwarding_fields(choice as int)),
{
    let client_ip: &str = match choice {
        8 => "bad",
        9 => "2001:db8::1",
        _ => "192.0.2.1",
    };
    let proto: &str = match choice {
        10 => "HTTP",
        _ => "https",
    };
    let policy = ForwardingPolicy {
        trust_incoming: choice % 2 == 0,
        client_ip: client_ip.to_owned(),
        proto: proto.to_owned(),
        host: "example.test".to_owned(),
    };
    let headers: HeaderBlock = if choice == 7 {
        let mut fields: Vec<HeaderField> = Vec::new();
        fields.push(
            HeaderField {
                name: "x-forwarded-for".to_owned(),
                value: bytes_around("", "a", 1025, ""),
            },
        );
        assert(fields_of(fields@) =~= forwarding_fields(7));
        HeaderBlock { fields, bytes_consumed: 0 }
    } else {
        let fields: Vec<(&str, &str)> = match choice {
            2 => vec![("x-forwarded-for", "old")],
            4 => vec![("forwarded", "one"), ("forwarded", "two")],
            6 => vec![("x-forwarded-for", "x,,y")],
            _ => vec![],
        };
        assert(listed(fields@) =~= forwarding_fields(choice as int));
        block(fields)
    };
    (policy, headers)
}

/// The fields of a request for an upgrade to another protocol.
pub open spec fn asking_for(protocol: Seq<char>) -> Seq<FieldModel> {
    seq![
        named("connection"@, "keep-alive, Upgrade"@),
        named("upgrade"@, protocol),
        named("sec-websocket-version"@, "13"@),
        named("sec-websocket-key"@, "dGhlIHNhbXBsZSBub25jZQ=="@),
    ]
}

pub open spec fn upgrade_fields(choice: int) -> Seq<FieldModel> {
    if choice == 0 {
        Seq::empty()
    } else if choice == 2 {
        asking_for("websocket"@).remove(1)
    } else if choice == 3 {
        asking_for("h2c"@)
    } else if choice == 4 {
        asking_for("websocket"@).push(named("content-length"@, "0"@))
    } else if choice == 5 {
        asking_for("websocket"@).push(named("sec-websocket-extensions"@, "x"@))
    } else if choice == 6 {
        asking_for("websocket"@).push(named("sec-websocket-protocol"@, "chat,chat"@))
    } else {
        asking_for("websocket"@)
    }
}

fn ask_for<'a>(protocol: &'a str) -> (fields: Vec<(&'a str, &'a str)>)
    ensures
        listed(fields@) == asking_for(protocol@),
{
    let fields: Vec<(&'a str, &'a str)> = vec![
        ("connection", "keep-alive, Upgrade"),
        ("upgrade", protocol),
        ("sec-websocket-version", "13"),
        ("sec-websocket-key", "dGhlIHNhbXBsZSBub25jZQ=="),
    ];
    assert(listed(fields@) =~= asking_for(protocol@));
    fields
}

fn upgrade_block(choice: usize) -> (headers: HeaderBlock)
    requires
        choice < SAMPLES,
    ensures
        headers@ == block_of(upgrade_fields(choice as int)),
{
    let mut fields: Vec<(&str, &str)> = ask_for(
        if choice == 3 {
            "h2c"
        } else {
            "websocket"
        },
    );
    let ghost asked = fields@;
    match choice {
        0 => {
            fields = vec![];
        },
        2 => {
            let _ = fields.remove(1);
        },
        4 => {
            fields.push(("content-length", "0"));
        },
        5 => {
            fields.push(("sec-websocket-extensions", "x"));
        },
        6 => {
            fields.push(("sec-websocket-protocol", "chat,chat"));
        },
        _ => {},
    }
    proof {
        assert(asked.len() == listed(asked).len());
        assert(listed(fields@) =~= upgrade_fields(choice as int));
    }
    block(fields)
}

/// A request, its fields and its framing, to decide on an upgrade.
pub fn sample_upgrade(choice: usize) -> (input: (RequestLine, HeaderBlock, BodyFraming))
    requires
        choice < SAMPLES,
    ensures
        input.0@ == line_of(
            if choice == 7 {
                "post"@
            } else {
                "get"@
            },
            "/"@,
        ),
        input.1@ == block_of(upgrade_fields(choice as int)),
        input.2 == (if choice == 8 {
            BodyFraming::Chunked
        } else {
            BodyFraming::NoBody
        }),
{
    let method: &str = if choice == 7 {
        "post"
    } else {
        "get"
    };
    let framing: BodyFraming = if choice == 8 {
        BodyFraming::Chunked
    } else {
        BodyFraming::NoBody
    };
    (line_with(method, "/"), upgrade_block(choice), framing)
}

pub open spec fn telemetry_code(choice: int) -> Seq<char> {
    if choice == 0 {
        "accepted"@
    } else if choice == 1 {
        "client_syntax"@
    } else if choice == 2 {
        "ambiguous_framing"@
    } else if choice == 3 {
        "policy_rejected"@
    } else if choice == 4 {
        "route_missing"@
    } else if choice == 5 {
        "upstream_failure"@
    } else if choice == 6 {
        "timeout"@
    } else if choice == 7 {
        "implementation_disagreement"@
    } else if choice == 8 {
        "internal_failure"@
    } else if choice == 9 {
        "unknown"@
    } else if choice == 10 {
        ""@
    } else {
        "/private"@
    }
}

/// An outcome code, and whether the upstream was reached.
pub fn sample_telemetry(choice: usize) -> (input: (&'static str, bool))
    requires
        choice < SAMPLES,
    ensures
        input.0@ == telemetry_code(choice as int),
        input.1 == (choice % 2 == 0),
{
    let code: &'static str = match choice {
        0 => "accepted",
        1 => "client_syntax",
        2 => "ambiguous_framing",
        3 => "policy_rejected",
        4 => "route_missing",
        5 => "upstream_failure",
        6 => "timeout",
        7 => "implementation_disagreement",
        8 => "internal_failure",
        9 => "unknown",
        10 => "",
        _ => "/private",
    };
    (code, choice % 2 == 0)
}

} // verus!
