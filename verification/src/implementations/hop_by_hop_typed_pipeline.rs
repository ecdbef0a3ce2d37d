//! Hop-by-hop removal by a pipeline of typed header events.

use vstd::prelude::*;
use crate::bytes::{
    ByteClass, first_in, is_ows, is_token, is_trimmed_range, lemma_first_in, lemma_trimmed,
    lemma_trimmed_ends, lower_bytes, lowered, split, trimmed,
};
use crate::hop_by_hop::{
    connection, contributes, copy_field, invalid_connection, is_fixed, is_nomination,
    lemma_nominates_next, lemma_removed_names, lemma_removes_next, member, nominates, rejected_at,
    removes, sanitized, survivors, valid_connection,
};
use crate::names::NameSet;
use crate::text::{ascii_text, same_text, utf8};
use crate::types::{
    FieldModel, HeaderBlock, HeaderField, Result, SanitizedHeaders, fields_of, invalid_header,
    outcome,
};

verus! {

#[derive(Clone, Copy, PartialEq, Eq, Structural)]
enum RuleEffect {
    Drop,
    ReadConnectionTokens,
}

#[derive(Clone, Copy)]
struct HeaderRule {
    name: &'static str,
    effect: RuleEffect,
}

fn rule_named(name: &str) -> (rule: Option<HeaderRule>)
    ensures
        rule is Some <==> is_fixed(utf8(name@)),
        rule matches Some(r) ==> utf8(r.name@) == utf8(name@) && (r.effect is ReadConnectionTokens
            <==> utf8(name@) == connection()),
{
    if same_text(name, "connection") {
        return Some(HeaderRule { name: "connection", effect: RuleEffect::ReadConnectionTokens });
    }
    let dropped: &'static str = if same_text(name, "proxy-connection") {
        "proxy-connection"
    } else if same_text(name, "keep-alive") {
        "keep-alive"
    } else if same_text(name, "transfer-encoding") {
        "transfer-encoding"
    } else if same_text(name, "te") {
        "te"
    } else if same_text(name, "trailer") {
        "trailer"
    } else if same_text(name, "upgrade") {
        "upgrade"
    } else if same_text(name, "proxy-authenticate") {
        "proxy-authenticate"
    } else if same_text(name, "proxy-authorization") {
        "proxy-authorization"
    } else {
        return None;
    };
    Some(HeaderRule { name: dropped, effect: RuleEffect::Drop })
}

enum HeaderEvent<'a> {
    EndToEnd,
    FixedHopByHop(&'static str),
    Connection { index: usize, value: &'a [u8] },
}

impl<'a> HeaderEvent<'a> {
    /// Whether the event is that of a field at an index.
    spec fn reports(self, at: int, field: FieldModel) -> bool {
        match self {
            HeaderEvent::EndToEnd => !is_fixed(field.name),
            HeaderEvent::FixedHopByHop(name) => is_fixed(field.name) && field.name != connection()
                && utf8(name@) == field.name,
            HeaderEvent::Connection { index, value } => field.name == connection() && index == at
                && value@ == field.value,
        }
    }

    fn classify(index: usize, field: &'a HeaderField) -> (event: Self)
        ensures
            event.reports(index as int, field@),
    {
        match rule_named(field.name.as_str()) {
            None => HeaderEvent::EndToEnd,
            Some(rule) => match rule.effect {
                RuleEffect::Drop => HeaderEvent::FixedHopByHop(rule.name),
                RuleEffect::ReadConnectionTokens => HeaderEvent::Connection {
                    index,
                    value: field.value.as_slice(),
                },
            },
        }
    }
}

struct RemovalLedger {
    names: NameSet,
}

impl RemovalLedger {
    /// Records what the event of a field removes.
    fn apply(&mut self, event: HeaderEvent<'_>, Ghost(at): Ghost<int>, Ghost(field): Ghost<
        FieldModel,
    >) -> (applied: Result<()>)
        requires
            old(self).names.well_formed(),
            event.reports(at, field),
        ensures
            final(self).names.well_formed(),
            match applied {
                Ok(_) => !(field.name == connection() && !valid_connection(field.value)) && forall|
                    name: Seq<u8>,
                |
                    #[trigger] final(self).names.has(name) <==> old(self).names.has(name)
                        || contributes(field, name),
                Err(e) => field.name == connection() && !valid_connection(field.value) && e@
                    == invalid_connection(at),
            },
    {
        match event {
            HeaderEvent::EndToEnd => {},
            HeaderEvent::FixedHopByHop(name) => {
                self.names.insert(name.to_owned());
            },
            HeaderEvent::Connection { index, value } => {
                self.names.insert("connection".to_owned());
                let ghost start = self.names;
                let mut members = ConnectionMembers::new(value);
                let ghost pieces = split(value@, ',' as u8);
                loop
                    invariant
                        members.well_formed(),
                        members.value@ == value@,
                        field.name == connection(),
                        field.value == value@,
                        index == at,
                        pieces == split(value@, ',' as u8),
                        self.names.well_formed(),
                        !(members.position is Rejected),
                        forall|j: int|
                            0 <= j < members.seen@ ==> is_nomination(#[trigger] member(value@, j)),
                        forall|name: Seq<u8>|
                            #[trigger] self.names.has(name) <==> start.has(name) || nominates(
                                value@,
                                members.seen@,
                                name,
                            ),
                    ensures
                        members.seen@ == pieces.len(),
                        self.names.well_formed(),
                        forall|j: int|
                            0 <= j < members.seen@ ==> is_nomination(#[trigger] member(value@, j)),
                        forall|name: Seq<u8>|
                            #[trigger] self.names.has(name) <==> start.has(name) || nominates(
                                value@,
                                members.seen@,
                                name,
                            ),
                    decreases pieces.len() - members.seen@,
                {
                    let ghost at_member = members.seen@;
                    proof {
                        lemma_nominates_next(value@, at_member);
                    }
                    match members.next() {
                        None => {
                            break;
                        },
                        Some(Ok(token)) => {
                            self.names.insert(lowercase_token(token));
                        },
                        Some(Err(())) => {
                            return Err(invalid_header(index, "invalid_connection_token"));
                        },
                    }
                }
            },
        }
        Ok(())
    }
}

#[derive(Clone, Copy)]
enum ScanPosition {
    MemberStart(usize),
    Complete,
    Rejected,
}

/// A scan over the members of a Connection value.
struct ConnectionMembers<'a> {
    value: &'a [u8],
    position: ScanPosition,
    /// How many members the scan has gone past.
    seen: Ghost<int>,
}

impl<'a> ConnectionMembers<'a> {
    spec fn well_formed(self) -> bool {
        let pieces = split(self.value@, ',' as u8);
        match self.position {
            ScanPosition::MemberStart(cursor) => {
                &&& cursor <= self.value@.len()
                &&& 0 <= self.seen@ < pieces.len()
                &&& pieces.skip(self.seen@) == split(self.value@.skip(cursor as int), ',' as u8)
            },
            ScanPosition::Complete => self.seen@ == pieces.len(),
            ScanPosition::Rejected => true,
        }
    }

    fn new(value: &'a [u8]) -> (members: Self)
        ensures
            members.well_formed(),
            members.value@ == value@,
            members.seen@ == 0,
            members.position is MemberStart,
    {
        let ghost pieces = split(value@, ',' as u8);
        assert(value@.skip(0) =~= value@);
        assert(pieces.skip(0) =~= pieces);
        ConnectionMembers { value, position: ScanPosition::MemberStart(0), seen: Ghost(0) }
    }

    /// The next member's token; an error where the member is none.
    fn next(&mut self) -> (item: Option<std::result::Result<&'a [u8], ()>>)
        requires
            old(self).well_formed(),
        ensures
            final(self).well_formed(),
            final(self).value@ == old(self).value@,
            match item {
                None => !(old(self).position is MemberStart) && *final(self) == *old(self),
                Some(Ok(token)) => {
                    &&& old(self).position is MemberStart
                    &&& !(final(self).position is Rejected)
                    &&& final(self).seen@ == old(self).seen@ + 1
                    &&& token@ == member(old(self).value@, old(self).seen@)
                    &&& is_nomination(token@)
                },
                Some(Err(_)) => {
                    &&& old(self).position is MemberStart
                    &&& final(self).position is Rejected
                    &&& 0 <= old(self).seen@ < split(old(self).value@, ',' as u8).len()
                    &&& !is_nomination(member(old(self).value@, old(self).seen@))
                },
            },
    {
        let start: usize = match self.position {
            ScanPosition::MemberStart(cursor) => cursor,
            _ => return None,
        };
        let value: &'a [u8] = self.value;
        let ghost pieces = split(value@, ',' as u8);
        let ghost seen = self.seen@;
        let token_start: usize = skip_while(value, start, ByteClass::Ows);
        let token_end: usize = skip_while(value, token_start, ByteClass::Token);
        let cursor: usize = skip_while(value, token_end, ByteClass::Ows);
        // The piece that the scan stands in ends at the next comma, or at the end of the value.
        let ghost rest = value@.skip(start as int);
        let ghost comma = first_in(rest, ByteClass::Only(',' as u8));
        let ghost piece = rest.take(comma);
        proof {
            lemma_first_in(rest, ByteClass::Only(',' as u8));
            assert(pieces.skip(seen)[0] == pieces[seen]);
            assert(rest.take(rest.len() as int) =~= rest);
            assert(pieces[seen] == piece);
            assert(piece =~= value@.subrange(start as int, start + comma));
            assert(cursor <= start + comma) by {
                if start + comma < cursor {
                    let c = value@[start + comma];
                    assert(c == rest[comma]);
                    assert(c == ',' as u8);
                }
            }
            if token_start < token_end && cursor == start + comma {
                assert(is_trimmed_range(
                    piece,
                    token_start - start,
                    token_end - start,
                )) by {
                    assert forall|j: int| 0 <= j < token_start - start implies is_ows(
                        #[trigger] piece[j],
                    ) by {
                        assert(piece[j] == value@[start + j]);
                    }
                    assert forall|j: int| token_end - start <= j < piece.len() implies is_ows(
                        #[trigger] piece[j],
                    ) by {
                        assert(piece[j] == value@[start + j]);
                    }
                    assert(piece[token_start - start] == value@[token_start as int]);
                    assert(piece[token_end - start - 1] == value@[token_end - 1]);
                }
                lemma_trimmed(piece, token_start - start, token_end - start);
                assert(trimmed(piece) =~= value@.subrange(token_start as int, token_end as int));
                assert forall|j: int| 0 <= j < trimmed(piece).len() implies ByteClass::Token.has(
                    #[trigger] trimmed(piece)[j],
                ) by {
                    assert(trimmed(piece)[j] == value@[token_start + j]);
                }
            } else if is_nomination(trimmed(piece)) {
                lemma_member_scan(value@, start as int, start + comma, token_start as int,
                    token_end as int, cursor as int, piece);
            }
            if comma < rest.len() {
                assert(rest.skip(comma + 1) =~= value@.skip(start + comma + 1));
                assert(split(rest, ',' as u8).skip(1) =~= split(rest.skip(comma + 1), ',' as u8));
                assert(pieces.skip(seen + 1) =~= pieces.skip(seen).skip(1));
                assert(split(rest.skip(comma + 1), ',' as u8).len() > 0);
            } else {
                assert(pieces.skip(seen).len() == 1);
            }
        }
        if token_start == token_end {
            self.position = ScanPosition::Rejected;
            return Some(Err(()));
        }
        if cursor == value.len() {
            self.position = ScanPosition::Complete;
        } else if value[cursor] == ',' as u8 {
            assert(rest[cursor - start] == ',' as u8);
            self.position = ScanPosition::MemberStart(cursor + 1);
        } else {
            self.position = ScanPosition::Rejected;
            return Some(Err(()));
        }
        self.seen = Ghost(seen + 1);
        Some(Ok(&value[token_start..token_end]))
    }
}

/// A scan of a token with white space around it reaches the end of its piece.
proof fn lemma_member_scan(
    value: Seq<u8>,
    start: int,
    end: int,
    token_start: int,
    token_end: int,
    cursor: int,
    piece: Seq<u8>,
)
    requires
        0 <= start <= token_start <= token_end <= cursor <= end <= value.len(),
        piece == value.subrange(start, end),
        is_nomination(trimmed(piece)),
        forall|j: int| start <= j < token_start ==> is_ows(#[trigger] value[j]),
        token_start < value.len() ==> !is_ows(value[token_start]),
        forall|j: int| token_start <= j < token_end ==> is_token(#[trigger] value[j]),
        token_end < value.len() ==> !is_token(value[token_end]),
        forall|j: int| token_end <= j < cursor ==> is_ows(#[trigger] value[j]),
        cursor < value.len() ==> !is_ows(value[cursor]),
    ensures
        token_start < token_end,
        cursor == end,
{
    lemma_trimmed_ends(piece);
    let (a, b) = choose|a: int, b: int|
        #[trigger] is_trimmed_range(piece, a, b) && trimmed(piece) == piece.subrange(a, b);
    assert(a < b);
    assert forall|j: int| a <= j < b implies is_token(#[trigger] piece[j]) by {
        assert(ByteClass::Token.has(trimmed(piece)[j - a]));
    }
    assert(piece[a] == value[start + a]);
    if token_start < start + a {
        assert(is_ows(piece[token_start - start]));
        assert(piece[token_start - start] == value[token_start]);
    } else if start + a < token_start {
        assert(is_ows(value[start + a]));
    }
    if token_end < start + b {
        assert(is_token(piece[token_end - start]));
        assert(piece[token_end - start] == value[token_end]);
    } else if start + b < token_end {
        assert(is_token(value[start + b]));
        assert(piece[b] == value[start + b]);
        assert(is_ows(piece[b]));
    }
    if cursor < end {
        assert(is_ows(piece[cursor - start]));
        assert(piece[cursor - start] == value[cursor]);
    }
}

/// The index of the first byte from `from` on that is not in the class.
fn skip_while(value: &[u8], from: usize, class: ByteClass) -> (end: usize)
    requires
        from <= value@.len(),
    ensures
        from <= end <= value@.len(),
        forall|j: int| from <= j < end ==> class.has(#[trigger] value@[j]),
        end < value@.len() ==> !class.has(value@[end as int]),
{
    let mut end: usize = from;
    while end < value.len() && class.has(value[end])
        invariant
            from <= end <= value@.len(),
            forall|j: int| from <= j < end ==> class.has(#[trigger] value@[j]),
        decreases value@.len() - end,
    {
        end += 1;
    }
    end
}

/// Remove fixed hop-by-hop fields and all fields nominated by validated
/// `Connection` list members, preserving end-to-end field order and bytes.
pub fn remove_hop_by_hop_headers(headers: &HeaderBlock) -> (result: Result<SanitizedHeaders>)
    ensures
        outcome(result) == sanitized(headers@.fields),
{
    let mut ledger = RemovalLedger { names: NameSet::new() };
    let mut index: usize = 0;
    let ghost models = headers@.fields;
    while index < headers.fields.len()
        invariant
            index <= headers.fields@.len(),
            models == fields_of(headers.fields@),
            models == headers@.fields,
            rejected_at(models, 0) == rejected_at(models, index as int),
            ledger.names.well_formed(),
            forall|name: Seq<u8>|
                #[trigger] ledger.names.has(name) <==> removes(models, index as int, name),
        decreases headers.fields@.len() - index,
    {
        let field: &HeaderField = &headers.fields[index];
        assert(models[index as int] == field@);
        proof {
            lemma_removes_next(models, index as int);
        }
        let event = HeaderEvent::classify(index, field);
        ledger.apply(event, Ghost(index as int), Ghost(field@))?;
        index += 1;
    }
    let mut fields: Vec<HeaderField> = Vec::new();
    let mut at: usize = 0;
    while at < headers.fields.len()
        invariant
            at <= headers.fields@.len(),
            models == fields_of(headers.fields@),
            ledger.names.well_formed(),
            forall|name: Seq<u8>|
                #[trigger] ledger.names.has(name) <==> removes(models, models.len() as int, name),
            fields_of(fields@) =~= survivors(models, at as int),
        decreases headers.fields@.len() - at,
    {
        let field: &HeaderField = &headers.fields[at];
        assert(models[at as int] == field@);
        if !ledger.names.contains(field.name.as_str()) {
            let ghost before = fields_of(fields@);
            fields.push(copy_field(field));
            assert(fields_of(fields@) =~= before.push(field@));
        }
        at += 1;
    }
    proof {
        let listed = ledger.names.listed();
        assert forall|name: Seq<u8>| #[trigger] listed.contains(name) <==> removes(
            models,
            models.len() as int,
            name,
        ) by {
            assert(ledger.names.has(name) == listed.contains(name));
        }
        lemma_removed_names(models, listed);
    }
    Ok(SanitizedHeaders { fields, removed_names: ledger.names.into_names() })
}

fn lowercase_token(token: &[u8]) -> (text: String)
    requires
        is_nomination(token@),
    ensures
        utf8(text@) == lowered(token@),
{
    let canonical: Vec<u8> = lower_bytes(token);
    proof {
        assert(forall|i: int|
            0 <= i < token@.len() ==> ByteClass::Token.has(#[trigger] token@[i]));
    }
    ascii_text(canonical.as_slice())
}

} // verus!
