//! Telemetry classification by composing vocabulary words.

use vstd::prelude::*;
use crate::bytes::{ByteClass, find_in};
use crate::telemetry::{
    category_of, classified, code_of, lemma_codes_are_distinct, lemma_fingerprint,
    permits_upstream, recorded,
};
use crate::text::{lemma_ascii_literal, lemma_utf8_injective, same_bytes, utf8};
use crate::types::{OutcomeCategory, PolyguardError, Result, TelemetryOutcome, outcome};

verus! {

const MAX_CODE_BYTES: usize = 27;

const UNDERSCORE: u8 = 0x5f;

#[derive(Clone, Copy, PartialEq, Eq, Structural)]
enum Word {
    Accepted,
    Ambiguous,
    Client,
    Disagreement,
    Failure,
    Framing,
    Implementation,
    Internal,
    Missing,
    Policy,
    Rejected,
    Route,
    Syntax,
    Timeout,
    Upstream,
}

/// How a word is spelled.
spec fn spelling(word: Word) -> Seq<char> {
    match word {
        Word::Accepted => "accepted"@,
        Word::Ambiguous => "ambiguous"@,
        Word::Client => "client"@,
        Word::Disagreement => "disagreement"@,
        Word::Failure => "failure"@,
        Word::Framing => "framing"@,
        Word::Implementation => "implementation"@,
        Word::Internal => "internal"@,
        Word::Missing => "missing"@,
        Word::Policy => "policy"@,
        Word::Rejected => "rejected"@,
        Word::Route => "route"@,
        Word::Syntax => "syntax"@,
        Word::Timeout => "timeout"@,
        Word::Upstream => "upstream"@,
    }
}

#[derive(Clone, Copy)]
struct Words {
    first: Word,
    second: Option<Word>,
}

impl Words {
    /// The code that the words make up, as bytes.
    spec fn code(self) -> Seq<u8> {
        match self.second {
            Some(second) => utf8(spelling(self.first)).push(UNDERSCORE) + utf8(spelling(second)),
            None => utf8(spelling(self.first)),
        }
    }
}

#[derive(Clone, Copy, PartialEq, Eq, Structural)]
enum Reachability {
    Either,
    BeforeUpstream,
}

struct ValidatedOutcome {
    category: OutcomeCategory,
    reachability: Reachability,
}

/// The words that make up a category's code.
spec fn words_of(category: OutcomeCategory) -> Words {
    match category {
        OutcomeCategory::Accepted => Words { first: Word::Accepted, second: None },
        OutcomeCategory::ClientSyntax => Words { first: Word::Client, second: Some(Word::Syntax) },
        OutcomeCategory::AmbiguousFraming => Words {
            first: Word::Ambiguous,
            second: Some(Word::Framing),
        },
        OutcomeCategory::PolicyRejected => Words {
            first: Word::Policy,
            second: Some(Word::Rejected),
        },
        OutcomeCategory::RouteMissing => Words { first: Word::Route, second: Some(Word::Missing) },
        OutcomeCategory::UpstreamFailure => Words {
            first: Word::Upstream,
            second: Some(Word::Failure),
        },
        OutcomeCategory::Timeout => Words { first: Word::Timeout, second: None },
        OutcomeCategory::ImplementationDisagreement => Words {
            first: Word::Implementation,
            second: Some(Word::Disagreement),
        },
        OutcomeCategory::InternalFailure => Words {
            first: Word::Internal,
            second: Some(Word::Failure),
        },
    }
}

/// The bytes of the words, and that no word holds an underscore.
proof fn lemma_spelling(word: Word)
    ensures
        utf8(spelling(word)) =~= Seq::new(
            spelling(word).len(),
            |i: int| spelling(word)[i] as u8,
        ),
        forall|i: int|
            0 <= i < spelling(word).len() ==> utf8(spelling(word))[i] != UNDERSCORE,
        0 < spelling(word).len() <= 14,
{
    reveal_strlit("accepted");
    reveal_strlit("ambiguous");
    reveal_strlit("client");
    reveal_strlit("disagreement");
    reveal_strlit("failure");
    reveal_strlit("framing");
    reveal_strlit("implementation");
    reveal_strlit("internal");
    reveal_strlit("missing");
    reveal_strlit("policy");
    reveal_strlit("rejected");
    reveal_strlit("route");
    reveal_strlit("syntax");
    reveal_strlit("timeout");
    reveal_strlit("upstream");
    lemma_ascii_literal(spelling(word));
}

/// A category's code is made up of its words.
proof fn lemma_words_make_codes(category: OutcomeCategory)
    ensures
        utf8(code_of(category)) =~= words_of(category).code(),
        code_of(category).len() <= MAX_CODE_BYTES,
        forall|i: int|
            0 <= i < utf8(code_of(category)).len() ==> (#[trigger] utf8(code_of(category))[i]
                == UNDERSCORE || ByteClass::Lower.has(utf8(code_of(category))[i])),
{
    reveal_strlit("accepted");
    reveal_strlit("ambiguous");
    reveal_strlit("client");
    reveal_strlit("disagreement");
    reveal_strlit("failure");
    reveal_strlit("framing");
    reveal_strlit("implementation");
    reveal_strlit("internal");
    reveal_strlit("missing");
    reveal_strlit("policy");
    reveal_strlit("rejected");
    reveal_strlit("route");
    reveal_strlit("syntax");
    reveal_strlit("timeout");
    reveal_strlit("upstream");
    reveal_strlit("client_syntax");
    reveal_strlit("ambiguous_framing");
    reveal_strlit("policy_rejected");
    reveal_strlit("route_missing");
    reveal_strlit("upstream_failure");
    reveal_strlit("implementation_disagreement");
    reveal_strlit("internal_failure");
    let words = words_of(category);
    lemma_ascii_literal(code_of(category));
    lemma_ascii_literal(spelling(words.first));
    if let Some(second) = words.second {
        lemma_ascii_literal(spelling(second));
    }
}

fn parse_word(word: &[u8]) -> (parsed: Result<Word>)
    ensures
        match parsed {
            Ok(w) => word@ == utf8(spelling(w)),
            Err(e) => e is SerializationInvariant && forall|w: Word|
                word@ != utf8(#[trigger] spelling(w)),
        },
{
    if same_bytes(word, "accepted".as_bytes()) {
        Ok(Word::Accepted)
    } else if same_bytes(word, "ambiguous".as_bytes()) {
        Ok(Word::Ambiguous)
    } else if same_bytes(word, "client".as_bytes()) {
        Ok(Word::Client)
    } else if same_bytes(word, "disagreement".as_bytes()) {
        Ok(Word::Disagreement)
    } else if same_bytes(word, "failure".as_bytes()) {
        Ok(Word::Failure)
    } else if same_bytes(word, "framing".as_bytes()) {
        Ok(Word::Framing)
    } else if same_bytes(word, "implementation".as_bytes()) {
        Ok(Word::Implementation)
    } else if same_bytes(word, "internal".as_bytes()) {
        Ok(Word::Internal)
    } else if same_bytes(word, "missing".as_bytes()) {
        Ok(Word::Missing)
    } else if same_bytes(word, "policy".as_bytes()) {
        Ok(Word::Policy)
    } else if same_bytes(word, "rejected".as_bytes()) {
        Ok(Word::Rejected)
    } else if same_bytes(word, "route".as_bytes()) {
        Ok(Word::Route)
    } else if same_bytes(word, "syntax".as_bytes()) {
        Ok(Word::Syntax)
    } else if same_bytes(word, "timeout".as_bytes()) {
        Ok(Word::Timeout)
    } else if same_bytes(word, "upstream".as_bytes()) {
        Ok(Word::Upstream)
    } else {
        Err(PolyguardError::SerializationInvariant)
    }
}

/// Whether every byte is an underscore or a lower-case letter.
fn is_vocabulary(bytes: &[u8]) -> (vocabulary: bool)
    ensures
        vocabulary == forall|i: int|
            0 <= i < bytes@.len() ==> (#[trigger] bytes@[i] == UNDERSCORE
                || ByteClass::Lower.has(bytes@[i])),
{
    let mut i: usize = 0;
    while i < bytes.len()
        invariant
            i <= bytes@.len(),
            forall|j: int|
                0 <= j < i ==> (#[trigger] bytes@[j] == UNDERSCORE || ByteClass::Lower.has(
                    bytes@[j],
                )),
        decreases bytes@.len() - i,
    {
        let byte: u8 = bytes[i];
        if !(byte == UNDERSCORE || ByteClass::Lower.has(byte)) {
            return false;
        }
        i += 1;
    }
    true
}

/// The one or two words of a code. Codes that are no such words, among them the empty code and
/// codes longer than the longest category code, are refused.
fn split_words(code: &str) -> (split: Result<Words>)
    ensures
        match split {
            Ok(words) => utf8(code@) == words.code(),
            Err(e) => e is SerializationInvariant && category_of(code@) is None,
        },
{
    let bytes = code.as_bytes();
    proof {
        if let Some(category) = category_of(code@) {
            lemma_words_make_codes(category);
            lemma_fingerprint(category);
            lemma_codes_are_distinct(category);
            lemma_spelling(words_of(category).first);
            if let Some(second) = words_of(category).second {
                lemma_spelling(second);
            }
        }
    }
    if bytes.len() == 0 || bytes.len() > MAX_CODE_BYTES || !is_vocabulary(bytes) {
        return Err(PolyguardError::SerializationInvariant);
    }
    let end: usize = find_in(bytes, ByteClass::Only(UNDERSCORE));
    let ghost known = category_of(code@);
    assert(known matches Some(category) ==> end == spelling(words_of(category).first).len()) by {
        if let Some(category) = known {
            let n = spelling(words_of(category).first).len() as int;
            if end < n {
                assert(bytes@[end as int] == utf8(spelling(words_of(category).first))[end as int]);
            } else if n < end {
                assert(words_of(category).second is Some);
                assert(bytes@[n] == UNDERSCORE);
            }
        }
    }
    let first = match parse_word(&bytes[0..end]) {
        Ok(word) => word,
        Err(error) => {
            proof {
                if let Some(category) = known {
                    assert(bytes@.subrange(0, end as int) =~= utf8(
                        spelling(words_of(category).first),
                    ));
                }
            }
            return Err(error);
        },
    };
    if end == bytes.len() {
        assert(bytes@.subrange(0, end as int) =~= bytes@);
        return Ok(Words { first, second: None });
    }
    let rest = &bytes[end + 1..bytes.len()];
    proof {
        if let Some(category) = known {
            assert(rest@ =~= utf8(spelling(words_of(category).second.unwrap())));
        }
    }
    let second_end: usize = find_in(rest, ByteClass::Only(UNDERSCORE));
    assert(known is Some ==> second_end == rest@.len());
    let second = match parse_word(&rest[0..second_end]) {
        Ok(word) => word,
        Err(error) => {
            proof {
                assert(known is Some ==> rest@.subrange(0, second_end as int) =~= rest@);
            }
            return Err(error);
        },
    };
    if second_end != rest.len() {
        return Err(PolyguardError::SerializationInvariant);
    }
    assert(rest@.subrange(0, second_end as int) =~= rest@);
    assert(bytes@ =~= bytes@.subrange(0, end as int).push(UNDERSCORE) + rest@);
    Ok(Words { first, second: Some(second) })
}

fn compose(words: Words) -> (composed: Result<ValidatedOutcome>)
    ensures
        match composed {
            Ok(v) => words_of(v.category) == words && (v.reachability is Either)
                == permits_upstream(v.category),
            Err(e) => e is SerializationInvariant && forall|category: OutcomeCategory|
                #[trigger] words_of(category) != words,
        },
{
    let (category, reachability) = match (words.first, words.second) {
        (Word::Accepted, None) => (OutcomeCategory::Accepted, Reachability::Either),
        (Word::Client, Some(Word::Syntax)) => (
            OutcomeCategory::ClientSyntax,
            Reachability::BeforeUpstream,
        ),
        (Word::Ambiguous, Some(Word::Framing)) => (
            OutcomeCategory::AmbiguousFraming,
            Reachability::BeforeUpstream,
        ),
        (Word::Policy, Some(Word::Rejected)) => (
            OutcomeCategory::PolicyRejected,
            Reachability::BeforeUpstream,
        ),
        (Word::Route, Some(Word::Missing)) => (
            OutcomeCategory::RouteMissing,
            Reachability::BeforeUpstream,
        ),
        (Word::Upstream, Some(Word::Failure)) => (
            OutcomeCategory::UpstreamFailure,
            Reachability::Either,
        ),
        (Word::Timeout, None) => (OutcomeCategory::Timeout, Reachability::Either),
        (Word::Implementation, Some(Word::Disagreement)) => (
            OutcomeCategory::ImplementationDisagreement,
            Reachability::BeforeUpstream,
        ),
        (Word::Internal, Some(Word::Failure)) => (
            OutcomeCategory::InternalFailure,
            Reachability::Either,
        ),
        _ => return Err(PolyguardError::SerializationInvariant),
    };
    Ok(ValidatedOutcome { category, reachability })
}

/// Two word lists that make up the same code are the same.
proof fn lemma_code_determines_words(a: Words, b: Words)
    requires
        a.code() == b.code(),
    ensures
        utf8(spelling(a.first)) == utf8(spelling(b.first)),
        a.second is Some <==> b.second is Some,
        a.second is Some ==> utf8(spelling(a.second.unwrap())) == utf8(
            spelling(b.second.unwrap()),
        ),
{
    lemma_spelling(a.first);
    lemma_spelling(b.first);
    if let Some(s) = a.second {
        lemma_spelling(s);
    }
    if let Some(s) = b.second {
        lemma_spelling(s);
    }
    let c = a.code();
    let n = spelling(a.first).len() as int;
    let m = spelling(b.first).len() as int;
    assert(n < c.len() ==> c[n] == UNDERSCORE);
    assert(m < c.len() ==> b.code()[m] == UNDERSCORE);
    if n < m {
        assert(b.code()[n] == utf8(spelling(b.first))[n]);
    } else if m < n {
        assert(a.code()[m] == utf8(spelling(a.first))[m]);
    }
    assert(utf8(spelling(a.first)) =~= c.subrange(0, n));
    assert(utf8(spelling(b.first)) =~= b.code().subrange(0, m));
    if a.second is Some && b.second is Some {
        assert(utf8(spelling(a.second.unwrap())) =~= c.subrange(n + 1, c.len() as int));
        assert(utf8(spelling(b.second.unwrap())) =~= b.code().subrange(m + 1, c.len() as int));
    }
}

/// Words are spelled differently.
proof fn lemma_spelling_injective(a: Word, b: Word)
    requires
        utf8(spelling(a)) == utf8(spelling(b)),
    ensures
        a == b,
{
    lemma_utf8_injective(spelling(a), spelling(b));
    reveal_strlit("accepted");
    reveal_strlit("ambiguous");
    reveal_strlit("client");
    reveal_strlit("disagreement");
    reveal_strlit("failure");
    reveal_strlit("framing");
    reveal_strlit("implementation");
    reveal_strlit("internal");
    reveal_strlit("missing");
    reveal_strlit("policy");
    reveal_strlit("rejected");
    reveal_strlit("route");
    reveal_strlit("syntax");
    reveal_strlit("timeout");
    reveal_strlit("upstream");
    let s = spelling(a);
    let t = spelling(b);
    assert(s.len() == t.len() && s[0] == t[0] && s[1] == t[1] && s[2] == t[2]);
}

fn validate_boundary(code: &str) -> (validated: Result<ValidatedOutcome>)
    ensures
        match validated {
            Ok(v) => category_of(code@) == Some(v.category) && (v.reachability is Either)
                == permits_upstream(v.category),
            Err(e) => e is SerializationInvariant && category_of(code@) is None,
        },
{
    let words = split_words(code)?;
    let composed = compose(words);
    proof {
        match &composed {
            Ok(v) => {
                lemma_words_make_codes(v.category);
                lemma_utf8_injective(code@, code_of(v.category));
                lemma_codes_are_distinct(v.category);
            },
            Err(_) => {
                if let Some(category) = category_of(code@) {
                    lemma_words_make_codes(category);
                    lemma_codes_are_distinct(category);
                    let other = words_of(category);
                    lemma_code_determines_words(words, other);
                    lemma_spelling_injective(words.first, other.first);
                    if words.second is Some {
                        lemma_spelling_injective(words.second.unwrap(), other.second.unwrap());
                    }
                    assert(words == other);
                }
            },
        }
    }
    composed
}

fn validate_reachability(validated: &ValidatedOutcome, upstream_reached: bool) -> (checked: Result<
    (),
>)
    ensures
        match checked {
            Ok(_) => !(upstream_reached && validated.reachability is BeforeUpstream),
            Err(e) => e is SerializationInvariant && upstream_reached
                && validated.reachability is BeforeUpstream,
        },
{
    if upstream_reached && matches!(validated.reachability, Reachability::BeforeUpstream) {
        return Err(PolyguardError::SerializationInvariant);
    }
    Ok(())
}

fn project(validated: ValidatedOutcome) -> (projected: TelemetryOutcome)
    ensures
        projected == recorded(validated.category),
{
    let success = matches!(validated.category, OutcomeCategory::Accepted);
    TelemetryOutcome { category: validated.category, success }
}

/// Classify a fixed code by composing its validated vocabulary words.
pub fn classify_telemetry_outcome(code: &str, upstream_reached: bool) -> (result: Result<
    TelemetryOutcome,
>)
    ensures
        outcome(result) == classified(code@, upstream_reached),
{
    let validated = validate_boundary(code)?;
    validate_reachability(&validated, upstream_reached)?;
    Ok(project(validated))
}

} // verus!
