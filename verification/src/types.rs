//! The values that the operations take and return, and the models that contracts speak of.
//!
//! A model holds text as the bytes of its UTF-8 encoding and numbers as mathematical integers.

use vstd::prelude::*;
use crate::text::utf8;

verus! {

/// The protocol version of a request.
#[derive(Clone, Copy, Debug, PartialEq, Eq, Structural)]
pub enum HttpVersion {
    Http11,
}

/// The first line of a request.
#[derive(Clone, Debug, PartialEq, Eq)]
pub struct RequestLine {
    pub method: String,
    pub target: String,
    pub version: HttpVersion,
    pub bytes_consumed: usize,
}

/// What a [`RequestLine`] stands for.
#[verifier::ext_equal]
pub struct RequestLineModel {
    pub method: Seq<u8>,
    pub target: Seq<u8>,
    pub version: HttpVersion,
    pub bytes_consumed: int,
}

impl View for RequestLine {
    type V = RequestLineModel;

    open spec fn view(&self) -> RequestLineModel {
        RequestLineModel {
            method: utf8(self.method@),
            target: utf8(self.target@),
            version: self.version,
            bytes_consumed: self.bytes_consumed as int,
        }
    }
}

/// A header or trailer field: a name and the raw bytes of its value.
#[derive(Clone, Debug, PartialEq, Eq)]
pub struct HeaderField {
    pub name: String,
    pub value: Vec<u8>,
}

/// What a [`HeaderField`] stands for.
#[verifier::ext_equal]
pub struct FieldModel {
    pub name: Seq<u8>,
    pub value: Seq<u8>,
}

impl View for HeaderField {
    type V = FieldModel;

    open spec fn view(&self) -> FieldModel {
        FieldModel { name: utf8(self.name@), value: self.value@ }
    }
}

/// The fields that a sequence of header fields stands for, in order.
pub open spec fn fields_of(fields: Seq<HeaderField>) -> Seq<FieldModel> {
    fields.map_values(|f: HeaderField| f@)
}

/// A parsed header section.
#[derive(Clone, Debug, PartialEq, Eq)]
pub struct HeaderBlock {
    pub fields: Vec<HeaderField>,
    pub bytes_consumed: usize,
}

/// A parsed trailer section.
#[derive(Clone, Debug, PartialEq, Eq)]
pub struct TrailerBlock {
    pub fields: Vec<HeaderField>,
    pub bytes_consumed: usize,
}

/// What a [`HeaderBlock`] or a [`TrailerBlock`] stands for.
#[verifier::ext_equal]
pub struct BlockModel {
    pub fields: Seq<FieldModel>,
    pub bytes_consumed: int,
}

impl View for HeaderBlock {
    type V = BlockModel;

    open spec fn view(&self) -> BlockModel {
        BlockModel {
            fields: fields_of(self.fields@),
            bytes_consumed: self.bytes_consumed as int,
        }
    }
}

impl View for TrailerBlock {
    type V = BlockModel;

    open spec fn view(&self) -> BlockModel {
        BlockModel {
            fields: fields_of(self.fields@),
            bytes_consumed: self.bytes_consumed as int,
        }
    }
}

/// How the end of a message body is found.
#[derive(Clone, Copy, Debug, PartialEq, Eq, Structural)]
pub enum BodyFraming {
    NoBody,
    ContentLength(u64),
    Chunked,
}

impl View for BodyFraming {
    type V = BodyFraming;

    open spec fn view(&self) -> BodyFraming {
        *self
    }
}

/// One extension of a chunk-size line.
#[derive(Clone, Debug, PartialEq, Eq)]
pub struct ChunkExtension {
    pub name: String,
    pub value: Option<String>,
}

/// What a [`ChunkExtension`] stands for.
#[verifier::ext_equal]
pub struct ExtensionModel {
    pub name: Seq<u8>,
    pub value: Option<Seq<u8>>,
}

impl View for ChunkExtension {
    type V = ExtensionModel;

    open spec fn view(&self) -> ExtensionModel {
        ExtensionModel {
            name: utf8(self.name@),
            value: match self.value {
                Some(v) => Some(utf8(v@)),
                None => None,
            },
        }
    }
}

/// The extensions that a sequence of chunk extensions stands for, in order.
pub open spec fn extensions_of(extensions: Seq<ChunkExtension>) -> Seq<ExtensionModel> {
    extensions.map_values(|e: ChunkExtension| e@)
}

/// A parsed chunk-size line.
#[derive(Clone, Debug, PartialEq, Eq)]
pub struct ChunkMeta {
    pub size: u64,
    pub extensions: Vec<ChunkExtension>,
    pub bytes_consumed: usize,
}

/// What a [`ChunkMeta`] stands for.
#[verifier::ext_equal]
pub struct ChunkModel {
    pub size: int,
    pub extensions: Seq<ExtensionModel>,
    pub bytes_consumed: int,
}

impl View for ChunkMeta {
    type V = ChunkModel;

    open spec fn view(&self) -> ChunkModel {
        ChunkModel {
            size: self.size as int,
            extensions: extensions_of(self.extensions@),
            bytes_consumed: self.bytes_consumed as int,
        }
    }
}

/// The form of a request target.
#[derive(Clone, Copy, Debug, PartialEq, Eq, Structural)]
pub enum TargetForm {
    Origin,
    Absolute,
    Authority,
    Asterisk,
}

/// A request target in canonical form.
#[derive(Clone, Debug, PartialEq, Eq)]
pub struct NormalizedTarget {
    pub form: TargetForm,
    pub scheme: Option<String>,
    pub authority: Option<String>,
    pub path_and_query: String,
    pub routing_path: String,
}

/// What a [`NormalizedTarget`] stands for.
#[verifier::ext_equal]
pub struct TargetModel {
    pub form: TargetForm,
    pub scheme: Option<Seq<u8>>,
    pub authority: Option<Seq<u8>>,
    pub path_and_query: Seq<u8>,
    pub routing_path: Seq<u8>,
}

/// The bytes of an optional text.
pub open spec fn utf8_opt(text: Option<String>) -> Option<Seq<u8>> {
    match text {
        Some(t) => Some(utf8(t@)),
        None => None,
    }
}

impl View for NormalizedTarget {
    type V = TargetModel;

    open spec fn view(&self) -> TargetModel {
        TargetModel {
            form: self.form,
            scheme: utf8_opt(self.scheme),
            authority: utf8_opt(self.authority),
            path_and_query: utf8(self.path_and_query@),
            routing_path: utf8(self.routing_path@),
        }
    }
}

/// The host and port that a request is addressed to.
#[derive(Clone, Debug, PartialEq, Eq)]
pub struct EffectiveAuthority {
    pub host: String,
    pub port: Option<u16>,
}

/// What an [`EffectiveAuthority`] stands for.
#[verifier::ext_equal]
pub struct AuthorityModel {
    pub host: Seq<u8>,
    pub port: Option<u16>,
}

impl View for EffectiveAuthority {
    type V = AuthorityModel;

    open spec fn view(&self) -> AuthorityModel {
        AuthorityModel { host: utf8(self.host@), port: self.port }
    }
}

/// End-to-end header fields, with the names of the hop-by-hop fields that were taken out.
#[derive(Clone, Debug, PartialEq, Eq)]
pub struct SanitizedHeaders {
    pub fields: Vec<HeaderField>,
    pub removed_names: Vec<String>,
}

/// What a [`SanitizedHeaders`] stands for.
#[verifier::ext_equal]
pub struct SanitizedModel {
    pub fields: Seq<FieldModel>,
    pub removed_names: Seq<Seq<u8>>,
}

/// The byte strings of a sequence of texts, in order.
pub open spec fn texts_of(texts: Seq<String>) -> Seq<Seq<u8>> {
    texts.map_values(|t: String| utf8(t@))
}

impl View for SanitizedHeaders {
    type V = SanitizedModel;

    open spec fn view(&self) -> SanitizedModel {
        SanitizedModel {
            fields: fields_of(self.fields@),
            removed_names: texts_of(self.removed_names@),
        }
    }
}

/// How forwarding fields are produced for an upstream request.
#[derive(Clone, Debug, PartialEq, Eq)]
pub struct ForwardingPolicy {
    pub trust_incoming: bool,
    pub client_ip: String,
    pub proto: String,
    pub host: String,
}

/// What a [`ForwardingPolicy`] stands for.
#[verifier::ext_equal]
pub struct PolicyModel {
    pub trust_incoming: bool,
    pub client_ip: Seq<u8>,
    pub proto: Seq<u8>,
    pub host: Seq<u8>,
}

impl View for ForwardingPolicy {
    type V = PolicyModel;

    open spec fn view(&self) -> PolicyModel {
        PolicyModel {
            trust_incoming: self.trust_incoming,
            client_ip: utf8(self.client_ip@),
            proto: utf8(self.proto@),
            host: utf8(self.host@),
        }
    }
}

/// The forwarding fields of an upstream request.
#[derive(Clone, Debug, PartialEq, Eq)]
pub struct ForwardingResult {
    pub forwarded: String,
    pub x_forwarded_for: String,
    pub x_forwarded_proto: String,
    pub x_forwarded_host: String,
}

/// What a [`ForwardingResult`] stands for.
#[verifier::ext_equal]
pub struct ForwardingModel {
    pub forwarded: Seq<u8>,
    pub x_forwarded_for: Seq<u8>,
    pub x_forwarded_proto: Seq<u8>,
    pub x_forwarded_host: Seq<u8>,
}

impl View for ForwardingResult {
    type V = ForwardingModel;

    open spec fn view(&self) -> ForwardingModel {
        ForwardingModel {
            forwarded: utf8(self.forwarded@),
            x_forwarded_for: utf8(self.x_forwarded_for@),
            x_forwarded_proto: utf8(self.x_forwarded_proto@),
            x_forwarded_host: utf8(self.x_forwarded_host@),
        }
    }
}

/// A serialized upstream request head.
#[derive(Clone, Debug, PartialEq, Eq)]
pub struct CanonicalRequestHead {
    pub bytes: Vec<u8>,
    pub body_framing: BodyFraming,
}

/// What a [`CanonicalRequestHead`] stands for.
#[verifier::ext_equal]
pub struct HeadModel {
    pub bytes: Seq<u8>,
    pub body_framing: BodyFraming,
}

impl View for CanonicalRequestHead {
    type V = HeadModel;

    open spec fn view(&self) -> HeadModel {
        HeadModel { bytes: self.bytes@, body_framing: self.body_framing }
    }
}

/// A routing rule.
#[derive(Clone, Debug, PartialEq, Eq)]
pub struct RouteRule {
    pub host: String,
    pub path_prefix: String,
    pub upstream: String,
    pub declaration_order: usize,
}

/// What a [`RouteRule`] stands for.
#[verifier::ext_equal]
pub struct RuleModel {
    pub host: Seq<u8>,
    pub path_prefix: Seq<u8>,
    pub upstream: Seq<u8>,
    pub declaration_order: int,
}

impl View for RouteRule {
    type V = RuleModel;

    open spec fn view(&self) -> RuleModel {
        RuleModel {
            host: utf8(self.host@),
            path_prefix: utf8(self.path_prefix@),
            upstream: utf8(self.upstream@),
            declaration_order: self.declaration_order as int,
        }
    }
}

/// The rules that a sequence of routing rules stands for, in order.
pub open spec fn rules_of(rules: Seq<RouteRule>) -> Seq<RuleModel> {
    rules.map_values(|r: RouteRule| r@)
}

/// The route chosen for a request.
#[derive(Clone, Debug, PartialEq, Eq)]
pub struct RouteMatch {
    pub upstream: String,
    pub declaration_order: usize,
}

/// What a [`RouteMatch`] stands for.
#[verifier::ext_equal]
pub struct MatchModel {
    pub upstream: Seq<u8>,
    pub declaration_order: int,
}

impl View for RouteMatch {
    type V = MatchModel;

    open spec fn view(&self) -> MatchModel {
        MatchModel {
            upstream: utf8(self.upstream@),
            declaration_order: self.declaration_order as int,
        }
    }
}

/// The class that telemetry files an outcome under.
#[derive(Clone, Copy, Debug, PartialEq, Eq, Structural)]
pub enum OutcomeCategory {
    Accepted,
    ClientSyntax,
    AmbiguousFraming,
    PolicyRejected,
    RouteMissing,
    UpstreamFailure,
    Timeout,
    ImplementationDisagreement,
    InternalFailure,
}

/// A classified outcome.
#[derive(Clone, Copy, Debug, PartialEq, Eq, Structural)]
pub struct TelemetryOutcome {
    pub category: OutcomeCategory,
    pub success: bool,
}

impl View for TelemetryOutcome {
    type V = TelemetryOutcome;

    open spec fn view(&self) -> TelemetryOutcome {
        *self
    }
}

/// Why an operation rejected its input.
#[derive(Clone, Debug, PartialEq, Eq)]
pub enum PolyguardError {
    Incomplete,
    LimitExceeded { limit: String, max: usize, actual: usize },
    InvalidRequestLine { reason: String },
    InvalidMethod,
    InvalidTarget { reason: String },
    UnsupportedVersion,
    InvalidHeader { index: usize, reason: String },
    TooManyHeaders,
    AmbiguousFraming,
    InvalidContentLength,
    ConflictingContentLength,
    InvalidTransferEncoding,
    InvalidChunk { reason: String },
    InvalidTrailer { reason: String },
    InvalidAuthority,
    MissingHost,
    MultipleHost,
    AuthorityMismatch,
    InvalidRoute { reason: String },
    NoRoute,
    InvalidForwardingInput,
    SerializationInvariant,
}

/// What a [`PolyguardError`] stands for.
pub enum Fault {
    Incomplete,
    LimitExceeded { limit: Seq<char>, max: int, actual: int },
    InvalidRequestLine { reason: Seq<char> },
    InvalidMethod,
    InvalidTarget { reason: Seq<char> },
    UnsupportedVersion,
    InvalidHeader { index: int, reason: Seq<char> },
    TooManyHeaders,
    AmbiguousFraming,
    InvalidContentLength,
    ConflictingContentLength,
    InvalidTransferEncoding,
    InvalidChunk { reason: Seq<char> },
    InvalidTrailer { reason: Seq<char> },
    InvalidAuthority,
    MissingHost,
    MultipleHost,
    AuthorityMismatch,
    InvalidRoute { reason: Seq<char> },
    NoRoute,
    InvalidForwardingInput,
    SerializationInvariant,
}

impl View for PolyguardError {
    type V = Fault;

    open spec fn view(&self) -> Fault {
        match self {
            PolyguardError::Incomplete => Fault::Incomplete,
            PolyguardError::LimitExceeded { limit, max, actual } => Fault::LimitExceeded {
                limit: limit@,
                max: *max as int,
                actual: *actual as int,
            },
            PolyguardError::InvalidRequestLine { reason } => Fault::InvalidRequestLine {
                reason: reason@,
            },
            PolyguardError::InvalidMethod => Fault::InvalidMethod,
            PolyguardError::InvalidTarget { reason } => Fault::InvalidTarget { reason: reason@ },
            PolyguardError::UnsupportedVersion => Fault::UnsupportedVersion,
            PolyguardError::InvalidHeader { index, reason } => Fault::InvalidHeader {
                index: *index as int,
                reason: reason@,
            },
            PolyguardError::TooManyHeaders => Fault::TooManyHeaders,
            PolyguardError::AmbiguousFraming => Fault::AmbiguousFraming,
            PolyguardError::InvalidContentLength => Fault::InvalidContentLength,
            PolyguardError::ConflictingContentLength => Fault::ConflictingContentLength,
            PolyguardError::InvalidTransferEncoding => Fault::InvalidTransferEncoding,
            PolyguardError::InvalidChunk { reason } => Fault::InvalidChunk { reason: reason@ },
            PolyguardError::InvalidTrailer { reason } => Fault::InvalidTrailer { reason: reason@ },
            PolyguardError::InvalidAuthority => Fault::InvalidAuthority,
            PolyguardError::MissingHost => Fault::MissingHost,
            PolyguardError::MultipleHost => Fault::MultipleHost,
            PolyguardError::AuthorityMismatch => Fault::AuthorityMismatch,
            PolyguardError::InvalidRoute { reason } => Fault::InvalidRoute { reason: reason@ },
            PolyguardError::NoRoute => Fault::NoRoute,
            PolyguardError::InvalidForwardingInput => Fault::InvalidForwardingInput,
            PolyguardError::SerializationInvariant => Fault::SerializationInvariant,
        }
    }
}

/// The result of an operation.
pub type Result<T> = std::result::Result<T, PolyguardError>;

/// A result in the terms of the models.
pub type Verdict<T> = std::result::Result<T, Fault>;

/// What the result of an operation stands for.
pub open spec fn outcome<T: View>(result: Result<T>) -> Verdict<T::V> {
    match result {
        Ok(value) => Ok(value@),
        Err(error) => Err(error@),
    }
}

/// What the result of an operation that gives an index stands for.
pub open spec fn index_outcome(result: Result<usize>) -> Verdict<int> {
    match result {
        Ok(index) => Ok(index as int),
        Err(error) => Err(error@),
    }
}

pub fn limit_exceeded(limit: &str, max: usize, actual: usize) -> (error: PolyguardError)
    ensures
        error@ == (Fault::LimitExceeded { limit: limit@, max: max as int, actual: actual as int }),
{
    PolyguardError::LimitExceeded { limit: limit.to_owned(), max, actual }
}

pub fn invalid_request_line(reason: &str) -> (error: PolyguardError)
    ensures
        error@ == (Fault::InvalidRequestLine { reason: reason@ }),
{
    PolyguardError::InvalidRequestLine { reason: reason.to_owned() }
}

pub fn invalid_target(reason: &str) -> (error: PolyguardError)
    ensures
        error@ == (Fault::InvalidTarget { reason: reason@ }),
{
    PolyguardError::InvalidTarget { reason: reason.to_owned() }
}

pub fn invalid_header(index: usize, reason: &str) -> (error: PolyguardError)
    ensures
        error@ == (Fault::InvalidHeader { index: index as int, reason: reason@ }),
{
    PolyguardError::InvalidHeader { index, reason: reason.to_owned() }
}

pub fn invalid_chunk(reason: &str) -> (error: PolyguardError)
    ensures
        error@ == (Fault::InvalidChunk { reason: reason@ }),
{
    PolyguardError::InvalidChunk { reason: reason.to_owned() }
}

pub fn invalid_trailer(reason: &str) -> (error: PolyguardError)
    ensures
        error@ == (Fault::InvalidTrailer { reason: reason@ }),
{
    PolyguardError::InvalidTrailer { reason: reason.to_owned() }
}

pub fn invalid_route(reason: &str) -> (error: PolyguardError)
    ensures
        error@ == (Fault::InvalidRoute { reason: reason@ }),
{
    PolyguardError::InvalidRoute { reason: reason.to_owned() }
}

} // verus!
