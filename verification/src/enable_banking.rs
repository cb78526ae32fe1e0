//! The Enable Banking API: errors, requests, and what its replies hold.
use crate::calendar::Date;
use crate::decimal;
use crate::decimal::push_decimal;
use crate::json;
use crate::json::{
    bool_value, elements, member, number_value, object_value, read_json, read_text, text_in,
    text_value, Tree,
};
use crate::store;
use crate::store::{read_balance, read_transaction, ApiBalance, ApiTransaction};
use crate::text;
use crate::text::{chars_of, holds_words, owned, string_of, to_upper};
use vstd::prelude::*;
use vstd::slice::slice_subrange;
use vstd::utf8;

verus! {

pub const BASE_URL: &'static str = "https://api.enablebanking.com";

/// The API rejects tokens with a TTL over 86400s. An hour is plenty.
pub const JWT_TTL_SECS: i64 = 3600;

/// Backdate `iat` slightly. A local clock a few seconds ahead of Enable
/// Banking's makes the token look issued in the future, which is rejected with
/// a 401 "JWT can not be issued in the future". Standard practice for any JWT
/// issuer; does not weaken anything, since `exp` still bounds the lifetime.
pub const JWT_SKEW_SECS: i64 = 60;

// ---------------------------------------------------------------------------
// Errors
// ---------------------------------------------------------------------------

#[derive(Debug, Clone, Copy, PartialEq, Eq, Structural)]
pub enum ApiErrorKind {
    /// Session died, possibly before valid_until. Requires re-authorisation.
    ExpiredSession,
    /// ASPSP_RATE_LIMIT_EXCEEDED. Background fetching is often capped at 4/day.
    RateLimited,
    /// The requested date range is not available from this ASPSP.
    WrongTransactionsPeriod,
    /// Transient ASPSP-side failure; retry with backoff.
    AspspError,
    /// 401/403: bad JWT, wrong app ID, key mismatch, or clock skew. Retrying is
    /// pointless; the operator has to fix something.
    Unauthorized,
    Other,
}

#[derive(Debug)]
pub struct ApiError {
    pub status: u16,
    pub code: String,
    pub message: String,
    pub kind: ApiErrorKind,
}

/// The kind of an error: by its status, or else by what its code and body say,
/// in capitals or not.
pub open spec fn kind_of(status: u16, code: Seq<char>, body: Seq<char>) -> ApiErrorKind {
    let haystack = text::in_capitals(code + seq![' '] + body);
    if status == 401 || status == 403 {
        ApiErrorKind::Unauthorized
    } else if text::holds(haystack, "EXPIRED_SESSION"@) {
        ApiErrorKind::ExpiredSession
    } else if text::holds(haystack, "RATE_LIMIT"@) {
        ApiErrorKind::RateLimited
    } else if text::holds(haystack, "WRONG_TRANSACTIONS_PERIOD"@) {
        ApiErrorKind::WrongTransactionsPeriod
    } else if text::holds(haystack, "ASPSP_ERROR"@) {
        ApiErrorKind::AspspError
    } else {
        ApiErrorKind::Other
    }
}

/// What may stand at a place of an error reply.
#[derive(Debug)]
pub enum Probe {
    Absent,
    Text(String),
    /// Something that is no text.
    Other,
}

pub enum ProbeView {
    Absent,
    Text(Seq<char>),
    Other,
}

impl View for Probe {
    type V = ProbeView;

    open spec fn view(&self) -> ProbeView {
        match self {
            Probe::Absent => ProbeView::Absent,
            Probe::Text(t) => ProbeView::Text(t@),
            Probe::Other => ProbeView::Other,
        }
    }
}

/// What stands at a place of a JSON value.
pub open spec fn probed(tree: Option<Tree>) -> ProbeView {
    match tree {
        None => ProbeView::Absent,
        Some(Tree::Text(t)) => ProbeView::Text(t),
        Some(_) => ProbeView::Other,
    }
}

fn probe(value: &serde_json::Value, name: &str) -> (r: Probe)
    ensures
        r@ == probed(json::member_of(json::tree_of(*value), name@)),
{
    match member(value, name) {
        Some(v) => match text_in(v) {
            Some(s) => Probe::Text(owned(s)),
            None => Probe::Other,
        },
        None => Probe::Absent,
    }
}

fn probe_within(value: &serde_json::Value, outer: &str, name: &str) -> (r: Probe)
    ensures
        r@ == probed(json::member_in(json::tree_of(*value), outer@, name@)),
{
    match member(value, outer) {
        Some(v) => probe(v, name),
        None => Probe::Absent,
    }
}

/// The places of an error reply at which its code and message may stand.
#[derive(Debug)]
pub struct Envelope {
    /// The code within the error.
    pub inner_code: Probe,
    pub error_code: Probe,
    pub code: Probe,
    pub error: Probe,
    /// The message within the error.
    pub inner_message: Probe,
    pub message: Probe,
    pub detail: Probe,
}

#[verifier::ext_equal]
pub struct EnvelopeView {
    pub inner_code: ProbeView,
    pub error_code: ProbeView,
    pub code: ProbeView,
    pub error: ProbeView,
    pub inner_message: ProbeView,
    pub message: ProbeView,
    pub detail: ProbeView,
}

impl View for Envelope {
    type V = EnvelopeView;

    open spec fn view(&self) -> EnvelopeView {
        EnvelopeView {
            inner_code: self.inner_code@,
            error_code: self.error_code@,
            code: self.code@,
            error: self.error@,
            inner_message: self.inner_message@,
            message: self.message@,
            detail: self.detail@,
        }
    }
}

/// The envelope of a JSON error reply.
pub open spec fn envelope_in(tree: Tree) -> EnvelopeView {
    EnvelopeView {
        inner_code: probed(json::member_in(tree, "error"@, "code"@)),
        error_code: probed(json::member_of(tree, "error_code"@)),
        code: probed(json::member_of(tree, "code"@)),
        error: probed(json::member_of(tree, "error"@)),
        inner_message: probed(json::member_in(tree, "error"@, "message"@)),
        message: probed(json::member_of(tree, "message"@)),
        detail: probed(json::member_of(tree, "detail"@)),
    }
}

pub fn read_envelope(value: &serde_json::Value) -> (r: Envelope)
    ensures
        r@ == envelope_in(json::tree_of(*value)),
{
    Envelope {
        inner_code: probe_within(value, "error", "code"),
        error_code: probe(value, "error_code"),
        code: probe(value, "code"),
        error: probe(value, "error"),
        inner_message: probe_within(value, "error", "message"),
        message: probe(value, "message"),
        detail: probe(value, "detail"),
    }
}

/// The first of two places at which something stands.
pub open spec fn first_there(a: ProbeView, b: ProbeView) -> ProbeView {
    match a {
        ProbeView::Absent => b,
        _ => a,
    }
}

/// The text at a place, or another text.
pub open spec fn text_or(p: ProbeView, default: Seq<char>) -> Seq<char> {
    match p {
        ProbeView::Text(t) => t,
        _ => default,
    }
}

fn there_or<'a>(a: &'a Probe, b: &'a Probe) -> (r: &'a Probe)
    ensures
        r@ == first_there(a@, b@),
{
    match a {
        Probe::Absent => b,
        _ => a,
    }
}

fn probe_text(p: &Probe, default: &str) -> (r: String)
    ensures
        r@ == text_or(p@, default@),
{
    match p {
        Probe::Text(t) => owned(t.as_str()),
        _ => owned(default),
    }
}

/// The code of an error reply. The exact envelope isn't guaranteed, so the
/// likely places are probed in order.
pub open spec fn code_of(e: EnvelopeView) -> Seq<char> {
    text_or(
        first_there(e.inner_code, first_there(e.error_code, first_there(e.code, e.error))),
        "UNKNOWN"@,
    )
}

/// The message of an error reply, or its body.
pub open spec fn message_of(e: EnvelopeView, body: Seq<char>) -> Seq<char> {
    text_or(first_there(e.inner_message, first_there(e.message, e.detail)), body)
}

/// The first characters of a text, at most so many.
pub open spec fn at_most(s: Seq<char>, max: nat) -> Seq<char> {
    if s.len() <= max {
        s
    } else {
        s.take(max as int)
    }
}

pub fn truncate(text: &str, max: usize) -> (r: String)
    ensures
        r@ == at_most(text@, max as nat),
{
    let c = chars_of(text);
    if c.len() <= max {
        owned(text)
    } else {
        string_of(slice_subrange(c.as_slice(), 0, max))
    }
}

/// How many characters of a message are kept.
pub const MESSAGE_CHARS: usize = 500;

/// Whether an error is the one that a reply with the given envelope tells. A
/// reply without one has no code, and its body is the message.
pub open spec fn tells(
    e: ApiError,
    status: u16,
    body: Seq<char>,
    envelope: Option<EnvelopeView>,
) -> bool {
    let code = match envelope {
        Some(v) => code_of(v),
        None => "UNKNOWN"@,
    };
    let message = match envelope {
        Some(v) => message_of(v, body),
        None => body,
    };
    &&& e.status == status
    &&& e.code@ == code
    &&& e.message@ == at_most(message, MESSAGE_CHARS as nat)
    &&& e.kind == kind_of(status, code, body)
}

pub open spec fn envelope_view(e: Option<Envelope>) -> Option<EnvelopeView> {
    match e {
        Some(v) => Some(v@),
        None => None,
    }
}

/// The envelope in an error body, where it is JSON.
pub open spec fn envelope_of(body: Seq<char>) -> Option<EnvelopeView> {
    match json::value_in(body) {
        Ok(tree) => Some(envelope_in(tree)),
        Err(_) => None,
    }
}

impl ApiError {
    pub fn classify(status: u16, code: &str, body: &str) -> (r: ApiErrorKind)
        ensures
            r == kind_of(status, code@, body@),
    {
        let mut all = owned(code);
        all.push(' ');
        all.append(body);
        assert(all@ == code@ + seq![' '] + body@);
        let upper = to_upper(all.as_str());
        let c = chars_of(upper.as_str());
        let s = c.as_slice();
        if status == 401 || status == 403 {
            ApiErrorKind::Unauthorized
        } else if holds_words(s, "EXPIRED_SESSION") {
            ApiErrorKind::ExpiredSession
        } else if holds_words(s, "RATE_LIMIT") {
            ApiErrorKind::RateLimited
        } else if holds_words(s, "WRONG_TRANSACTIONS_PERIOD") {
            ApiErrorKind::WrongTransactionsPeriod
        } else if holds_words(s, "ASPSP_ERROR") {
            ApiErrorKind::AspspError
        } else {
            ApiErrorKind::Other
        }
    }

    /// The error that a reply tells, given the envelope that was found in it.
    pub fn from_envelope(status: u16, body: &str, envelope: &Option<Envelope>) -> (r: ApiError)
        ensures
            tells(r, status, body@, envelope_view(*envelope)),
    {
        let (code, message) = match envelope {
            Some(e) => {
                let last = there_or(&e.code, &e.error);
                let code = there_or(&e.inner_code, there_or(&e.error_code, last));
                let message = there_or(&e.inner_message, there_or(&e.message, &e.detail));
                (probe_text(code, "UNKNOWN"), probe_text(message, body))
            },
            None => (owned("UNKNOWN"), owned(body)),
        };
        let kind = ApiError::classify(status, code.as_str(), body);
        ApiError { status, code, message: truncate(message.as_str(), MESSAGE_CHARS), kind }
    }

    /// The error that a reply tells.
    pub fn from_response(status: u16, body: &str) -> (r: ApiError)
        ensures
            tells(r, status, body@, envelope_of(body@)),
    {
        let envelope = match read_json(body) {
            Ok(value) => Some(read_envelope(&value)),
            Err(_) => None,
        };
        ApiError::from_envelope(status, body, &envelope)
    }

    /// The error as one line.
    pub fn text(&self) -> (r: String)
        ensures
            r@ == "Enable Banking "@ + decimal::decimal(self.status as int) + seq![' ']
                + self.code@ + ": "@ + self.message@,
    {
        let mut s = owned("Enable Banking ");
        push_decimal(&mut s, self.status as u64);
        s.push(' ');
        s.append(self.code.as_str());
        s.append(": ");
        s.append(self.message.as_str());
        assert(s@ == "Enable Banking "@ + decimal::decimal(self.status as int) + seq![' ']
            + self.code@ + ": "@ + self.message@);
        s
    }
}

/// Why a call failed: because the API said so, because its reply is no JSON, or
/// for another reason.
#[derive(Debug)]
pub enum CallError {
    Api(ApiError),
    /// What was replied, and why it is no JSON.
    Unparseable(String, String),
    Other(String),
}

/// Convenience for callers: `if let Some(e) = api_error(&err) { ... }`
pub fn api_error(error: &CallError) -> (r: Option<&ApiError>)
    ensures
        match error {
            CallError::Api(e) => r == Some(e),
            _ => r is None,
        },
{
    match error {
        CallError::Api(e) => Some(e),
        _ => None,
    }
}

/// Whether a status tells of success.
pub open spec fn is_success(status: u16) -> bool {
    200 <= status <= 299
}

/// How many characters of a body that is no JSON are quoted.
pub const QUOTED_CHARS: usize = 300;

/// The value in a reply, or why there is none.
pub fn read_reply(status: u16, body: &str) -> (r: Result<serde_json::Value, CallError>)
    ensures
        if !is_success(status) {
            r matches Err(CallError::Api(e)) && tells(e, status, body@, envelope_of(body@))
        } else {
            match json::value_in(body@) {
                Ok(tree) => r matches Ok(v) && json::tree_of(v) == tree,
                Err(why) => r matches Err(CallError::Unparseable(m, reason)) && m@
                    == "unparseable success body: "@ + at_most(body@, QUOTED_CHARS as nat)
                    && reason@ == why,
            }
        },
{
    if status < 200 || status > 299 {
        return Err(CallError::Api(ApiError::from_response(status, body)));
    }
    match read_json(body) {
        Ok(value) => Ok(value),
        Err(reason) => {
            let mut m = owned("unparseable success body: ");
            let quoted = truncate(body, QUOTED_CHARS);
            m.append(quoted.as_str());
            Err(CallError::Unparseable(m, reason))
        },
    }
}

// ---------------------------------------------------------------------------
// Tokens
// ---------------------------------------------------------------------------

/// What a token claims.
#[derive(Debug)]
pub struct Claims {
    pub iss: &'static str,
    pub aud: &'static str,
    pub iat: i64,
    pub exp: i64,
}

/// The claims of a token that is made at the given second. It lives no longer
/// than the day that the API allows, and is in force when it is made.
pub fn claims(now: i64) -> (r: Claims)
    requires
        i64::MIN + JWT_SKEW_SECS <= now <= i64::MAX - JWT_TTL_SECS,
    ensures
        r.iss@ == "enablebanking.com"@,
        r.aud@ == "api.enablebanking.com"@,
        r.iat == now - JWT_SKEW_SECS,
        r.exp == now + JWT_TTL_SECS,
        r.exp - r.iat <= 86400,
        r.iat < now < r.exp,
{
    Claims {
        iss: "enablebanking.com",
        aud: "api.enablebanking.com",
        iat: now - JWT_SKEW_SECS,
        exp: now + JWT_TTL_SECS,
    }
}

/// What a token claims, as a JSON object.
pub open spec fn claims_tree(iss: Seq<char>, aud: Seq<char>, iat: int, exp: int) -> Tree {
    object(
        seq![
            ("iss"@, Tree::Text(iss)),
            ("aud"@, Tree::Text(aud)),
            ("iat"@, Tree::Number(decimal::signed(iat))),
            ("exp"@, Tree::Number(decimal::signed(exp))),
        ],
    )
}

fn claims_value(c: &Claims) -> (r: serde_json::Value)
    ensures
        json::tree_of(r) == claims_tree(c.iss@, c.aud@, c.iat as int, c.exp as int),
{
    let mut members: Vec<(String, serde_json::Value)> = Vec::new();
    members.push((owned("iss"), text_value(c.iss)));
    members.push((owned("aud"), text_value(c.aud)));
    members.push((owned("iat"), number_value(c.iat)));
    members.push((owned("exp"), number_value(c.exp)));
    assert(json::named_trees(members@) == seq![
        ("iss"@, Tree::Text(c.iss@)),
        ("aud"@, Tree::Text(c.aud@)),
        ("iat"@, Tree::Number(decimal::signed(c.iat as int))),
        ("exp"@, Tree::Number(decimal::signed(c.exp as int))),
    ]);
    object_value(members)
}

/// `jsonwebtoken::EncodingKey`.
#[verifier::external_type_specification]
#[verifier::external_body]
pub struct ExEncodingKey(jsonwebtoken::EncodingKey);

/// All that a `jsonwebtoken::EncodingKey` holds, its family included, as bytes.
pub uninterp spec fn key_bytes(key: jsonwebtoken::EncodingKey) -> Seq<u8>;

/// The key that jsonwebtoken reads in the bytes of a PEM file, or the message of the
/// error that it reports.
pub uninterp spec fn rsa_key_in(pem: Seq<u8>) -> Result<Seq<u8>, Seq<char>>;

/// The token that jsonwebtoken makes with an algorithm, a key id, claims and a key,
/// or the message of the error that it reports.
pub uninterp spec fn token_for(
    algorithm: Seq<char>,
    kid: Seq<char>,
    claims: Tree,
    key: Seq<u8>,
) -> Result<Seq<char>, Seq<char>>;

/// What a key holds that was read, or the message that came in its place.
pub open spec fn key_read(key: Result<jsonwebtoken::EncodingKey, String>) -> Result<
    Seq<u8>,
    Seq<char>,
> {
    match key {
        Ok(k) => Ok(key_bytes(k)),
        Err(m) => Err(m@),
    }
}

/// `jsonwebtoken::EncodingKey::from_rsa_pem`; of an error, the message that its
/// `Display` writes. Which bytes hold which key is left to the name `rsa_key_in`.
#[verifier::external_body]
fn read_key(pem: &[u8]) -> (r: Result<jsonwebtoken::EncodingKey, String>)
    ensures
        key_read(r) == rsa_key_in(pem@),
{
    match jsonwebtoken::EncodingKey::from_rsa_pem(pem) {
        Ok(key) => Ok(key),
        Err(e) => Err(e.to_string()),
    }
}

/// A token that was made, or the message that came in its place, as plain values.
pub open spec fn token_read(token: Result<String, String>) -> Result<Seq<char>, Seq<char>> {
    match token {
        Ok(t) => Ok(t@),
        Err(m) => Err(m@),
    }
}

/// `jsonwebtoken::encode`, with a header of the algorithm of that name and of that
/// key id; of an error, the message that its `Display` writes. What the token is, is
/// left to the name `token_for`. By RS256 it is the same for the same claims and
/// key: the padding of that algorithm draws nothing at random. Some of the others
/// do, so they are left out.
#[verifier::external_body]
fn sign(
    algorithm: &str,
    kid: &str,
    claims: &serde_json::Value,
    key: &jsonwebtoken::EncodingKey,
) -> (r: Result<String, String>)
    requires
        algorithm@ == "RS256"@,
    ensures
        token_read(r) == token_for(algorithm@, kid@, json::tree_of(*claims), key_bytes(*key)),
{
    let algorithm: jsonwebtoken::Algorithm = match algorithm.parse() {
        Ok(a) => a,
        Err(e) => return Err(jsonwebtoken::errors::Error::to_string(&e)),
    };
    let mut header = jsonwebtoken::Header::new(algorithm);
    header.kid = Some(kid.to_string());
    match jsonwebtoken::encode(&header, claims, key) {
        Ok(token) => Ok(token),
        Err(e) => Err(e.to_string()),
    }
}

/// Why there is no token: the key cannot be read, or nothing can be signed with it.
#[derive(Debug)]
pub enum TokenError {
    BadKey(String),
    Signing(String),
}

/// Whether a token is the one that an application signs at the given second: by
/// RS256, under its own id, with the claims of that second and with its key.
pub open spec fn is_token(
    r: Result<String, TokenError>,
    app_id: Seq<char>,
    pem: Seq<u8>,
    now: i64,
) -> bool {
    let claims = claims_tree(
        "enablebanking.com"@,
        "api.enablebanking.com"@,
        now - JWT_SKEW_SECS,
        now + JWT_TTL_SECS,
    );
    match rsa_key_in(pem) {
        Err(why) => r matches Err(TokenError::BadKey(m)) && m@ == why,
        Ok(key) => match token_for("RS256"@, app_id, claims, key) {
            Ok(token) => r matches Ok(t) && t@ == token,
            Err(why) => r matches Err(TokenError::Signing(m)) && m@ == why,
        },
    }
}

/// The token with which an application calls the API, given the bytes of its key
/// file and the present second.
pub fn create_jwt(app_id: &str, private_key: &[u8], now: i64) -> (r: Result<String, TokenError>)
    requires
        i64::MIN + JWT_SKEW_SECS <= now <= i64::MAX - JWT_TTL_SECS,
    ensures
        is_token(r, app_id@, private_key@, now),
{
    let key = match read_key(private_key) {
        Ok(k) => k,
        Err(m) => {
            return Err(TokenError::BadKey(m));
        },
    };
    let c = claims(now);
    let body = claims_value(&c);
    match sign("RS256", app_id, &body, &key) {
        Ok(t) => Ok(t),
        Err(m) => Err(TokenError::Signing(m)),
    }
}

// ---------------------------------------------------------------------------
// Data types
// ---------------------------------------------------------------------------

#[derive(Debug)]
pub struct AspspResponse {
    pub aspsps: Vec<Aspsp>,
}

#[derive(Debug)]
pub struct Aspsp {
    pub name: String,
    pub country: String,
    pub psu_types: Vec<String>,
    /// Seconds. Usually 15552000 (180 days). Optional because sandbox ASPSPs
    /// don't always report it.
    pub maximum_consent_validity: Option<i64>,
    pub beta: bool,
}

/// The shortest consent that is asked for, in seconds.
pub const MIN_CONSENT_SECS: i64 = 3600;

/// The consent that is asked for where the bank states no limit: 90 days.
pub const DEFAULT_CONSENT_SECS: i64 = 7776000;

/// By how much the bank's limit is undercut, so that a boundary value isn't
/// rejected.
pub const CONSENT_MARGIN_SECS: i64 = 60;

/// How long a consent is asked for.
pub open spec fn consent_secs(limit: Option<i64>) -> int {
    let stated = match limit {
        Some(s) => s,
        None => DEFAULT_CONSENT_SECS,
    };
    (if stated > MIN_CONSENT_SECS {
        stated
    } else {
        MIN_CONSENT_SECS
    }) - CONSENT_MARGIN_SECS
}

impl Aspsp {
    /// Longest consent this bank will grant, in seconds: its own maximum, with a
    /// small safety margin.
    pub fn consent_seconds(&self) -> (r: i64)
        ensures
            r == consent_secs(self.maximum_consent_validity),
    {
        let stated: i64 = match self.maximum_consent_validity {
            Some(s) => s,
            None => DEFAULT_CONSENT_SECS,
        };
        if stated > MIN_CONSENT_SECS {
            stated - CONSENT_MARGIN_SECS
        } else {
            MIN_CONSENT_SECS - CONSENT_MARGIN_SECS
        }
    }

    /// Until when a consent that is asked for at the given second runs, if that
    /// second can be counted.
    pub fn max_valid_until(&self, now: i64) -> (r: Option<i64>)
        ensures
            match r {
                Some(s) => s == now + consent_secs(self.maximum_consent_validity),
                None => now + consent_secs(self.maximum_consent_validity) > i64::MAX,
            },
    {
        now.checked_add(self.consent_seconds())
    }
}

/// A consent never runs longer than the bank's own maximum, unless that is under
/// an hour, and always runs for most of an hour.
pub proof fn law_consent_within_limit(limit: Option<i64>)
    ensures
        limit matches Some(s) && s >= MIN_CONSENT_SECS ==> consent_secs(limit) < limit->0,
        consent_secs(limit) >= MIN_CONSENT_SECS - CONSENT_MARGIN_SECS,
{
}

#[derive(Debug)]
pub struct StartAuthorizationResponse {
    pub url: String,
    pub authorization_id: String,
    pub psu_id_hash: Option<String>,
}

// ---------------------------------------------------------------------------
// Requests
// ---------------------------------------------------------------------------

/// An object with the given members.
pub open spec fn object(members: Seq<(Seq<char>, Tree)>) -> Tree {
    Tree::Object(json::members_of(members))
}

/// The body of a request to authorise a bank: access to balances and transactions
/// until the given instant.
pub open spec fn authorization_body(
    aspsp: Aspsp,
    redirect_url: Seq<char>,
    state: Seq<char>,
    valid_until: Seq<char>,
    psu_type: Seq<char>,
) -> Tree {
    object(
        seq![
            (
                "access"@,
                object(
                    seq![
                        ("balances"@, Tree::Bool(true)),
                        ("transactions"@, Tree::Bool(true)),
                        ("valid_until"@, Tree::Text(valid_until)),
                    ],
                ),
            ),
            (
                "aspsp"@,
                object(
                    seq![
                        ("name"@, Tree::Text(aspsp.name@)),
                        ("country"@, Tree::Text(aspsp.country@)),
                    ],
                ),
            ),
            ("state"@, Tree::Text(state)),
            ("redirect_url"@, Tree::Text(redirect_url)),
            ("psu_type"@, Tree::Text(psu_type)),
        ],
    )
}

pub fn authorization_request(
    aspsp: &Aspsp,
    redirect_url: &str,
    state: &str,
    valid_until: &str,
    psu_type: &str,
) -> (r: serde_json::Value)
    ensures
        json::tree_of(r) == authorization_body(
            *aspsp,
            redirect_url@,
            state@,
            valid_until@,
            psu_type@,
        ),
{
    let mut access: Vec<(String, serde_json::Value)> = Vec::new();
    access.push((owned("balances"), bool_value(true)));
    access.push((owned("transactions"), bool_value(true)));
    access.push((owned("valid_until"), text_value(valid_until)));
    assert(json::named_trees(access@) == seq![
        ("balances"@, Tree::Bool(true)),
        ("transactions"@, Tree::Bool(true)),
        ("valid_until"@, Tree::Text(valid_until@)),
    ]);
    let mut bank: Vec<(String, serde_json::Value)> = Vec::new();
    bank.push((owned("name"), text_value(aspsp.name.as_str())));
    bank.push((owned("country"), text_value(aspsp.country.as_str())));
    assert(json::named_trees(bank@) == seq![
        ("name"@, Tree::Text(aspsp.name@)),
        ("country"@, Tree::Text(aspsp.country@)),
    ]);
    let ghost access_tree = object(json::named_trees(access@));
    let ghost bank_tree = object(json::named_trees(bank@));
    let mut body: Vec<(String, serde_json::Value)> = Vec::new();
    body.push((owned("access"), object_value(access)));
    body.push((owned("aspsp"), object_value(bank)));
    body.push((owned("state"), text_value(state)));
    body.push((owned("redirect_url"), text_value(redirect_url)));
    body.push((owned("psu_type"), text_value(psu_type)));
    assert(json::named_trees(body@) == seq![
        ("access"@, access_tree),
        ("aspsp"@, bank_tree),
        ("state"@, Tree::Text(state@)),
        ("redirect_url"@, Tree::Text(redirect_url@)),
        ("psu_type"@, Tree::Text(psu_type@)),
    ]);
    object_value(body)
}

/// The body of a request that exchanges a code for a session.
pub fn session_request(code: &str) -> (r: serde_json::Value)
    ensures
        json::tree_of(r) == object(seq![("code"@, Tree::Text(code@))]),
{
    let mut body: Vec<(String, serde_json::Value)> = Vec::new();
    body.push((owned("code"), text_value(code)));
    assert(json::named_trees(body@) == seq![("code"@, Tree::Text(code@))]);
    object_value(body)
}

#[derive(Debug, Clone, Copy)]
pub struct TransactionQuery {
    pub date_from: Option<Date>,
    pub date_to: Option<Date>,
    /// "default" for incremental syncs, "longest" for the initial backfill.
    pub strategy: Option<&'static str>,
}

impl Default for TransactionQuery {
    fn default() -> (r: TransactionQuery)
        ensures
            r.date_from is None,
            r.date_to is None,
            r.strategy is None,
    {
        TransactionQuery { date_from: None, date_to: None, strategy: None }
    }
}

/// The parameters that a request has for a date.
pub open spec fn date_param(name: Seq<char>, date: Option<Date>) -> Seq<(Seq<char>, Seq<char>)> {
    match date {
        Some(d) => seq![(name, d.iso())],
        None => seq![],
    }
}

/// The parameters that a request has for a text.
pub open spec fn text_param(name: Seq<char>, o: Option<Seq<char>>) -> Seq<(Seq<char>, Seq<char>)> {
    match o {
        Some(s) => seq![(name, s)],
        None => seq![],
    }
}

/// Parameters as plain values.
pub open spec fn param_views(params: Seq<(&'static str, String)>) -> Seq<(Seq<char>, Seq<char>)> {
    Seq::new(params.len(), |i: int| (params[i].0@, params[i].1@))
}

pub open spec fn str_view(o: Option<&str>) -> Option<Seq<char>> {
    match o {
        Some(s) => Some(s@),
        None => None,
    }
}

fn push_param(params: &mut Vec<(&'static str, String)>, name: &'static str, value: String)
    ensures
        param_views(final(params)@) == param_views(old(params)@) + seq![(name@, value@)],
{
    params.push((name, value));
    assert(param_views(params@) == param_views(old(params)@) + seq![(name@, value@)]);
}

impl TransactionQuery {
    /// Whether the dates are days of the calendar.
    pub open spec fn valid(self) -> bool {
        &&& self.date_from matches Some(d) ==> d.valid()
        &&& self.date_to matches Some(d) ==> d.valid()
    }

    /// The parameters of a request for a page.
    pub open spec fn page_params(self, continuation_key: Option<Seq<char>>) -> Seq<
        (Seq<char>, Seq<char>),
    > {
        date_param("date_from"@, self.date_from) + date_param("date_to"@, self.date_to)
            + text_param("strategy"@, str_view(self.strategy)) + text_param(
            "continuation_key"@,
            continuation_key,
        )
    }

    /// The parameters of a request for a page. When continuing, every other
    /// parameter must be identical to the first request, so they are rebuilt
    /// from the same query each time rather than changed.
    pub fn params(&self, continuation_key: Option<&str>) -> (r: Vec<(&'static str, String)>)
        requires
            self.valid(),
        ensures
            param_views(r@) == self.page_params(str_view(continuation_key)),
    {
        let mut params: Vec<(&'static str, String)> = Vec::new();
        assert(param_views(params@) == Seq::<(Seq<char>, Seq<char>)>::empty());
        if let Some(d) = &self.date_from {
            push_param(&mut params, "date_from", d.to_iso());
        }
        assert(param_views(params@) == date_param("date_from"@, self.date_from));
        if let Some(d) = &self.date_to {
            push_param(&mut params, "date_to", d.to_iso());
        }
        assert(param_views(params@) == date_param("date_from"@, self.date_from) + date_param(
            "date_to"@,
            self.date_to,
        ));
        let ghost dates = param_views(params@);
        if let Some(s) = self.strategy {
            push_param(&mut params, "strategy", owned(s));
        }
        assert(param_views(params@) == dates + text_param("strategy"@, str_view(self.strategy)));
        let ghost first = param_views(params@);
        if let Some(key) = continuation_key {
            push_param(&mut params, "continuation_key", owned(key));
        }
        assert(param_views(params@) == first + text_param(
            "continuation_key"@,
            str_view(continuation_key),
        ));
        params
    }
}

/// A request that continues another differs from it in the key alone.
pub proof fn law_continuing_keeps_the_query(query: TransactionQuery, key: Seq<char>)
    ensures
        query.page_params(Some(key)) == query.page_params(None).push(
            ("continuation_key"@, key),
        ),
{
    assert(query.page_params(Some(key)) =~= query.page_params(None).push(
        ("continuation_key"@, key),
    ));
}

// ---------------------------------------------------------------------------
// Pages
// ---------------------------------------------------------------------------

#[derive(Debug)]
pub struct TransactionPage {
    pub transactions: Vec<ApiTransaction>,
    pub continuation_key: Option<String>,
}

/// The transactions that some JSON values describe.
pub open spec fn transactions_in(items: Seq<Tree>) -> Seq<store::TransactionView> {
    Seq::new(items.len(), |i: int| store::transaction_in(items[i]))
}

/// The key in a page under which its successor is asked for; an empty one is
/// none.
pub open spec fn key_in(tree: Tree) -> Option<Seq<char>> {
    match json::text_at(tree, "continuation_key"@) {
        Some(k) => if k.len() > 0 {
            Some(k)
        } else {
            None
        },
        None => None,
    }
}

fn read_transactions(items: &Vec<serde_json::Value>) -> (r: Vec<ApiTransaction>)
    ensures
        store::transaction_views(r@) == transactions_in(json::trees_of(items@)),
{
    let mut r: Vec<ApiTransaction> = Vec::new();
    let mut i: usize = 0;
    while i < items.len()
        invariant
            i <= items@.len(),
            r@.len() == i,
            forall|j: int|
                0 <= j < i ==> (#[trigger] r@[j])@ == store::transaction_in(
                    json::tree_of(items@[j]),
                ),
        decreases items@.len() - i,
    {
        r.push(read_transaction(&items[i]));
        i = i + 1;
    }
    assert(store::transaction_views(r@) == transactions_in(json::trees_of(items@)));
    r
}

/// The page in a reply.
pub fn read_page(value: &serde_json::Value) -> (r: TransactionPage)
    ensures
        ({
            let tree = json::tree_of(*value);
            &&& store::transaction_views(r.transactions@) == transactions_in(
                json::elements_at(tree, "transactions"@),
            )
            &&& text::opt(r.continuation_key) == key_in(tree)
        }),
{
    let transactions = match member(value, "transactions") {
        Some(v) => match elements(v) {
            Some(items) => read_transactions(items),
            None => Vec::new(),
        },
        None => Vec::new(),
    };
    assert(store::transaction_views(transactions@) == transactions_in(
        json::elements_at(json::tree_of(*value), "transactions"@),
    ));
    let continuation_key = match read_text(value, "continuation_key") {
        Some(k) => if k.as_str().unicode_len() > 0 {
            Some(k)
        } else {
            None
        },
        None => None,
    };
    TransactionPage { transactions, continuation_key }
}

/// The balances that some JSON values describe.
pub open spec fn balances_in(items: Seq<Tree>) -> Seq<store::BalanceView> {
    Seq::new(items.len(), |i: int| store::balance_in(items[i]))
}

/// The balances in a reply.
pub fn read_balances(value: &serde_json::Value) -> (r: Vec<ApiBalance>)
    ensures
        store::balance_views(r@) == balances_in(
            json::elements_at(json::tree_of(*value), "balances"@),
        ),
{
    let mut r: Vec<ApiBalance> = Vec::new();
    if let Some(v) = member(value, "balances") {
        if let Some(items) = elements(v) {
            let mut i: usize = 0;
            while i < items.len()
                invariant
                    i <= items@.len(),
                    r@.len() == i,
                    forall|j: int|
                        0 <= j < i ==> (#[trigger] r@[j])@ == store::balance_in(
                            json::tree_of(items@[j]),
                        ),
                decreases items@.len() - i,
            {
                r.push(read_balance(&items[i]));
                i = i + 1;
            }
            assert(store::balance_views(r@) == balances_in(json::trees_of(items@)));
            return r;
        }
    }
    assert(store::balance_views(r@) == balances_in(
        json::elements_at(json::tree_of(*value), "balances"@),
    ));
    r
}

#[derive(Debug, Clone, Copy, PartialEq, Eq, Structural)]
pub struct PageRun {
    pub pages: usize,
    /// True when the page cap was hit while a continuation key was still
    /// pending, i.e. the history is incomplete.
    pub truncated: bool,
}

/// The state of a walk through the pages of a history.
#[derive(Debug, Clone, Copy, PartialEq, Eq, Structural)]
pub struct Paging {
    pub pages: usize,
}

impl Paging {
    pub fn start() -> (r: Paging)
        ensures
            r.pages == 0,
    {
        Paging { pages: 0 }
    }

    /// Whether another page may be asked for: the first always may.
    pub open spec fn open(self, max_pages: usize) -> bool {
        self.pages == 0 || self.pages < max_pages
    }

    /// Counts a page, and tells how the walk ends, if it does. An empty page can
    /// come with a continuation key, so only the key decides whether there is
    /// more.
    pub fn after_page(&mut self, has_more: bool, max_pages: usize) -> (r: Option<PageRun>)
        requires
            old(self).open(max_pages),
        ensures
            final(self).pages == old(self).pages + 1,
            r == page_end(final(self).pages as nat, has_more, max_pages as nat),
            r is None ==> final(self).open(max_pages),
            forall|more: Seq<bool>|
                more.len() == old(self).pages && (#[trigger] walk_end(more, max_pages as nat)) is None
                    ==> r == walk_end(more.push(has_more), max_pages as nat),
    {
        proof {
            assert forall|more: Seq<bool>|
                more.len() == old(self).pages && (#[trigger] walk_end(
                    more,
                    max_pages as nat,
                )) is None implies walk_end(more.push(has_more), max_pages as nat) == page_end(
                more.len() + 1,
                has_more,
                max_pages as nat,
            ) by {
                law_paging_is_the_walk(more, has_more, max_pages);
            }
        }
        self.pages = self.pages + 1;
        if !has_more {
            Some(PageRun { pages: self.pages, truncated: false })
        } else if self.pages >= max_pages {
            Some(PageRun { pages: self.pages, truncated: true })
        } else {
            None
        }
    }
}

/// How a walk ends with its latest page, if it does.
pub open spec fn page_end(pages: nat, has_more: bool, max_pages: nat) -> Option<PageRun> {
    if !has_more {
        Some(PageRun { pages: pages as usize, truncated: false })
    } else if pages >= max_pages {
        Some(PageRun { pages: pages as usize, truncated: true })
    } else {
        None
    }
}

/// How a walk ends, given for each page whether there is more after it.
pub open spec fn walk_end(more: Seq<bool>, max_pages: nat) -> Option<PageRun>
    decreases more.len(),
{
    if more.len() == 0 {
        None
    } else {
        match walk_end(more.drop_last(), max_pages) {
            Some(run) => Some(run),
            None => page_end(more.len(), more.last(), max_pages),
        }
    }
}

/// Counting pages one by one gives the walk: while it has not ended another page
/// may be counted, and what that page tells is how the longer walk ends.
pub proof fn law_paging_is_the_walk(more: Seq<bool>, has_more: bool, max_pages: usize)
    requires
        more.len() <= usize::MAX,
        walk_end(more, max_pages as nat) is None,
    ensures
        (Paging { pages: more.len() as usize }).open(max_pages),
        page_end(more.len() + 1, has_more, max_pages as nat) == walk_end(
            more.push(has_more),
            max_pages as nat,
        ),
{
    assert(more.push(has_more).drop_last() == more);
}

/// A history is reported as incomplete exactly where the last page that was
/// fetched had more after it, and that happens only at the cap; every page before
/// it had more after it too.
pub proof fn law_truncated_only_at_the_cap(more: Seq<bool>, max_pages: nat)
    requires
        more.len() <= usize::MAX,
        max_pages >= 1,
    ensures
        walk_end(more, max_pages) matches Some(run) ==> {
            &&& 1 <= run.pages <= more.len()
            &&& run.pages <= max_pages
            &&& run.truncated == more[run.pages - 1]
            &&& run.truncated ==> run.pages == max_pages
            &&& forall|i: int| 0 <= i < run.pages - 1 ==> more[i]
        },
        walk_end(more, max_pages) is None ==> more.len() < max_pages && forall|i: int|
            0 <= i < more.len() ==> more[i],
    decreases more.len(),
{
    if more.len() > 0 {
        let front = more.drop_last();
        law_truncated_only_at_the_cap(front, max_pages);
        assert(forall|i: int| 0 <= i < front.len() ==> front[i] == more[i]);
        assert(more.last() == more[more.len() - 1]);
    }
}

// ---------------------------------------------------------------------------
// Laws
// ---------------------------------------------------------------------------

/// An error is one of authorisation exactly by its status. Any other is of a kind
/// whose words the code or the body holds, in capitals or not; where it is of no
/// kind, they hold the words of none. An expired session counts before a rate limit,
/// and that before a wrong period.
pub proof fn law_kinds_go_by_status_and_words(status: u16, code: Seq<char>, body: Seq<char>)
    ensures
        ({
            let kind = kind_of(status, code, body);
            let said = text::in_capitals(code + seq![' '] + body);
            let expired = text::holds(said, "EXPIRED_SESSION"@);
            let limited = text::holds(said, "RATE_LIMIT"@);
            let period = text::holds(said, "WRONG_TRANSACTIONS_PERIOD"@);
            let bank = text::holds(said, "ASPSP_ERROR"@);
            let refused = status == 401 || status == 403;
            &&& kind == ApiErrorKind::Unauthorized <==> refused
            &&& kind == ApiErrorKind::ExpiredSession <==> !refused && expired
            &&& kind == ApiErrorKind::RateLimited <==> !refused && !expired && limited
            &&& kind == ApiErrorKind::WrongTransactionsPeriod <==> !refused && !expired && !limited
                && period
            &&& kind == ApiErrorKind::AspspError <==> !refused && !expired && !limited && !period
                && bank
            &&& kind == ApiErrorKind::Other <==> !refused && !expired && !limited && !period
                && !bank
        }),
{
}

/// Where the code or the body, in letters of the alphabet, holds the words of an
/// expired session, the kind is that, whichever of the two holds them.
pub proof fn law_words_count_wherever_they_stand(
    status: u16,
    code: Seq<char>,
    body: Seq<char>,
    front: Seq<char>,
    back: Seq<char>,
)
    requires
        status != 401,
        status != 403,
        utf8::is_ascii_chars(code),
        utf8::is_ascii_chars(body),
        code == front + "EXPIRED_SESSION"@ + back || body == front + "expired_session"@ + back,
    ensures
        kind_of(status, code, body) == ApiErrorKind::ExpiredSession,
{
    reveal_strlit("EXPIRED_SESSION");
    reveal_strlit("expired_session");
    let words = "EXPIRED_SESSION"@;
    let all = code + seq![' '] + body;
    assert forall|i: int| 0 <= i < all.len() implies (#[trigger] all[i]) as u32 <= 127 by {
        if i < code.len() {
            assert(code[i] as u32 <= 127);
        } else if i > code.len() {
            assert(body[i - code.len() - 1] as u32 <= 127);
        }
    }
    assert(utf8::is_ascii_chars(all));
    let said = text::in_capitals(all);
    if code == front + words + back {
        let k = front.len() as int;
        assert(said.subrange(k, k + 15) =~= words);
        assert(text::stands_at(said, words, k));
    } else {
        let k = code.len() + 1 + front.len() as int;
        assert forall|i: int| 0 <= i < 15 implies said.subrange(k, k + 15)[i] == words[i] by {
            assert(all[k + i] == "expired_session"@[i]);
        }
        assert(said.subrange(k, k + 15) =~= words);
        assert(text::stands_at(said, words, k));
    }
}

/// Success is what the hundreds of a status say.
pub proof fn law_success_is_in_the_two_hundreds(status: u16)
    ensures
        is_success(status) <==> status as int / 100 == 2,
{
}

/// The code of an error is the one within the error, or else the next place that is
/// there; its message is the one within the error, or else the next place, or else
/// the body, and no more than the first 500 characters of it.
pub proof fn law_errors_say_what_was_replied(e: ApiError, status: u16, body: Seq<char>, tree: Tree)
    requires
        tells(e, status, body, Some(envelope_in(tree))),
    ensures
        e.status == status,
        json::member_in(tree, "error"@, "code"@) matches Some(Tree::Text(t)) ==> e.code@ == t,
        json::member_in(tree, "error"@, "code"@) is None && (json::member_of(
            tree,
            "error_code"@,
        ) matches Some(Tree::Text(_))) ==> Some(Tree::Text(e.code@)) == json::member_of(
            tree,
            "error_code"@,
        ),
        json::member_in(tree, "error"@, "code"@) is None && json::member_of(
            tree,
            "error_code"@,
        ) is None && (json::member_of(tree, "code"@) matches Some(Tree::Text(_))) ==> Some(
            Tree::Text(e.code@),
        ) == json::member_of(tree, "code"@),
        json::member_in(tree, "error"@, "code"@) is None && json::member_of(
            tree,
            "error_code"@,
        ) is None && json::member_of(tree, "code"@) is None && json::member_of(
            tree,
            "error"@,
        ) is None ==> e.code@ == "UNKNOWN"@,
        e.message@.len() <= 500,
        json::member_in(tree, "error"@, "message"@) matches Some(Tree::Text(t))
            ==> e.message@.is_prefix_of(t) && (t.len() <= 500 ==> e.message@ == t),
        json::member_in(tree, "error"@, "message"@) is None && (json::member_of(
            tree,
            "message"@,
        ) matches Some(Tree::Text(t))) ==> e.message@.is_prefix_of(
            text_or(probed(json::member_of(tree, "message"@)), body),
        ),
        json::member_in(tree, "error"@, "message"@) is None && json::member_of(
            tree,
            "message"@,
        ) is None && json::member_of(tree, "detail"@) is None ==> e.message@.is_prefix_of(body)
            && (body.len() <= 500 ==> e.message@ == body),
        e.kind == kind_of(status, e.code@, body),
{
}

/// A consent is asked for a minute short of the bank's maximum, or of an hour where
/// that is longer; of 90 days where the bank states none.
pub proof fn law_consent_undercuts_by_a_minute(limit: Option<i64>)
    ensures
        limit matches Some(s) && s >= 3600 ==> consent_secs(limit) + 60 == limit->0,
        limit matches Some(s) && s < 3600 ==> consent_secs(limit) + 60 == 3600,
        limit is None ==> consent_secs(limit) + 60 == 90 * 24 * 3600,
        consent_secs(limit) > 0,
{
}

/// The claims of a token stand in it under their names: who issues it, for whom, a
/// minute before and an hour after it is made.
pub proof fn law_claims_stand_under_their_names(
    iss: Seq<char>,
    aud: Seq<char>,
    iat: int,
    exp: int,
)
    ensures
        json::member_of(claims_tree(iss, aud, iat, exp), "iss"@) == Some(Tree::Text(iss)),
        json::member_of(claims_tree(iss, aud, iat, exp), "aud"@) == Some(Tree::Text(aud)),
        json::member_of(claims_tree(iss, aud, iat, exp), "iat"@) == Some(
            Tree::Number(decimal::signed(iat)),
        ),
        json::member_of(claims_tree(iss, aud, iat, exp), "exp"@) == Some(
            Tree::Number(decimal::signed(exp)),
        ),
        JWT_TTL_SECS == 3600,
        JWT_SKEW_SECS == 60,
{
    reveal_strlit("iss");
    reveal_strlit("aud");
    reveal_strlit("iat");
    reveal_strlit("exp");
    assert("iss"@[1] == 's' && "aud"@[1] == 'u' && "iat"@[1] == 'a' && "exp"@[1] == 'x');
    let members = seq![
        ("iss"@, Tree::Text(iss)),
        ("aud"@, Tree::Text(aud)),
        ("iat"@, Tree::Number(decimal::signed(iat))),
        ("exp"@, Tree::Number(decimal::signed(exp))),
    ];
    assert(members[0].0 == "iss"@ && members[1].0 == "aud"@);
    assert(members[2].0 == "iat"@ && members[3].0 == "exp"@);
    json::lemma_member_stands(members, 0);
    json::lemma_member_stands(members, 1);
    json::lemma_member_stands(members, 2);
    json::lemma_member_stands(members, 3);
}

/// A request to authorise a bank names the bank, the country, the state, the address
/// to come back to and the type of user that it was made with, and asks for balances
/// and transactions until the given instant.
pub proof fn law_authorization_asks_for_what_is_meant(
    aspsp: Aspsp,
    redirect_url: Seq<char>,
    state: Seq<char>,
    valid_until: Seq<char>,
    psu_type: Seq<char>,
)
    ensures
        ({
            let body = authorization_body(aspsp, redirect_url, state, valid_until, psu_type);
            &&& json::member_of(body, "state"@) == Some(Tree::Text(state))
            &&& json::member_of(body, "redirect_url"@) == Some(Tree::Text(redirect_url))
            &&& json::member_of(body, "psu_type"@) == Some(Tree::Text(psu_type))
            &&& json::member_in(body, "aspsp"@, "name"@) == Some(Tree::Text(aspsp.name@))
            &&& json::member_in(body, "aspsp"@, "country"@) == Some(Tree::Text(aspsp.country@))
            &&& json::member_in(body, "access"@, "valid_until"@) == Some(Tree::Text(valid_until))
            &&& json::member_in(body, "access"@, "balances"@) == Some(Tree::Bool(true))
            &&& json::member_in(body, "access"@, "transactions"@) == Some(Tree::Bool(true))
        }),
{
    reveal_strlit("access");
    reveal_strlit("aspsp");
    reveal_strlit("state");
    reveal_strlit("redirect_url");
    reveal_strlit("psu_type");
    reveal_strlit("balances");
    reveal_strlit("transactions");
    reveal_strlit("valid_until");
    reveal_strlit("name");
    reveal_strlit("country");
    assert("aspsp"@[0] == 'a' && "state"@[0] == 's');
    assert("access"@.len() == 6 && "aspsp"@.len() == 5 && "state"@.len() == 5);
    assert("redirect_url"@.len() == 12 && "psu_type"@.len() == 8);
    assert("balances"@.len() == 8 && "transactions"@.len() == 12 && "valid_until"@.len() == 11);
    assert("name"@.len() == 4 && "country"@.len() == 7);
    let access = seq![
        ("balances"@, Tree::Bool(true)),
        ("transactions"@, Tree::Bool(true)),
        ("valid_until"@, Tree::Text(valid_until)),
    ];
    let bank = seq![
        ("name"@, Tree::Text(aspsp.name@)),
        ("country"@, Tree::Text(aspsp.country@)),
    ];
    let members = seq![
        ("access"@, object(access)),
        ("aspsp"@, object(bank)),
        ("state"@, Tree::Text(state)),
        ("redirect_url"@, Tree::Text(redirect_url)),
        ("psu_type"@, Tree::Text(psu_type)),
    ];
    json::lemma_member_stands(access, 0);
    json::lemma_member_stands(access, 1);
    json::lemma_member_stands(access, 2);
    json::lemma_member_stands(bank, 0);
    json::lemma_member_stands(bank, 1);
    json::lemma_member_stands(members, 0);
    json::lemma_member_stands(members, 1);
    json::lemma_member_stands(members, 2);
    json::lemma_member_stands(members, 3);
    json::lemma_member_stands(members, 4);
}

/// A request for a page names the first and the last day, the strategy and the key
/// to continue with, each exactly where there is one, and nothing else.
pub proof fn law_pages_are_asked_for_by_the_query(query: TransactionQuery, key: Option<Seq<char>>)
    ensures
        ({
            let params = query.page_params(key);
            &&& query.date_from matches Some(d) ==> params.contains(("date_from"@, d.iso()))
            &&& query.date_to matches Some(d) ==> params.contains(("date_to"@, d.iso()))
            &&& query.strategy matches Some(s) ==> params.contains(("strategy"@, s@))
            &&& key matches Some(k) ==> params.contains(("continuation_key"@, k))
            &&& params.len() == given(query.date_from is Some) + given(query.date_to is Some)
                + given(query.strategy is Some) + given(key is Some)
        }),
{
    let params = query.page_params(key);
    let n = given(query.date_from is Some) as int;
    let m = n + given(query.date_to is Some) as int;
    let k = m + given(query.strategy is Some) as int;
    if let Some(d) = query.date_from {
        assert(params[0] == ("date_from"@, d.iso()));
    }
    if let Some(d) = query.date_to {
        assert(params[n] == ("date_to"@, d.iso()));
    }
    if let Some(s) = query.strategy {
        assert(params[m] == ("strategy"@, s@));
    }
    if let Some(c) = key {
        assert(params[k] == ("continuation_key"@, c));
    }
}

/// One where something is given, and none where it is not.
pub open spec fn given(there: bool) -> nat {
    if there {
        1
    } else {
        0
    }
}

/// There is another page exactly where the reply holds a key to continue with that
/// is not empty, and that key is asked for it.
pub proof fn law_more_pages_by_the_key(tree: Tree)
    ensures
        match json::member_of(tree, "continuation_key"@) {
            Some(Tree::Text(k)) => key_in(tree) == (if k.len() == 0 {
                None
            } else {
                Some(k)
            }),
            _ => key_in(tree) is None,
        },
{
}

} // verus!
