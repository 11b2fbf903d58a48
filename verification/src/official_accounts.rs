//! The official accounts that are kept side by side. Exactly one can be the default; its login is
//! copied to where Codex reads it.
use crate::dates::{read_rfc3339, rfc3339_seconds, rfc3339_text, write_rfc3339};
use crate::digest::{Fingerprint, add_all, hex_text, sha256, sha256_of, to_hex};
use crate::encoding::{decode_url_text, url_bytes};
use crate::ids::{fresh_id, has_form, hyphenated};
use crate::json::{
    Json, JsonV, copy_text, json_parsed, json_pretty, own_view, owned, parse_bytes, same_document,
    string_view, text_view, with_then_get,
};
use crate::text::{
    Sep, byte_len, cat2, cat3, cat4, char_is_alnum, chars_of, comes_before, head, is_alnum, lower,
    split, split_text, str_eq, text_before, text_byte_len, text_head, text_order, texts, to_lower,
    trim, trim_of_clean, trimmed,
};
use crate::textmap::{
    TextMap, distinct, distinct_after_set, lookup, lookup_at, lookup_place, remove_then_look,
    set_then_look, with_key, without_key,
};
use vstd::prelude::*;
use vstd::string::*;
use vstd::utf8::*;

verus! {

pub const ACCOUNTS_DIR_NAME: &'static str = "official-accounts";

pub const DEFAULT_FILE_NAME: &'static str = "default.json";

pub const MAX_JWT_PAYLOAD_BYTES: usize = 65_536;

/// Seconds after which a login is refreshed before it is handed to Codex.
pub const REFRESH_BEFORE_ACTIVATE_AGE: u64 = 21_600;

/// The last millisecond of the year 9999.
pub const LAST_WRITTEN_MILLIS: i64 = 253_402_300_799_999;

/// An account with its login.
#[derive(Debug)]
pub struct OfficialAccountRecord {
    pub id: String,
    pub email: Option<String>,
    pub plan_type: Option<String>,
    pub account_id: Option<String>,
    pub added_at: u64,
    /// The whole login document.
    pub auth: Json,
}

#[verifier::ext_equal]
pub struct RecordV {
    pub id: Seq<char>,
    pub email: Option<Seq<char>>,
    pub plan_type: Option<Seq<char>>,
    pub account_id: Option<Seq<char>>,
    pub added_at: u64,
    pub auth: JsonV,
}

impl View for OfficialAccountRecord {
    type V = RecordV;

    open spec fn view(&self) -> RecordV {
        RecordV {
            id: self.id@,
            email: string_view(self.email),
            plan_type: string_view(self.plan_type),
            account_id: string_view(self.account_id),
            added_at: self.added_at,
            auth: self.auth@,
        }
    }
}

pub open spec fn record_list(v: Seq<OfficialAccountRecord>) -> Seq<RecordV> {
    Seq::new(v.len(), |i: int| v[i]@)
}

pub open spec fn record_view(r: Option<OfficialAccountRecord>) -> Option<RecordV> {
    match r {
        Some(x) => Some(x@),
        None => None,
    }
}

/// What is shown of an account. It never carries tokens.
#[derive(Debug, Clone, PartialEq, Eq)]
pub struct OfficialAccountSummary {
    pub id: String,
    pub email: Option<String>,
    pub plan_type: Option<String>,
    pub account_id: Option<String>,
    pub added_at: u64,
    pub last_refresh: Option<String>,
    pub is_default: bool,
}

#[verifier::ext_equal]
pub struct SummaryV {
    pub id: Seq<char>,
    pub email: Option<Seq<char>>,
    pub plan_type: Option<Seq<char>>,
    pub account_id: Option<Seq<char>>,
    pub added_at: u64,
    pub last_refresh: Option<Seq<char>>,
    pub is_default: bool,
}

impl View for OfficialAccountSummary {
    type V = SummaryV;

    open spec fn view(&self) -> SummaryV {
        SummaryV {
            id: self.id@,
            email: string_view(self.email),
            plan_type: string_view(self.plan_type),
            account_id: string_view(self.account_id),
            added_at: self.added_at,
            last_refresh: string_view(self.last_refresh),
            is_default: self.is_default,
        }
    }
}

/// A character that can stand in the name of an account's file.
pub open spec fn id_char(c: char) -> char {
    if is_alnum(c) || c == '-' || c == '_' {
        c
    } else {
        '-'
    }
}

pub open spec fn sanitized(text: Seq<char>) -> Seq<char> {
    Seq::new(text.len(), |i: int| id_char(text[i]))
}

/// A text with every character that cannot stand in the name of a file replaced.
pub fn sanitize_text(text: &str) -> (r: String)
    ensures
        r@ == sanitized(text@),
{
    let v = chars_of(text);
    let mut out = String::new();
    let mut i: usize = 0;
    while i < v.len()
        invariant
            i <= v.len(),
            out@ == sanitized(v@).subrange(0, i as int),
        decreases v.len() - i,
    {
        let c = v[i];
        if char_is_alnum(c) || c == '-' || c == '_' {
            out.push(c);
        } else {
            out.push('-');
        }
        i = i + 1;
        proof {
            assert(out@ =~= sanitized(v@).subrange(0, i as int));
        }
    }
    proof {
        assert(sanitized(v@).subrange(0, i as int) =~= sanitized(v@));
    }
    out
}

/// The name under which an account is stored: its identifier made fit, or a fresh one where there
/// is nothing of it.
pub open spec fn stem_of(id: Seq<char>, stem: Seq<char>) -> bool {
    if id.len() == 0 {
        has_form(stem, "account-"@)
    } else {
        stem == sanitized(id)
    }
}

/// The name under which an account is stored.
pub fn sanitize_id(id: &str) -> (r: String)
    ensures
        stem_of(id@, r@),
{
    let clean = sanitize_text(id);
    if clean.as_str().is_empty() {
        fresh_id("account-")
    } else {
        clean
    }
}

/// A member that is a text with something in it, trimmed.
pub open spec fn claim(claims: JsonV, key: Seq<char>) -> Option<Seq<char>> {
    match claims.get_str(key) {
        Some(s) => if trim(s).len() > 0 {
            Some(trim(s))
        } else {
            None
        },
        None => None,
    }
}

/// A member that is a text with something in it, trimmed.
pub fn string_claim(claims: &Json, key: &str) -> (r: Option<String>)
    ensures
        string_view(r) == claim(claims@, key@),
{
    match claims.get_str(key) {
        Some(s) => {
            let t = trimmed(s);
            if t.as_str().is_empty() {
                None
            } else {
                Some(t)
            }
        },
        None => None,
    }
}

pub open spec fn or_else(a: Option<Seq<char>>, b: Option<Seq<char>>) -> Option<Seq<char>> {
    match a {
        Some(x) => Some(x),
        None => b,
    }
}

/// A claim under the provider's own heading.
pub open spec fn auth_claim(claims: JsonV, key: Seq<char>) -> Option<Seq<char>> {
    match claims.get("https://api.openai.com/auth"@) {
        Some(inner) => claim(inner, key),
        None => None,
    }
}

fn own_claim(claims: &Json, key: &str) -> (r: Option<String>)
    ensures
        string_view(r) == auth_claim(claims@, key@),
{
    match claims.get("https://api.openai.com/auth") {
        Some(inner) => string_claim(inner, key),
        None => None,
    }
}

/// The account that claims name.
pub open spec fn account_claim(claims: JsonV) -> Option<Seq<char>> {
    or_else(
        auth_claim(claims, "chatgpt_account_id"@),
        claim(claims, "chatgpt_account_id"@),
    )
}

/// The account that claims name.
pub fn chatgpt_account_id_from_claims(claims: &Json) -> (r: Option<String>)
    ensures
        string_view(r) == account_claim(claims@),
{
    match own_claim(claims, "chatgpt_account_id") {
        Some(id) => Some(id),
        None => string_claim(claims, "chatgpt_account_id"),
    }
}

/// The part of a token that holds its claims, where it is not too long.
pub open spec fn token_payload(token: Seq<char>) -> Option<Seq<char>> {
    let parts = split(token, Sep::Char('.'));
    if parts.len() < 2 || byte_len(parts[1]) > 65_536 {
        None
    } else {
        Some(parts[1])
    }
}

/// The part of a token that holds its claims, where it is not too long.
pub fn jwt_payload(token: &str) -> (r: Option<String>)
    ensures
        string_view(r) == token_payload(token@),
{
    let parts = split_text(token, Sep::Char('.'));
    proof {
        assert(texts(parts@).len() == parts.len());
    }
    if parts.len() < 2 {
        return None;
    }
    proof {
        assert(texts(parts@)[1] == parts@[1]@);
    }
    if text_byte_len(parts[1].as_str()) > MAX_JWT_PAYLOAD_BYTES {
        return None;
    }
    Some(parts[1].clone())
}

/// The claims of a token, which is not checked here.
pub open spec fn token_claims(token: Seq<char>) -> Option<JsonV> {
    match token_payload(token) {
        None => None,
        Some(payload) => match url_bytes(payload) {
            None => None,
            Some(bytes) => match json_parsed(bytes) {
                Ok(v) => Some(v),
                Err(_) => None,
            },
        },
    }
}

/// The claims of a token, which is not checked here.
pub fn jwt_claims(token: &str) -> (r: Option<Json>)
    ensures
        own_view(r) == token_claims(token@),
{
    let payload = match jwt_payload(token) {
        None => {
            return None;
        },
        Some(p) => p,
    };
    match decode_url_text(payload.as_str()) {
        None => None,
        Some(bytes) => match parse_bytes(bytes.as_slice()) {
            Ok(v) => Some(v),
            Err(_) => None,
        },
    }
}

/// The login is one with an account: it says so, or says nothing.
pub open spec fn mode_is_chatgpt(auth: JsonV) -> bool {
    match auth.get("auth_mode"@) {
        None => true,
        Some(JsonV::Null) => true,
        Some(v) => v.as_str() == Some("chatgpt"@),
    }
}

fn has_chatgpt_mode(auth: &Json) -> (r: bool)
    ensures
        r == mode_is_chatgpt(auth@),
{
    match auth.get("auth_mode") {
        None => true,
        Some(v) => v.is_null() || match v.as_str() {
            Some(s) => str_eq(s, "chatgpt"),
            None => false,
        },
    }
}

/// The document is a login with an account.
pub open spec fn chatgpt_login(auth: JsonV) -> bool {
    mode_is_chatgpt(auth) && match auth.get2("tokens"@, "access_token"@) {
        Some(JsonV::Str(token)) => trim(token).len() > 0,
        _ => false,
    }
}

/// Whether the document is a login with an account.
pub fn auth_is_chatgpt_login(auth: &Json) -> (r: bool)
    ensures
        r == chatgpt_login(auth@),
{
    has_chatgpt_mode(auth) && match auth.get2("tokens", "access_token") {
        Some(v) => match v.as_str() {
            Some(token) => !trimmed(token).as_str().is_empty(),
            None => false,
        },
        None => false,
    }
}

/// The claims that a record is made from.
pub open spec fn claims_of(claims: Option<JsonV>, what: int) -> Option<Seq<char>> {
    match claims {
        None => None,
        Some(c) => if what == 0 {
            account_claim(c)
        } else if what == 1 {
            claim(c, "email"@)
        } else {
            auth_claim(c, "chatgpt_plan_type"@)
        },
    }
}

/// What a login says of its account, from the login itself and from the claims of its two tokens.
pub open spec fn login_account(
    auth: JsonV,
    id_claims: Option<JsonV>,
    access_claims: Option<JsonV>,
) -> Option<Seq<char>> {
    or_else(
        claim(auth.at("tokens"@), "account_id"@),
        or_else(claims_of(id_claims, 0), claims_of(access_claims, 0)),
    )
}

pub open spec fn login_email(id_claims: Option<JsonV>, access_claims: Option<JsonV>) -> Option<
    Seq<char>,
> {
    or_else(claims_of(id_claims, 1), claims_of(access_claims, 1))
}

pub open spec fn login_plan(id_claims: Option<JsonV>, access_claims: Option<JsonV>) -> Option<
    Seq<char>,
> {
    or_else(claims_of(id_claims, 2), claims_of(access_claims, 2))
}

/// The identifier that the digest of an address makes.
pub open spec fn email_id(digest: Seq<u8>) -> Seq<char> {
    "email-"@ + head(hex_text(digest), 24)
}

/// The identifier that the digest of an address makes.
pub fn email_account_id(digest: &Fingerprint) -> (r: String)
    ensures
        r@ == email_id(digest@),
{
    let hex = to_hex(&digest.bytes);
    cat2("email-", text_head(hex.as_str(), 24).as_str())
}

/// The identifier of a record: made from the account, or from the address, or fresh.
pub open spec fn id_fits(
    id: Seq<char>,
    account_id: Option<Seq<char>>,
    email: Option<Seq<char>>,
) -> bool {
    match account_id {
        Some(account) => stem_of(account, id),
        None => match email {
            Some(address) => id == email_id(sha256_of(encode_utf8(lower(address)))),
            None => has_form(id, "account-"@),
        },
    }
}

/// The login as it is stored: with its mode, and with the account where its tokens do not name one.
pub open spec fn stored_login(auth: JsonV, account_id: Option<Seq<char>>) -> JsonV {
    let with_mode = auth.with("auth_mode"@, JsonV::Str("chatgpt"@));
    match account_id {
        Some(account) => if auth.at("tokens"@).is_object() && !auth.at("tokens"@).has(
            "account_id"@,
        ) {
            with_mode.with(
                "tokens"@,
                auth.at("tokens"@).with("account_id"@, JsonV::Str(account)),
            )
        } else {
            with_mode
        },
        None => with_mode,
    }
}

/// What keeps a login from being an account's.
pub open spec fn login_fault(auth: JsonV) -> Option<Seq<char>> {
    if auth.get_object("tokens"@) is None {
        Some("登录信息缺少 tokens 字段"@)
    } else if !mode_is_chatgpt(auth) {
        Some("当前登录不是 ChatGPT 官方账号登录"@)
    } else if claim(auth.at("tokens"@), "access_token"@) is None {
        Some("登录信息缺少 access_token"@)
    } else {
        None
    }
}

/// The record of a login, given the claims of its tokens.
pub open spec fn record_fits(
    r: RecordV,
    auth: JsonV,
    id_claims: Option<JsonV>,
    access_claims: Option<JsonV>,
    added_at: u64,
) -> bool {
    &&& r.account_id == login_account(auth, id_claims, access_claims)
    &&& r.email == login_email(id_claims, access_claims)
    &&& r.plan_type == login_plan(id_claims, access_claims)
    &&& id_fits(r.id, r.account_id, r.email)
    &&& r.added_at == added_at
    &&& r.auth == stored_login(auth, r.account_id)
}

/// The claims of a login's tokens: those of the one that names the user, and those of the other.
pub open spec fn id_claims_of(auth: JsonV) -> Option<JsonV> {
    match auth.at("tokens"@).get_str("id_token"@) {
        Some(token) => token_claims(token),
        None => None,
    }
}

pub open spec fn access_claims_of(auth: JsonV) -> Option<JsonV> {
    match claim(auth.at("tokens"@), "access_token"@) {
        Some(token) => token_claims(token),
        None => None,
    }
}

fn claim_from(claims: &Option<Json>, what: u8) -> (r: Option<String>)
    ensures
        string_view(r) == claims_of(own_view(*claims), what as int),
{
    match claims {
        None => None,
        Some(c) => if what == 0 {
            chatgpt_account_id_from_claims(c)
        } else if what == 1 {
            string_claim(c, "email")
        } else {
            own_claim(c, "chatgpt_plan_type")
        },
    }
}

fn first_claim(id_claims: &Option<Json>, access_claims: &Option<Json>, what: u8) -> (r: Option<
    String,
>)
    ensures
        string_view(r) == or_else(
            claims_of(own_view(*id_claims), what as int),
            claims_of(own_view(*access_claims), what as int),
        ),
{
    match claim_from(id_claims, what) {
        Some(s) => Some(s),
        None => claim_from(access_claims, what),
    }
}

fn id_for(account_id: &Option<String>, email: &Option<String>) -> (r: String)
    ensures
        id_fits(r@, string_view(*account_id), string_view(*email)),
{
    match account_id {
        Some(account) => sanitize_id(account.as_str()),
        None => match email {
            Some(address) => {
                let mut bytes: Vec<u8> = Vec::new();
                let low = to_lower(address.as_str());
                add_all(&mut bytes, low.as_str().as_bytes());
                proof {
                    assert(bytes@ =~= encode_utf8(lower(address@)));
                }
                email_account_id(&sha256(&bytes))
            },
            None => fresh_id("account-"),
        },
    }
}

impl OfficialAccountRecord {
    /// The record of a login, given the claims of its tokens.
    pub fn from_claims(
        auth: Json,
        id_claims: &Option<Json>,
        access_claims: &Option<Json>,
        added_at: u64,
    ) -> (r: Result<OfficialAccountRecord, String>)
        ensures
            match r {
                Ok(record) => login_fault(auth@) is None && record_fits(
                    record@,
                    auth@,
                    own_view(*id_claims),
                    own_view(*access_claims),
                    added_at,
                ),
                Err(e) => login_fault(auth@) == Some(e@),
            },
    {
        let ghost given = auth@;
        let mut auth = auth;
        let (said, names_account) = match auth.get_object("tokens") {
            None => {
                return Err("登录信息缺少 tokens 字段".to_owned());
            },
            Some(tokens) => {
                if !has_chatgpt_mode(&auth) {
                    return Err("当前登录不是 ChatGPT 官方账号登录".to_owned());
                }
                if string_claim(tokens, "access_token").is_none() {
                    return Err("登录信息缺少 access_token".to_owned());
                }
                (string_claim(tokens, "account_id"), tokens.has("account_id"))
            },
        };
        let account_id = match said {
            Some(id) => Some(id),
            None => first_claim(id_claims, access_claims, 0),
        };
        let email = first_claim(id_claims, access_claims, 1);
        let plan_type = first_claim(id_claims, access_claims, 2);
        let id = id_for(&account_id, &email);
        let mut tokens = match auth.get("tokens") {
            Some(t) => t.clone_json(),
            None => Json::obj(),
        };
        auth.insert("auth_mode", Json::str("chatgpt"));
        if let Some(account) = &account_id {
            if !names_account {
                tokens.insert("account_id", Json::str(account.as_str()));
                auth.insert("tokens", tokens);
            }
        }
        Ok(OfficialAccountRecord { id, email, plan_type, account_id, added_at, auth })
    }

    /// The record of a login.
    pub fn from_auth(auth: Json, added_at: u64) -> (r: Result<OfficialAccountRecord, String>)
        ensures
            match r {
                Ok(record) => login_fault(auth@) is None && record_fits(
                    record@,
                    auth@,
                    id_claims_of(auth@),
                    access_claims_of(auth@),
                    added_at,
                ),
                Err(e) => login_fault(auth@) == Some(e@),
            },
    {
        let (id_claims, access_claims) = match auth.get("tokens") {
            None => (None, None),
            Some(tokens) => {
                let id_claims = match tokens.get_str("id_token") {
                    Some(token) => jwt_claims(token),
                    None => None,
                };
                let access_claims = match string_claim(tokens, "access_token") {
                    Some(token) => jwt_claims(token.as_str()),
                    None => None,
                };
                (id_claims, access_claims)
            },
        };
        OfficialAccountRecord::from_claims(auth, &id_claims, &access_claims, added_at)
    }

    /// A record with the same content.
    pub fn copy(&self) -> (r: OfficialAccountRecord)
        ensures
            r@ == self@,
    {
        OfficialAccountRecord {
            id: self.id.clone(),
            email: copy_text(&self.email),
            plan_type: copy_text(&self.plan_type),
            account_id: copy_text(&self.account_id),
            added_at: self.added_at,
            auth: self.auth.clone_json(),
        }
    }

    /// When the login was last refreshed, as it says.
    pub fn last_refresh(&self) -> (r: Option<String>)
        ensures
            string_view(r) == self@.auth.get_str("last_refresh"@),
    {
        owned(self.auth.get_str("last_refresh"))
    }

    /// Seconds since the login was last refreshed.
    pub fn last_refresh_age(&self, now: u64) -> (r: Option<u64>)
        ensures
            r == refresh_age(self@.auth, now),
    {
        match self.auth.get_str("last_refresh") {
            None => None,
            Some(text) => age_since(read_rfc3339(text), now),
        }
    }

    /// The token that refreshes the login.
    pub fn refresh_token(&self) -> (r: Option<String>)
        ensures
            string_view(r) == refresh_token_of(self@.auth),
    {
        match self.auth.get("tokens") {
            Some(tokens) => string_claim(tokens, "refresh_token"),
            None => None,
        }
    }

    /// What is shown of the account.
    pub fn summary(&self, default_id: Option<&str>) -> (r: OfficialAccountSummary)
        ensures
            r@ == summary_of(self@, text_view(default_id)),
    {
        let is_default = match default_id {
            Some(id) => str_eq(id, self.id.as_str()),
            None => false,
        };
        OfficialAccountSummary {
            id: self.id.clone(),
            email: copy_text(&self.email),
            plan_type: copy_text(&self.plan_type),
            account_id: copy_text(&self.account_id),
            added_at: self.added_at,
            last_refresh: self.last_refresh(),
            is_default,
        }
    }

    /// Whether a login belongs to this account, given the account that it names.
    pub fn matches_login(&self, auth: &Json, named: Option<&str>) -> (r: bool)
        ensures
            r == login_matches(self@, auth@, text_view(named)),
    {
        if let Some(mine) = &self.account_id {
            if let Some(theirs) = named {
                return str_eq(mine.as_str(), theirs);
            }
        }
        match (
            self.auth.get2("tokens", "access_token"),
            auth.get2("tokens", "access_token"),
        ) {
            (Some(a), Some(b)) => a.same(b),
            _ => false,
        }
    }

    /// Whether a login belongs to this account.
    pub fn matches_auth(&self, auth: &Json) -> (r: bool)
        ensures
            r == login_matches(self@, auth@, named_account(auth@)),
    {
        let named = auth_account_id(auth);
        match &named {
            Some(id) => self.matches_login(auth, Some(id.as_str())),
            None => self.matches_login(auth, None),
        }
    }
}

/// Seconds since a point in time, none where it is not yet past.
pub open spec fn age_of(seconds: Option<i64>, now: u64) -> Option<u64> {
    match seconds {
        None => None,
        Some(seconds) => if seconds < 0 {
            None
        } else if seconds >= now {
            Some(0)
        } else {
            Some((now - seconds) as u64)
        },
    }
}

/// Seconds since a point in time, none where it is not yet past.
pub fn age_since(seconds: Option<i64>, now: u64) -> (r: Option<u64>)
    ensures
        r == age_of(seconds, now),
{
    match seconds {
        None => None,
        Some(seconds) => if seconds < 0 {
            None
        } else if seconds as u64 >= now {
            Some(0)
        } else {
            Some(now - seconds as u64)
        },
    }
}

/// Seconds since a login was last refreshed, where it says so.
pub open spec fn refresh_age(auth: JsonV, now: u64) -> Option<u64> {
    match auth.get_str("last_refresh"@) {
        None => None,
        Some(text) => age_of(rfc3339_seconds(text), now),
    }
}

pub open spec fn refresh_token_of(auth: JsonV) -> Option<Seq<char>> {
    match auth.get("tokens"@) {
        Some(tokens) => claim(tokens, "refresh_token"@),
        None => None,
    }
}

pub open spec fn summary_of(r: RecordV, default_id: Option<Seq<char>>) -> SummaryV {
    SummaryV {
        id: r.id,
        email: r.email,
        plan_type: r.plan_type,
        account_id: r.account_id,
        added_at: r.added_at,
        last_refresh: r.auth.get_str("last_refresh"@),
        is_default: default_id == Some(r.id),
    }
}

/// A login belongs to a record's account: both name the same account, or, where one names none,
/// both hold the same token.
pub open spec fn login_matches(r: RecordV, auth: JsonV, named: Option<Seq<char>>) -> bool {
    match (r.account_id, named) {
        (Some(mine), Some(theirs)) => mine == theirs,
        _ => {
            match (
                r.auth.get2("tokens"@, "access_token"@),
                auth.get2("tokens"@, "access_token"@),
            ) {
                (Some(mine), Some(theirs)) => same_document(mine, theirs),
                _ => false,
            }
        },
    }
}

/// The claims of a token in a login.
pub open spec fn claims_in(auth: JsonV, key: Seq<char>) -> Option<JsonV> {
    match auth.at("tokens"@).get_str(key) {
        Some(token) => token_claims(token),
        None => None,
    }
}

fn claims_of_token(auth: &Json, key: &str) -> (r: Option<Json>)
    ensures
        own_view(r) == claims_in(auth@, key@),
{
    match auth.get("tokens") {
        None => None,
        Some(tokens) => match tokens.get_str(key) {
            Some(token) => jwt_claims(token),
            None => None,
        },
    }
}

/// The account that a login names.
pub open spec fn named_account(auth: JsonV) -> Option<Seq<char>> {
    login_account(auth, claims_in(auth, "id_token"@), claims_in(auth, "access_token"@))
}

/// The account that a login names, given the claims of its tokens.
pub fn account_named(auth: &Json, id_claims: &Option<Json>, access_claims: &Option<Json>) -> (r:
    Option<String>)
    ensures
        string_view(r) == login_account(auth@, own_view(*id_claims), own_view(*access_claims)),
{
    let said = match auth.get("tokens") {
        None => None,
        Some(tokens) => string_claim(tokens, "account_id"),
    };
    match said {
        Some(id) => Some(id),
        None => first_claim(id_claims, access_claims, 0),
    }
}

/// The account that a login names.
pub fn auth_account_id(auth: &Json) -> (r: Option<String>)
    ensures
        string_view(r) == named_account(auth@),
{
    let id_claims = claims_of_token(auth, "id_token");
    let access_claims = claims_of_token(auth, "access_token");
    account_named(auth, &id_claims, &access_claims)
}

/// One record comes before another: it was added earlier, or has the smaller identifier.
pub open spec fn record_before(a: RecordV, b: RecordV) -> bool {
    a.added_at < b.added_at || (a.added_at == b.added_at && text_before(a.id, b.id))
}

/// A list with one more record, before the first one that comes after it.
pub open spec fn record_placed(list: Seq<RecordV>, r: RecordV) -> Seq<RecordV>
    decreases list.len(),
{
    if list.len() == 0 {
        seq![r]
    } else if record_before(r, list.last()) {
        record_placed(list.drop_last(), r).push(list.last())
    } else {
        list.push(r)
    }
}

/// The stored records in order.
pub open spec fn listing(files: Seq<(Seq<char>, RecordV)>) -> Seq<RecordV>
    decreases files.len(),
{
    if files.len() == 0 {
        Seq::empty()
    } else {
        record_placed(listing(files.drop_last()), files.last().1)
    }
}

fn place_record(list: &mut Vec<OfficialAccountRecord>, r: OfficialAccountRecord)
    ensures
        record_list(final(list)@) == record_placed(record_list(old(list)@), r@),
{
    let ghost all = record_list(list@);
    let mut i: usize = list.len();
    proof {
        assert(all.subrange(0, i as int) =~= all);
        assert(record_placed(all, r@) =~= record_placed(all, r@) + all.subrange(
            i as int,
            all.len() as int,
        ));
    }
    while i > 0 && (r.added_at < list[i - 1].added_at || (r.added_at == list[i - 1].added_at
        && comes_before(r.id.as_str(), list[i - 1].id.as_str())))
        invariant
            i <= list.len(),
            all == record_list(list@),
            *list == *old(list),
            record_placed(all, r@) == record_placed(all.subrange(0, i as int), r@) + all.subrange(
                i as int,
                all.len() as int,
            ),
        decreases i,
    {
        proof {
            let s = all.subrange(0, i as int);
            assert(s.drop_last() =~= all.subrange(0, i - 1));
            assert(s.last() == list@[i - 1]@);
            assert(record_placed(s, r@) + all.subrange(i as int, all.len() as int)
                =~= record_placed(all.subrange(0, i - 1), r@) + all.subrange(
                i - 1,
                all.len() as int,
            ));
        }
        i = i - 1;
    }
    proof {
        let s = all.subrange(0, i as int);
        if i > 0 {
            assert(s.last() == list@[i - 1]@);
        }
        assert(record_placed(s, r@) =~= s.push(r@));
    }
    list.insert(i, r);
    proof {
        assert(record_list(list@) =~= all.subrange(0, i as int).push(r@) + all.subrange(
            i as int,
            all.len() as int,
        ));
    }
}

/// No record of a list comes before an earlier one.
pub open spec fn records_in_order(list: Seq<RecordV>) -> bool {
    forall|i: int, j: int|
        0 <= i < j < list.len() ==> !record_before(#[trigger] list[j], #[trigger] list[i])
}

proof fn lemma_record_order(a: RecordV, b: RecordV, c: RecordV)
    ensures
        record_before(a, b) ==> !record_before(b, a),
        !record_before(b, a) && !record_before(c, b) ==> !record_before(c, a),
{
    text_order(a.id, b.id, c.id);
    text_order(b.id, c.id, a.id);
    text_order(c.id, a.id, b.id);
    text_order(a.id, c.id, b.id);
    text_order(b.id, a.id, c.id);
    text_order(c.id, b.id, a.id);
}

proof fn lemma_record_placed(list: Seq<RecordV>, r: RecordV)
    requires
        records_in_order(list),
    ensures
        records_in_order(record_placed(list, r)),
        forall|i: int|
            0 <= i < record_placed(list, r).len() ==> #[trigger] record_placed(list, r)[i] == r
                || list.contains(record_placed(list, r)[i]),
    decreases list.len(),
{
    let after = record_placed(list, r);
    if list.len() > 0 && record_before(r, list.last()) {
        let rest = list.drop_last();
        assert(records_in_order(rest)) by {
            assert forall|i: int, j: int| 0 <= i < j < rest.len() implies !record_before(
                #[trigger] rest[j],
                #[trigger] rest[i],
            ) by {
                assert(!record_before(list[j], list[i]));
            }
        }
        lemma_record_placed(rest, r);
        let inner = record_placed(rest, r);
        assert forall|i: int, j: int| 0 <= i < j < after.len() implies !record_before(
            #[trigger] after[j],
            #[trigger] after[i],
        ) by {
            if j < inner.len() {
                assert(!record_before(inner[j], inner[i]));
            } else {
                assert(after[i] == inner[i]);
                if inner[i] == r {
                    lemma_record_order(r, list.last(), r);
                } else {
                    let k = choose|k: int| 0 <= k < rest.len() && rest[k] == inner[i];
                    assert(!record_before(list[list.len() - 1], list[k]));
                }
            }
        }
        assert forall|i: int| 0 <= i < after.len() implies #[trigger] after[i] == r
            || list.contains(after[i]) by {
            if i < inner.len() {
                assert(after[i] == inner[i]);
                if inner[i] != r {
                    let k = choose|k: int| 0 <= k < rest.len() && rest[k] == inner[i];
                    assert(list[k] == inner[i]);
                }
            } else {
                assert(list[list.len() - 1] == after[i]);
            }
        }
    } else {
        assert(after =~= list.push(r));
        assert forall|i: int, j: int| 0 <= i < j < after.len() implies !record_before(
            #[trigger] after[j],
            #[trigger] after[i],
        ) by {
            if j < list.len() {
                assert(!record_before(list[j], list[i]));
            } else {
                if i < list.len() - 1 {
                    assert(!record_before(list[list.len() - 1], list[i]));
                }
                lemma_record_order(list[i], list.last(), r);
            }
        }
        assert forall|i: int| 0 <= i < after.len() implies #[trigger] after[i] == r
            || list.contains(after[i]) by {
            if i < list.len() {
                assert(list[i] == after[i]);
            }
        }
    }
}

/// Accounts are listed in the order in which they were added, and those added together by their
/// identifiers.
pub proof fn accounts_are_listed_in_order(files: Seq<(Seq<char>, RecordV)>)
    ensures
        records_in_order(listing(files)),
    decreases files.len(),
{
    if files.len() > 0 {
        accounts_are_listed_in_order(files.drop_last());
        lemma_record_placed(listing(files.drop_last()), files.last().1);
    }
}

/// What is shown of an account does not depend on its tokens: a login with others, refreshed at the
/// same time, is shown the same.
pub proof fn a_summary_carries_no_tokens(r: RecordV, tokens: JsonV, default_id: Option<Seq<char>>)
    requires
        r.auth.is_object(),
    ensures
        summary_of(RecordV { auth: r.auth.with("tokens"@, tokens), ..r }, default_id) == summary_of(
            r,
            default_id,
        ),
{
    reveal_strlit("tokens");
    reveal_strlit("last_refresh");
    assert("tokens"@.len() == 6);
    assert("last_refresh"@.len() == 12);
    with_then_get(r.auth, "tokens"@, tokens, "last_refresh"@);
}

/// Two accounts that are both shown as the default are one account.
pub proof fn one_account_is_the_default(a: RecordV, b: RecordV, default_id: Option<Seq<char>>)
    requires
        summary_of(a, default_id).is_default,
        summary_of(b, default_id).is_default,
    ensures
        a.id == b.id,
{
}

/// The first record with an identifier.
pub open spec fn record_with(list: Seq<RecordV>, id: Seq<char>) -> Option<RecordV>
    decreases list.len(),
{
    if list.len() == 0 {
        None
    } else if list[0].id == id {
        Some(list[0])
    } else {
        record_with(list.subrange(1, list.len() as int), id)
    }
}

/// The accounts as they are stored: a file for each, and which one is the default.
pub struct OfficialAccountStore {
    pub dir: String,
    /// The records by the names of their files.
    pub files: TextMap<OfficialAccountRecord>,
    pub default_id: Option<String>,
}

#[verifier::ext_equal]
pub struct StoreV {
    pub files: Seq<(Seq<char>, RecordV)>,
    pub default_id: Option<Seq<char>>,
}

impl View for OfficialAccountStore {
    type V = StoreV;

    open spec fn view(&self) -> StoreV {
        StoreV { files: self.files@, default_id: string_view(self.default_id) }
    }
}

impl StoreV {
    /// The default account, where one is set.
    pub open spec fn default_account_id(self) -> Option<Seq<char>> {
        match self.default_id {
            Some(id) => if trim(id).len() > 0 {
                Some(id)
            } else {
                None
            },
            None => None,
        }
    }

    pub open spec fn default_account(self) -> Option<RecordV> {
        match self.default_account_id() {
            Some(id) => record_with(listing(self.files), id),
            None => None,
        }
    }
}

/// Result of bringing the default account and the login of Codex in line at launch.
#[derive(Debug, Clone, PartialEq, Eq)]
pub enum LaunchLoginResolution {
    /// A default account exists and its login is where Codex reads it.
    Available { account_id: String },
    /// No default account; the official route cannot be used.
    Unavailable { reason: String },
}

#[verifier::ext_equal]
pub enum ResolutionV {
    Available(Seq<char>),
    Unavailable(Seq<char>),
}

impl View for LaunchLoginResolution {
    type V = ResolutionV;

    open spec fn view(&self) -> ResolutionV {
        match self {
            LaunchLoginResolution::Available { account_id } => ResolutionV::Available(account_id@),
            LaunchLoginResolution::Unavailable { reason } => ResolutionV::Unavailable(reason@),
        }
    }
}

/// What has to be written after the accounts changed.
#[derive(Debug)]
pub struct LaunchPlan {
    pub resolution: LaunchLoginResolution,
    /// The file of an account that changed.
    pub saved: Option<String>,
    /// Another account became the default.
    pub default_changed: bool,
    /// The login that Codex is to have.
    pub login: Option<Json>,
}

#[verifier::ext_equal]
pub struct LaunchV {
    pub resolution: ResolutionV,
    pub saved: Option<Seq<char>>,
    pub default_changed: bool,
    pub login: Option<JsonV>,
}

impl View for LaunchPlan {
    type V = LaunchV;

    open spec fn view(&self) -> LaunchV {
        LaunchV {
            resolution: self.resolution@,
            saved: string_view(self.saved),
            default_changed: self.default_changed,
            login: own_view(self.login),
        }
    }
}

/// The store after an account was written. The file that would be `default.json` is the default
/// record's: what is written there is no account, and it names no default.
pub open spec fn put_record(s: StoreV, stem: Seq<char>, r: RecordV) -> StoreV {
    if stem == "default"@ {
        StoreV { default_id: None, ..s }
    } else {
        StoreV { files: with_key(s.files, stem, r), ..s }
    }
}

/// The store after the file of an account was taken out. If it was the default, none is.
pub open spec fn taken_out(s: StoreV, id: Seq<char>, stem: Seq<char>) -> StoreV {
    if stem == "default"@ {
        StoreV { default_id: None, ..s }
    } else {
        StoreV {
            files: without_key(s.files, stem),
            default_id: if s.default_account_id() == Some(id) {
                None
            } else {
                s.default_id
            },
        }
    }
}

/// A login is newer than the one that is stored.
pub open spec fn is_newer(theirs: Option<Seq<char>>, mine: Option<Seq<char>>) -> bool {
    match (theirs, mine) {
        (Some(t), Some(m)) => !text_before(t, m),
        (Some(_), None) => true,
        _ => false,
    }
}

/// The default account's login as Codex has refreshed it, where it has.
pub open spec fn refreshed_record(
    s: StoreV,
    auth: Option<JsonV>,
    named: Option<Seq<char>>,
) -> Option<RecordV> {
    match (s.default_account(), auth) {
        (Some(r), Some(a)) => if chatgpt_login(a) && login_matches(r, a, named) && !same_document(
            a,
            r.auth,
        )
            && is_newer(a.get_str("last_refresh"@), r.auth.get_str("last_refresh"@)) {
            Some(RecordV { auth: a, ..r })
        } else {
            None
        },
        _ => None,
    }
}

/// The store after the default account took over the login that Codex has refreshed.
pub open spec fn synced(s: StoreV, auth: Option<JsonV>, named: Option<Seq<char>>) -> StoreV {
    match refreshed_record(s, auth, named) {
        Some(r) => put_record(s, sanitized(r.id), r),
        None => s,
    }
}

/// The store at launch, and what is to be written. `login` is what Codex is logged in as; it is
/// adopted where no account is stored.
pub open spec fn resolved(
    s: StoreV,
    auth: Option<JsonV>,
    named: Option<Seq<char>>,
    login: Result<Option<RecordV>, Seq<char>>,
    stem: Seq<char>,
) -> (StoreV, Result<LaunchV, Seq<char>>) {
    let s1 = synced(s, auth, named);
    let saved = match refreshed_record(s, auth, named) {
        Some(r) => Some(sanitized(r.id)),
        None => None,
    };
    let none = LaunchV {
        resolution: ResolutionV::Unavailable(
            "Codey 中没有设为默认的官方账号；请在线路设置中添加官方账号并设为默认"@,
        ),
        saved,
        default_changed: false,
        login: None,
    };
    match s1.default_account() {
        Some(r) => (
            s1,
            Ok(
                LaunchV {
                    resolution: ResolutionV::Available(r.id),
                    saved,
                    default_changed: false,
                    login: Some(r.auth),
                },
            ),
        ),
        None => if s1.files.len() > 0 {
            (s1, Ok(none))
        } else {
            match login {
                Err(e) => (s1, Err(e)),
                Ok(None) => (s1, Ok(none)),
                Ok(Some(r)) => (
                    StoreV { default_id: Some(r.id), ..put_record(s1, stem, r) },
                    Ok(
                        LaunchV {
                            resolution: ResolutionV::Available(r.id),
                            saved: Some(stem),
                            default_changed: true,
                            login: None,
                        },
                    ),
                ),
            }
        },
    }
}

pub open spec fn login_view(r: Result<Option<OfficialAccountRecord>, String>) -> Result<
    Option<RecordV>,
    Seq<char>,
> {
    match r {
        Ok(x) => Ok(record_view(x)),
        Err(e) => Err(e@),
    }
}

pub open spec fn launch_view(r: Result<LaunchPlan, String>) -> Result<LaunchV, Seq<char>> {
    match r {
        Ok(x) => Ok(x@),
        Err(e) => Err(e@),
    }
}

/// The login file of Codex as it was found.
#[derive(Debug)]
pub enum CodexAuthFile {
    Missing,
    Unreadable,
    Contents(Vec<u8>),
}

/// The login in the file, where it holds a document.
pub open spec fn auth_in(file: CodexAuthFile) -> Option<JsonV> {
    match file {
        CodexAuthFile::Contents(bytes) => match json_parsed(bytes@) {
            Ok(v) => Some(v),
            Err(_) => None,
        },
        _ => None,
    }
}

/// What Codex is logged in as: nothing where there is no login with an account.
pub open spec fn login_fits(
    r: Result<Option<RecordV>, Seq<char>>,
    path: Seq<char>,
    file: CodexAuthFile,
    added_at: u64,
) -> bool {
    match file {
        CodexAuthFile::Missing => r == Ok::<Option<RecordV>, Seq<char>>(None),
        CodexAuthFile::Unreadable => r == Err::<Option<RecordV>, Seq<char>>(
            "读取 Codex 登录信息失败："@ + path,
        ),
        CodexAuthFile::Contents(bytes) => match json_parsed(bytes@) {
            Err(_) => r == Err::<Option<RecordV>, Seq<char>>(
                "Codex 登录信息格式无效："@ + path,
            ),
            Ok(auth) => if !chatgpt_login(auth) {
                r == Ok::<Option<RecordV>, Seq<char>>(None)
            } else {
                match r {
                    Ok(Some(record)) => login_fault(auth) is None && record_fits(
                        record,
                        auth,
                        id_claims_of(auth),
                        access_claims_of(auth),
                        added_at,
                    ),
                    Ok(None) => false,
                    Err(e) => login_fault(auth) == Some(e),
                }
            },
        },
    }
}

/// Reads the login in the file, where it holds a document.
pub fn parse_codex_auth(file: &CodexAuthFile) -> (r: Option<Json>)
    ensures
        own_view(r) == auth_in(*file),
{
    match file {
        CodexAuthFile::Contents(bytes) => match parse_bytes(bytes.as_slice()) {
            Ok(v) => Some(v),
            Err(_) => None,
        },
        _ => None,
    }
}

/// What is to be written where Codex reads its login.
pub open spec fn login_write(auth: JsonV, file: CodexAuthFile) -> Result<
    Option<Seq<u8>>,
    Seq<char>,
> {
    match json_pretty(auth) {
        None => Err("序列化登录信息失败"@),
        Some(bytes) => if file matches CodexAuthFile::Contents(current) && current@ == bytes {
            Ok(None)
        } else {
            Ok(Some(bytes))
        },
    }
}

pub open spec fn written_view(r: Option<Vec<u8>>) -> Option<Seq<u8>> {
    match r {
        Some(bytes) => Some(bytes@),
        None => None,
    }
}

fn same_bytes(a: &Vec<u8>, b: &Vec<u8>) -> (r: bool)
    ensures
        r == (a@ == b@),
{
    if a.len() != b.len() {
        return false;
    }
    let mut i: usize = 0;
    while i < a.len()
        invariant
            i <= a.len() == b.len(),
            forall|j: int| 0 <= j < i ==> a@[j] == b@[j],
        decreases a.len() - i,
    {
        if a[i] != b[i] {
            return false;
        }
        i = i + 1;
    }
    proof {
        assert(a@ =~= b@);
    }
    true
}

impl OfficialAccountStore {
    /// No account stands in the file of the default record.
    pub open spec fn inv(&self) -> bool {
        self.files.inv() && lookup(self.files@, "default"@) is None
    }

    /// A store without accounts.
    pub fn new(dir: &str) -> (r: OfficialAccountStore)
        ensures
            r.inv(),
            r.dir@ == dir@,
            r@ == (StoreV { files: Seq::empty(), default_id: None }),
    {
        OfficialAccountStore { dir: dir.to_owned(), files: TextMap::new(), default_id: None }
    }

    /// The store beside a configuration file in this directory.
    pub fn for_config_path(parent: Option<&str>) -> (r: OfficialAccountStore)
        ensures
            r.inv(),
            r.dir@ == match parent {
                Some(p) => if p@.len() == 0 {
                    "official-accounts"@
                } else {
                    p@ + "/"@ + "official-accounts"@
                },
                None => "."@ + "/"@ + "official-accounts"@,
            },
            r@ == (StoreV { files: Seq::empty(), default_id: None }),
    {
        let front = match parent {
            Some(p) => p,
            None => ".",
        };
        proof {
            reveal_strlit(".");
        }
        if front.is_empty() {
            return OfficialAccountStore::new(ACCOUNTS_DIR_NAME);
        }
        OfficialAccountStore::new(cat3(front, "/", ACCOUNTS_DIR_NAME).as_str())
    }

    /// What Codex is logged in as, where that is an account.
    pub fn read_codex_login(path: &str, file: &CodexAuthFile, added_at: u64) -> (r: Result<
        Option<OfficialAccountRecord>,
        String,
    >)
        ensures
            login_fits(login_view(r), path@, *file, added_at),
    {
        let bytes = match file {
            CodexAuthFile::Missing => {
                return Ok(None);
            },
            CodexAuthFile::Unreadable => {
                return Err(cat2("读取 Codex 登录信息失败：", path));
            },
            CodexAuthFile::Contents(bytes) => bytes,
        };
        let auth = match parse_bytes(bytes.as_slice()) {
            Err(_) => {
                return Err(cat2("Codex 登录信息格式无效：", path));
            },
            Ok(v) => v,
        };
        if !auth_is_chatgpt_login(&auth) {
            return Ok(None);
        }
        match OfficialAccountRecord::from_auth(auth, added_at) {
            Ok(record) => Ok(Some(record)),
            Err(e) => Err(e),
        }
    }

    /// What is to be written where Codex reads its login: nothing where the account's login stands
    /// there already.
    pub fn write_codex_login(record: &OfficialAccountRecord, file: &CodexAuthFile) -> (r: Result<
        Option<Vec<u8>>,
        String,
    >)
        ensures
            match r {
                Ok(written) => login_write(record@.auth, *file) == Ok::<
                    Option<Seq<u8>>,
                    Seq<char>,
                >(written_view(written)),
                Err(e) => login_write(record@.auth, *file) == Err::<Option<Seq<u8>>, Seq<char>>(e@),
            },
    {
        match record.auth.to_pretty() {
            None => Err("序列化登录信息失败".to_owned()),
            Some(bytes) => {
                if let CodexAuthFile::Contents(current) = file {
                    if same_bytes(current, &bytes) {
                        return Ok(None);
                    }
                }
                Ok(Some(bytes))
            },
        }
    }

    /// Whether Codex's login is taken out along with an account: it is where it belongs to it.
    pub fn clear_codex_login_if_matches(
        file: &CodexAuthFile,
        record: &OfficialAccountRecord,
    ) -> (r: bool)
        ensures
            r == match auth_in(*file) {
                Some(auth) => login_matches(record@, auth, named_account(auth)),
                None => false,
            },
    {
        match parse_codex_auth(file) {
            Some(auth) => record.matches_auth(&auth),
            None => false,
        }
    }

    /// The file of an account.
    pub fn account_path(&self, stem: &str) -> (r: String)
        ensures
            r@ == self.dir@ + "/"@ + stem@ + ".json"@,
    {
        cat4(self.dir.as_str(), "/", stem, ".json")
    }

    /// The accounts, in the order in which they were added.
    pub fn list(&self) -> (r: Vec<OfficialAccountRecord>)
        requires
            self.inv(),
        ensures
            record_list(r@) == listing(self@.files),
    {
        let ghost all = self.files@;
        let mut out: Vec<OfficialAccountRecord> = Vec::new();
        let mut i: usize = 0;
        proof {
            assert(record_list(out@) =~= listing(all.subrange(0, 0)));
        }
        while i < self.files.len()
            invariant
                i <= all.len(),
                all == self.files@,
                record_list(out@) == listing(all.subrange(0, i as int)),
            decreases all.len() - i,
        {
            proof {
                assert(all.subrange(0, i + 1).drop_last() =~= all.subrange(0, i as int));
                assert(all.subrange(0, i + 1).last() == all[i as int]);
            }
            place_record(&mut out, self.files.value_at(i).copy());
            i = i + 1;
        }
        proof {
            assert(all.subrange(0, i as int) =~= all);
        }
        out
    }

    /// The account with an identifier.
    pub fn get(&self, id: &str) -> (r: Option<OfficialAccountRecord>)
        requires
            self.inv(),
        ensures
            record_view(r) == record_with(listing(self@.files), id@),
    {
        let records = self.list();
        let ghost all = record_list(records@);
        let mut i: usize = 0;
        proof {
            assert(all.subrange(0, all.len() as int) =~= all);
        }
        while i < records.len()
            invariant
                i <= records.len(),
                all == record_list(records@),
                all == listing(self@.files),
                record_with(all, id@) == record_with(
                    all.subrange(i as int, all.len() as int),
                    id@,
                ),
            decreases records.len() - i,
        {
            let ghost rest = all.subrange(i as int, all.len() as int);
            proof {
                assert(rest[0] == records@[i as int]@);
                assert(rest.subrange(1, rest.len() as int) =~= all.subrange(
                    i + 1,
                    all.len() as int,
                ));
            }
            if str_eq(records[i].id.as_str(), id) {
                return Some(records[i].copy());
            }
            i = i + 1;
        }
        None
    }

    /// The default account, where one is set.
    pub fn default_account_id(&self) -> (r: Option<String>)
        ensures
            string_view(r) == self@.default_account_id(),
    {
        match &self.default_id {
            Some(id) => if trimmed(id.as_str()).as_str().is_empty() {
                None
            } else {
                Some(id.clone())
            },
            None => None,
        }
    }

    pub fn default_account(&self) -> (r: Option<OfficialAccountRecord>)
        requires
            self.inv(),
        ensures
            record_view(r) == self@.default_account(),
    {
        match self.default_account_id() {
            Some(id) => self.get(id.as_str()),
            None => None,
        }
    }

    pub fn set_default_account_id(&mut self, id: Option<&str>)
        requires
            old(self).inv(),
        ensures
            final(self).inv(),
            final(self).dir == old(self).dir,
            final(self)@ == (StoreV { default_id: text_view(id), ..old(self)@ }),
    {
        self.default_id = owned(id);
    }

    /// Puts in an account, or replaces it. Says which file that is. An account whose file would be
    /// that of the default record is not kept, and leaves no default.
    pub fn upsert(&mut self, record: &OfficialAccountRecord) -> (stem: String)
        requires
            old(self).inv(),
        ensures
            final(self).inv(),
            final(self).dir == old(self).dir,
            stem_of(record@.id, stem@),
            final(self)@ == put_record(old(self)@, stem@, record@),
    {
        let stem = sanitize_id(record.id.as_str());
        if str_eq(stem.as_str(), "default") {
            self.default_id = None;
        } else {
            proof {
                set_then_look(self.files@, stem@, record@, "default"@);
            }
            self.files.insert(stem.as_str(), record.copy());
        }
        stem
    }

    /// Takes out an account. If it was the default, none is. Says which file that was.
    pub fn remove(&mut self, id: &str) -> (stem: String)
        requires
            old(self).inv(),
        ensures
            final(self).inv(),
            final(self).dir == old(self).dir,
            stem_of(id@, stem@),
            final(self)@ == taken_out(old(self)@, id@, stem@),
    {
        let stem = sanitize_id(id);
        if str_eq(stem.as_str(), "default") {
            self.default_id = None;
            return stem;
        }
        proof {
            remove_then_look(self.files@, stem@, "default"@);
        }
        let was_default = match self.default_account_id() {
            Some(default_id) => str_eq(default_id.as_str(), id),
            None => false,
        };
        let _ = self.files.remove(stem.as_str());
        if was_default {
            self.default_id = None;
        }
        stem
    }

    /// What is shown of the accounts.
    pub fn summaries(&self) -> (r: Vec<OfficialAccountSummary>)
        requires
            self.inv(),
        ensures
            r.len() == listing(self@.files).len(),
            forall|i: int|
                0 <= i < r.len() ==> (#[trigger] r@[i])@ == summary_of(
                    listing(self@.files)[i],
                    self@.default_account_id(),
                ),
    {
        let records = self.list();
        let default_id = self.default_account_id();
        let mut out: Vec<OfficialAccountSummary> = Vec::new();
        let mut i: usize = 0;
        proof {
            assert(record_list(records@).len() == records.len());
        }
        while i < records.len()
            invariant
                i <= records.len(),
                out.len() == i,
                record_list(records@) == listing(self@.files),
                string_view(default_id) == self@.default_account_id(),
                forall|j: int|
                    0 <= j < i ==> (#[trigger] out@[j])@ == summary_of(
                        listing(self@.files)[j],
                        self@.default_account_id(),
                    ),
            decreases records.len() - i,
        {
            proof {
                assert(record_list(records@)[i as int] == records@[i as int]@);
            }
            let summary = match &default_id {
                Some(id) => records[i].summary(Some(id.as_str())),
                None => records[i].summary(None),
            };
            out.push(summary);
            i = i + 1;
        }
        out
    }

    /// Takes over the login of the default account as Codex has refreshed it. Says which file
    /// changed.
    pub fn sync_default(&mut self, auth: &Option<Json>, named: Option<&str>) -> (saved: Option<
        String,
    >)
        requires
            old(self).inv(),
        ensures
            final(self).inv(),
            final(self).dir == old(self).dir,
            final(self)@ == synced(old(self)@, own_view(*auth), text_view(named)),
            string_view(saved) == match refreshed_record(
                old(self)@,
                own_view(*auth),
                text_view(named),
            ) {
                Some(r) => Some(sanitized(r.id)),
                None => None,
            },
    {
        let record = match self.default_account() {
            None => {
                return None;
            },
            Some(r) => r,
        };
        proof {
            lemma_found_has_id(listing(self@.files), self@.default_account_id()->0);
            lemma_trim_of_empty(record@.id);
        }
        let theirs = match auth {
            None => {
                return None;
            },
            Some(a) => a,
        };
        if !auth_is_chatgpt_login(theirs) || !record.matches_login(theirs, named) || theirs.same(
            &record.auth,
        ) {
            return None;
        }
        let newer = match (theirs.get_str("last_refresh"), record.last_refresh()) {
            (Some(t), Some(m)) => !comes_before(t, m.as_str()),
            (Some(_), None) => true,
            _ => false,
        };
        if !newer {
            return None;
        }
        let mut record = record;
        record.auth = theirs.clone_json();
        Some(self.upsert(&record))
    }

    /// Takes over the login of the default account as Codex has refreshed it.
    pub fn sync_default_from_codex_home(&mut self, auth: &Option<Json>) -> (saved: Option<String>)
        requires
            old(self).inv(),
        ensures
            final(self).inv(),
            final(self).dir == old(self).dir,
            final(self)@ == synced(old(self)@, own_view(*auth), login_names(own_view(*auth))),
            string_view(saved) == match refreshed_record(
                old(self)@,
                own_view(*auth),
                login_names(own_view(*auth)),
            ) {
                Some(r) => Some(sanitized(r.id)),
                None => None,
            },
    {
        let named = match auth {
            Some(a) => auth_account_id(a),
            None => None,
        };
        match &named {
            Some(id) => self.sync_default(auth, Some(id.as_str())),
            None => self.sync_default(auth, None),
        }
    }

    /// Brings the default account and the login of Codex in line, given what Codex is logged in as.
    pub fn resolve_with(
        &mut self,
        auth: &Option<Json>,
        named: Option<&str>,
        login: Result<Option<OfficialAccountRecord>, String>,
    ) -> (r: Result<LaunchPlan, String>)
        requires
            old(self).inv(),
        ensures
            final(self).inv(),
            final(self).dir == old(self).dir,
            exists|stem: Seq<char>|
                {
                    &&& (final(self)@, launch_view(r)) == #[trigger] resolved(
                        old(self)@,
                        own_view(*auth),
                        text_view(named),
                        login_view(login),
                        stem,
                    )
                    &&& (login matches Ok(Some(record)) ==> stem_of(record.id@, stem))
                },
    {
        let saved = self.sync_default(auth, named);
        if let Some(record) = self.default_account() {
            let account_id = record.id.clone();
            let r = LaunchPlan {
                resolution: LaunchLoginResolution::Available { account_id },
                saved,
                default_changed: false,
                login: Some(record.auth),
            };
            proof {
                let stem = lemma_some_stem(login);
                assert((self@, Ok::<LaunchV, Seq<char>>(r@)) == resolved(
                    old(self)@,
                    own_view(*auth),
                    text_view(named),
                    login_view(login),
                    stem,
                ));
            }
            return Ok(r);
        }
        let reason = "Codey 中没有设为默认的官方账号；请在线路设置中添加官方账号并设为默认".to_owned();
        if self.files.len() > 0 {
            let r = LaunchPlan {
                resolution: LaunchLoginResolution::Unavailable { reason },
                saved,
                default_changed: false,
                login: None,
            };
            proof {
                let stem = lemma_some_stem(login);
                assert((self@, Ok::<LaunchV, Seq<char>>(r@)) == resolved(
                    old(self)@,
                    own_view(*auth),
                    text_view(named),
                    login_view(login),
                    stem,
                ));
            }
            return Ok(r);
        }
        match login {
            Err(e) => {
                proof {
                    assert((self@, Err::<LaunchV, Seq<char>>(e@)) == resolved(
                        old(self)@,
                        own_view(*auth),
                        text_view(named),
                        login_view(login),
                        Seq::empty(),
                    ));
                }
                Err(e)
            },
            Ok(None) => {
                let r = LaunchPlan {
                    resolution: LaunchLoginResolution::Unavailable { reason },
                    saved,
                    default_changed: false,
                    login: None,
                };
                proof {
                    assert((self@, Ok::<LaunchV, Seq<char>>(r@)) == resolved(
                        old(self)@,
                        own_view(*auth),
                        text_view(named),
                        login_view(login),
                        Seq::empty(),
                    ));
                }
                Ok(r)
            },
            Ok(Some(record)) => {
                let stem = self.upsert(&record);
                self.set_default_account_id(Some(record.id.as_str()));
                let account_id = record.id.clone();
                let ghost place = stem@;
                let r = LaunchPlan {
                    resolution: LaunchLoginResolution::Available { account_id },
                    saved: Some(stem),
                    default_changed: true,
                    login: None,
                };
                proof {
                    assert((self@, Ok::<LaunchV, Seq<char>>(r@)) == resolved(
                        old(self)@,
                        own_view(*auth),
                        text_view(named),
                        login_view(login),
                        place,
                    ));
                }
                Ok(r)
            },
        }
    }

    /// Brings the default account and the login of Codex in line. With no account stored, a login
    /// that Codex has is adopted as the first.
    pub fn resolve_launch_login(&mut self, path: &str, file: &CodexAuthFile, now: u64) -> (r: Result<
        LaunchPlan,
        String,
    >)
        requires
            old(self).inv(),
        ensures
            final(self).inv(),
            final(self).dir == old(self).dir,
            exists|login: Result<Option<RecordV>, Seq<char>>, stem: Seq<char>|
                {
                    &&& login_fits(login, path@, *file, now)
                    &&& (final(self)@, launch_view(r)) == #[trigger] resolved(
                        old(self)@,
                        auth_in(*file),
                        login_names(auth_in(*file)),
                        login,
                        stem,
                    )
                    &&& (login matches Ok(Some(record)) ==> stem_of(record.id, stem))
                },
    {
        let auth = parse_codex_auth(file);
        let login = OfficialAccountStore::read_codex_login(path, file, now);
        let named = match &auth {
            Some(a) => auth_account_id(a),
            None => None,
        };
        match &named {
            Some(id) => self.resolve_with(&auth, Some(id.as_str()), login),
            None => self.resolve_with(&auth, None, login),
        }
    }
}

/// The account that a login names, where there is a login.
pub open spec fn login_names(auth: Option<JsonV>) -> Option<Seq<char>> {
    match auth {
        Some(a) => named_account(a),
        None => None,
    }
}

proof fn lemma_some_stem(login: Result<Option<OfficialAccountRecord>, String>) -> (stem: Seq<char>)
    ensures
        login matches Ok(Some(record)) ==> stem_of(record.id@, stem),
{
    match login {
        Ok(Some(record)) => {
            if record.id@.len() == 0 {
                let bytes = Seq::new(
                    16,
                    |i: int|
                        if i == 6 {
                            64u8
                        } else {
                            128u8
                        },
                );
                let stem = "account-"@ + hyphenated(bytes);
                assert(has_form(stem, "account-"@));
                stem
            } else {
                sanitized(record.id@)
            }
        },
        _ => Seq::empty(),
    }
}

proof fn lemma_found_has_id(list: Seq<RecordV>, id: Seq<char>)
    ensures
        record_with(list, id) matches Some(r) ==> r.id == id,
    decreases list.len(),
{
    if list.len() > 0 && list[0].id != id {
        lemma_found_has_id(list.subrange(1, list.len() as int), id);
    }
}

proof fn lemma_trim_of_empty(s: Seq<char>)
    ensures
        s.len() == 0 ==> trim(s).len() == 0,
{
    if s.len() == 0 {
        trim_of_clean(s);
    }
}

/// The request that refreshes a login of some age, where it is due and can be made.
pub open spec fn due_request(
    age: Option<u64>,
    token: Option<Seq<char>>,
    client_id: Seq<char>,
) -> Option<JsonV> {
    if age matches Some(a) && a < 21_600 {
        None
    } else {
        match token {
            None => None,
            Some(token) => Some(
                JsonV::obj().with("client_id"@, JsonV::Str(client_id)).with(
                    "grant_type"@,
                    JsonV::Str("refresh_token"@),
                ).with("refresh_token"@, JsonV::Str(token)).with(
                    "scope"@,
                    JsonV::Str("openid profile email"@),
                ),
            ),
        }
    }
}

/// The request that refreshes a login of some age, where it is due and can be made.
pub fn request_for_age(age: Option<u64>, token: Option<String>, client_id: &str) -> (r: Option<Json>)
    ensures
        own_view(r) == due_request(age, string_view(token), client_id@),
{
    if let Some(age) = age {
        if age < REFRESH_BEFORE_ACTIVATE_AGE {
            return None;
        }
    }
    match token {
        None => None,
        Some(token) => Some(
            Json::obj().with("client_id", Json::str(client_id)).with(
                "grant_type",
                Json::str("refresh_token"),
            ).with("refresh_token", Json::string(token)).with(
                "scope",
                Json::str("openid profile email"),
            ),
        ),
    }
}

/// The refresh that an account's login is due: the request that is sent, where it is.
pub open spec fn refresh_request(auth: JsonV, client_id: Seq<char>, now: u64) -> Option<JsonV> {
    due_request(refresh_age(auth, now), refresh_token_of(auth), client_id)
}

/// The refresh that an account's login is due.
pub fn refresh_if_stale(record: &OfficialAccountRecord, client_id: &str, now: u64) -> (r: Option<
    Json,
>)
    ensures
        own_view(r) == refresh_request(record@.auth, client_id@, now),
{
    request_for_age(record.last_refresh_age(now), record.refresh_token(), client_id)
}

/// A token in an answer, where there is anything in it.
pub open spec fn answered_token(payload: JsonV) -> Option<Seq<char>> {
    match payload.get_str("access_token"@) {
        Some(token) => if trim(token).len() > 0 {
            Some(token)
        } else {
            None
        },
        None => None,
    }
}

fn token_in_answer(payload: &Json) -> (r: Option<&str>)
    ensures
        text_view(r) == answered_token(payload@),
{
    match payload.get_str("access_token") {
        Some(token) => if trimmed(token).as_str().is_empty() {
            None
        } else {
            Some(token)
        },
        None => None,
    }
}

/// A member copied from an answer, where it is a text.
pub open spec fn with_answer(tokens: JsonV, payload: JsonV, key: Seq<char>) -> JsonV {
    match payload.get_str(key) {
        Some(token) => tokens.with(key, JsonV::Str(token)),
        None => tokens,
    }
}

/// A login with the tokens of an answer.
pub open spec fn refreshed_login(auth: JsonV, payload: JsonV, stamp: Seq<char>) -> Result<
    JsonV,
    Seq<char>,
> {
    let tokens = match auth.get("tokens"@) {
        Some(t) => t,
        None => JsonV::obj(),
    };
    match answered_token(payload) {
        None => Err("令牌响应缺少 access_token"@),
        Some(token) => if !auth.is_object() {
            Err("账号登录信息格式无效"@)
        } else if !tokens.is_object() {
            Err("账号 tokens 格式无效"@)
        } else {
            Ok(
                auth.with(
                    "tokens"@,
                    with_answer(
                        with_answer(
                            tokens.with("access_token"@, JsonV::Str(token)),
                            payload,
                            "id_token"@,
                        ),
                        payload,
                        "refresh_token"@,
                    ),
                ).with("last_refresh"@, JsonV::Str(stamp)),
            )
        },
    }
}

fn copy_answer(tokens: &mut Json, payload: &Json, key: &str)
    ensures
        final(tokens)@ == with_answer(old(tokens)@, payload@, key@),
{
    if let Some(token) = payload.get_str(key) {
        tokens.insert(key, Json::str(token));
    }
}

fn time_text(now: i64) -> (r: String)
    requires
        0 <= now <= LAST_WRITTEN_MILLIS,
    ensures
        rfc3339_text(now) == Some(r@),
        rfc3339_seconds(r@) == Some((now as int / 1000) as i64),
{
    match write_rfc3339(now) {
        Some(text) => text,
        None => String::new(),
    }
}

/// Takes over the tokens of an answer. `now` is the time in milliseconds.
pub fn apply_token_response(record: &mut OfficialAccountRecord, payload: &Json, now: i64) -> (r:
    Result<(), String>)
    requires
        0 <= now <= LAST_WRITTEN_MILLIS,
    ensures
        ({
            let goal = refreshed_login(old(record)@.auth, payload@, rfc3339_text(now)->0);
            match r {
                Ok(_) => goal == Ok::<JsonV, Seq<char>>(final(record)@.auth) && final(record)@ == (
                RecordV { auth: final(record)@.auth, ..old(record)@ }),
                Err(e) => goal == Err::<JsonV, Seq<char>>(e@) && final(record)@ == old(record)@,
            }
        }),
        r is Ok ==> refresh_age(final(record)@.auth, (now as int / 1000) as u64) == Some(0u64),
{
    let token = match token_in_answer(payload) {
        None => {
            return Err("令牌响应缺少 access_token".to_owned());
        },
        Some(t) => t,
    };
    if !record.auth.is_object() {
        return Err("账号登录信息格式无效".to_owned());
    }
    let mut tokens = match record.auth.get("tokens") {
        Some(t) => t.clone_json(),
        None => Json::obj(),
    };
    if !tokens.is_object() {
        return Err("账号 tokens 格式无效".to_owned());
    }
    tokens.insert("access_token", Json::str(token));
    copy_answer(&mut tokens, payload, "id_token");
    copy_answer(&mut tokens, payload, "refresh_token");
    let stamp = time_text(now);
    proof {
        with_then_get(
            record.auth@.with("tokens"@, tokens@),
            "last_refresh"@,
            JsonV::Str(stamp@),
            "last_refresh"@,
        );
    }
    record.auth.insert("tokens", tokens);
    record.auth.insert("last_refresh", Json::string(stamp));
    Ok(())
}

/// The login that the answer to a login makes.
pub open spec fn answered_login(payload: JsonV, token: Seq<char>, stamp: Seq<char>) -> JsonV {
    JsonV::obj().with("OPENAI_API_KEY"@, JsonV::Null).with(
        "auth_mode"@,
        JsonV::Str("chatgpt"@),
    ).with(
        "tokens"@,
        JsonV::obj().with("id_token"@, JsonV::Str(payload.str_or_empty("id_token"@))).with(
            "access_token"@,
            JsonV::Str(token),
        ).with("refresh_token"@, JsonV::Str(payload.str_or_empty("refresh_token"@))),
    ).with("last_refresh"@, JsonV::Str(stamp))
}

/// The account that the answer to a login makes. `now` is the time in milliseconds.
pub fn record_from_token_response(payload: &Json, now: i64) -> (r: Result<
    OfficialAccountRecord,
    String,
>)
    requires
        0 <= now <= LAST_WRITTEN_MILLIS,
    ensures
        match answered_token(payload@) {
            None => r matches Err(e) && e@ == "令牌响应缺少 access_token"@,
            Some(token) => {
                let auth = answered_login(payload@, token, rfc3339_text(now)->0);
                match r {
                    Ok(record) => login_fault(auth) is None && record_fits(
                        record@,
                        auth,
                        id_claims_of(auth),
                        access_claims_of(auth),
                        (now as int / 1000) as u64,
                    ),
                    Err(e) => login_fault(auth) == Some(e@),
                }
            },
        },
{
    let token = match token_in_answer(payload) {
        None => {
            return Err("令牌响应缺少 access_token".to_owned());
        },
        Some(t) => t,
    };
    let tokens = Json::obj().with("id_token", Json::string(payload.str_or_empty("id_token"))).with(
        "access_token",
        Json::str(token),
    ).with("refresh_token", Json::string(payload.str_or_empty("refresh_token")));
    let auth = Json::obj().with("OPENAI_API_KEY", Json::null()).with(
        "auth_mode",
        Json::str("chatgpt"),
    ).with("tokens", tokens).with("last_refresh", Json::string(time_text(now)));
    OfficialAccountRecord::from_auth(auth, (now / 1000) as u64)
}

/// A login that was just refreshed is not refreshed again.
pub proof fn a_fresh_login_is_not_stale(auth: JsonV, client_id: Seq<char>, now: u64)
    requires
        refresh_age(auth, now) == Some(0u64),
    ensures
        refresh_request(auth, client_id, now) is None,
{
}

/// An account that was taken out is not the default, and its file is gone.
pub proof fn a_removed_account_is_gone(s: StoreV, id: Seq<char>)
    requires
        id.len() > 0,
        lookup(s.files, "default"@) is None,
    ensures
        ({
            let after = taken_out(s, id, sanitized(id));
            lookup(after.files, sanitized(id)) is None && after.default_account_id() != Some(id)
        }),
{
    remove_then_look(s.files, sanitized(id), sanitized(id));
}

/// An account whose file would be that of the default record is never listed: the other accounts
/// stay as they were, and none is the default.
pub proof fn the_default_record_is_no_account(s: StoreV, r: RecordV)
    ensures
        put_record(s, "default"@, r).files == s.files,
        put_record(s, "default"@, r).default_account_id() is None,
{
}

/// A login of another account never reaches the store.
pub proof fn a_foreign_login_is_left_alone(s: StoreV, auth: JsonV, named: Option<Seq<char>>)
    requires
        s.default_account() matches Some(r) ==> !login_matches(r, auth, named),
    ensures
        synced(s, Some(auth), named) == s,
{
}

/// A login that Codex has is adopted only where no account is stored.
pub proof fn adoption_needs_an_empty_store(
    s: StoreV,
    auth: Option<JsonV>,
    named: Option<Seq<char>>,
    login: Result<Option<RecordV>, Seq<char>>,
    stem: Seq<char>,
)
    requires
        resolved(s, auth, named, login, stem).1 matches Ok(plan) && plan.default_changed,
    ensures
        s.files.len() == 0,
{
}

proof fn lemma_placed_holds(list: Seq<RecordV>, r: RecordV, x: RecordV)
    ensures
        record_placed(list, r).len() == list.len() + 1,
        record_placed(list, r).contains(x) <==> list.contains(x) || x == r,
    decreases list.len(),
{
    let after = record_placed(list, r);
    if list.len() == 0 {
        assert(after[0] == r);
    } else if record_before(r, list.last()) {
        let rest = list.drop_last();
        lemma_placed_holds(rest, r, x);
        let inner = record_placed(rest, r);
        if inner.contains(x) {
            let i = choose|i: int| 0 <= i < inner.len() && inner[i] == x;
            assert(after[i] == x);
        }
        assert(after[inner.len() as int] == list.last());
        assert(list[rest.len() as int] == list.last());
        if rest.contains(x) {
            let i = choose|i: int| 0 <= i < rest.len() && rest[i] == x;
            assert(list[i] == x);
        }
        if list.contains(x) {
            let i = choose|i: int| 0 <= i < list.len() && list[i] == x;
            if i < rest.len() {
                assert(rest[i] == x);
            }
        }
        if after.contains(x) {
            let i = choose|i: int| 0 <= i < after.len() && after[i] == x;
            if i < inner.len() {
                assert(inner[i] == x);
            }
        }
    } else {
        assert(after[list.len() as int] == r);
        if list.contains(x) {
            let i = choose|i: int| 0 <= i < list.len() && list[i] == x;
            assert(after[i] == x);
        }
    }
}

/// Every account that is stored is listed, and nothing else is.
pub proof fn every_stored_account_is_listed(files: Seq<(Seq<char>, RecordV)>, r: RecordV)
    ensures
        listing(files).len() == files.len(),
        listing(files).contains(r) <==> exists|i: int|
            0 <= i < files.len() && (#[trigger] files[i]).1 == r,
    decreases files.len(),
{
    if files.len() > 0 {
        let rest = files.drop_last();
        every_stored_account_is_listed(rest, r);
        lemma_placed_holds(listing(rest), files.last().1, r);
        if exists|i: int| 0 <= i < rest.len() && (#[trigger] rest[i]).1 == r {
            let i = choose|i: int| 0 <= i < rest.len() && (#[trigger] rest[i]).1 == r;
            assert(files[i].1 == r);
        }
        if exists|i: int| 0 <= i < files.len() && (#[trigger] files[i]).1 == r {
            let i = choose|i: int| 0 <= i < files.len() && (#[trigger] files[i]).1 == r;
            if i < rest.len() {
                assert(rest[i].1 == r);
            }
        }
        assert(files[files.len() - 1] == files.last());
    }
}

/// An account that was stored is there afterwards, as it was stored, and every other one stays.
pub proof fn a_stored_account_is_there(
    s: StoreV,
    stem: Seq<char>,
    r: RecordV,
    other: Seq<char>,
)
    requires
        stem != "default"@,
        distinct(s.files),
    ensures
        ({
            let after = put_record(s, stem, r);
            &&& lookup(after.files, stem) == Some(r)
            &&& listing(after.files).contains(r)
            &&& other != stem ==> lookup(after.files, other) == lookup(s.files, other)
            &&& after.default_id == s.default_id
        }),
{
    let after = put_record(s, stem, r);
    set_then_look(s.files, stem, r, stem);
    set_then_look(s.files, stem, r, other);
    distinct_after_set(s.files, stem, r);
    lookup_place(after.files, stem);
    let i = choose|i: int| 0 <= i < after.files.len() && (#[trigger] after.files[i]).0 == stem;
    lookup_at(after.files, i);
    assert(after.files[i].1 == r);
    every_stored_account_is_listed(after.files, r);
}

/// A login is due for a refresh once it is six hours old, or does not tell its age, and then it is
/// refreshed with its own token.
pub proof fn an_old_login_is_refreshed(
    auth: JsonV,
    client_id: Seq<char>,
    now: u64,
    stamp: Seq<char>,
    then: i64,
    token: Seq<char>,
)
    requires
        auth.get("last_refresh"@) == Some(JsonV::Str(stamp)),
        rfc3339_seconds(stamp) == Some(then),
        then >= 0,
        auth.get2("tokens"@, "refresh_token"@) == Some(JsonV::Str(token)),
        trim(token).len() > 0,
    ensures
        refresh_request(auth, client_id, now) is Some <==> now - then >= 21_600,
        refresh_request(auth, client_id, now) matches Some(request) ==> request.get(
            "refresh_token"@,
        ) == Some(JsonV::Str(trim(token))) && request.get("client_id"@) == Some(
            JsonV::Str(client_id),
        ) && request.get("grant_type"@) == Some(JsonV::Str("refresh_token"@)),
{
    reveal_strlit("client_id");
    reveal_strlit("grant_type");
    reveal_strlit("refresh_token");
    reveal_strlit("scope");
    assert("client_id"@.len() == 9 && "grant_type"@.len() == 10 && "refresh_token"@.len() == 13
        && "scope"@.len() == 5);
}

/// Without a token a login is not refreshed.
pub proof fn a_login_without_a_token_is_not_refreshed(auth: JsonV, client_id: Seq<char>, now: u64)
    requires
        auth.get2("tokens"@, "refresh_token"@) is None,
    ensures
        refresh_request(auth, client_id, now) is None,
{
}

/// A refreshed login has the tokens of the answer: the new access token always, the others where the
/// answer brings them; what the answer does not bring stays as it was.
pub proof fn a_refreshed_login_has_the_new_tokens(
    auth: JsonV,
    payload: JsonV,
    stamp: Seq<char>,
    key: Seq<char>,
)
    requires
        refreshed_login(auth, payload, stamp) is Ok,
    ensures
        ({
            let after = refreshed_login(auth, payload, stamp)->Ok_0;
            let brought = payload.get(key) is Some && payload.get(key)->0 is Str && (key
                == "access_token"@ || key == "id_token"@ || key == "refresh_token"@);
            &&& brought ==> after.get2("tokens"@, key) == payload.get(key)
            &&& !brought ==> after.get2("tokens"@, key) == auth.get2("tokens"@, key)
            &&& payload.get("access_token"@) is Some && payload.get("access_token"@)->0 is Str
            &&& after.get("last_refresh"@) == Some(JsonV::Str(stamp))
            &&& key != "tokens"@ && key != "last_refresh"@ ==> after.get(key) == auth.get(key)
        }),
{
    reveal_strlit("access_token");
    reveal_strlit("id_token");
    reveal_strlit("refresh_token");
    reveal_strlit("tokens");
    reveal_strlit("last_refresh");
    assert("access_token"@.len() == 12 && "id_token"@.len() == 8 && "refresh_token"@.len() == 13
        && "tokens"@.len() == 6 && "last_refresh"@.len() == 12);
}

/// An answer without an access token refreshes nothing.
pub proof fn an_answer_needs_an_access_token(auth: JsonV, payload: JsonV, stamp: Seq<char>)
    ensures
        refreshed_login(auth, payload, stamp) is Ok <==> auth is Object && (auth.get("tokens"@) is None
            || auth.get("tokens"@)->0 is Object) && payload.get("access_token"@) is Some && (
        payload.get("access_token"@)->0 matches JsonV::Str(token) && trim(token).len() > 0),
{
}

/// A login that Codex has refreshed for the default account is taken over, where it is not older than
/// the stored one; no other account changes, and the default stays.
pub proof fn a_refreshed_login_is_taken_over(
    s: StoreV,
    auth: JsonV,
    named: Option<Seq<char>>,
    r: RecordV,
    mine: Seq<char>,
    theirs: Seq<char>,
    other: Seq<char>,
)
    requires
        s.default_account() == Some(r),
        sanitized(r.id) != "default"@,
        chatgpt_login(auth),
        login_matches(r, auth, named),
        !same_document(auth, r.auth),
        r.auth.get("last_refresh"@) == Some(JsonV::Str(mine)),
        auth.get("last_refresh"@) == Some(JsonV::Str(theirs)),
    ensures
        ({
            let after = synced(s, Some(auth), named);
            &&& !text_before(theirs, mine) ==> lookup(after.files, sanitized(r.id)) == Some(
                RecordV { auth, ..r },
            )
            &&& text_before(theirs, mine) ==> after == s
            &&& other != sanitized(r.id) ==> lookup(after.files, other) == lookup(s.files, other)
            &&& after.default_id == s.default_id
        }),
{
    let next = RecordV { auth, ..r };
    set_then_look(s.files, sanitized(r.id), next, sanitized(r.id));
    set_then_look(s.files, sanitized(r.id), next, other);
}

/// Without a login of Codex the accounts stay as they are.
pub proof fn without_a_login_nothing_is_taken_over(s: StoreV, named: Option<Seq<char>>)
    ensures
        synced(s, None, named) == s,
{
}

/// What a member says, without white space around it.
pub open spec fn told_by(value: Option<JsonV>) -> Seq<char> {
    match value {
        Some(JsonV::Str(s)) => trim(s),
        _ => Seq::empty(),
    }
}

/// A login's account is told by its tokens; where they do not tell it, by the claims of the token that
/// names the user, under the provider's heading before any other; and last by those of the other
/// token. The address and the plan are told by the claims alone.
pub proof fn an_account_is_told_by_the_first_that_knows(
    auth: JsonV,
    user: JsonV,
    access: JsonV,
)
    ensures
        ({
            let heading = "https://api.openai.com/auth"@;
            let own = told_by(auth.get2("tokens"@, "account_id"@));
            let under = told_by(user.get2(heading, "chatgpt_account_id"@));
            let plain = told_by(user.get("chatgpt_account_id"@));
            let last = told_by(access.get2(heading, "chatgpt_account_id"@));
            let account = login_account(auth, Some(user), Some(access));
            let email = login_email(Some(user), Some(access));
            let plan = login_plan(Some(user), Some(access));
            &&& own.len() > 0 ==> account == Some(own)
            &&& own.len() == 0 && under.len() > 0 ==> account == Some(under)
            &&& own.len() == 0 && under.len() == 0 && plain.len() > 0 ==> account == Some(plain)
            &&& own.len() == 0 && under.len() == 0 && plain.len() == 0 && last.len() > 0
                ==> account == Some(last)
            &&& told_by(user.get("email"@)).len() > 0 ==> email == Some(told_by(user.get("email"@)))
            &&& told_by(user.get("email"@)).len() == 0 && told_by(access.get("email"@)).len() > 0
                ==> email == Some(told_by(access.get("email"@)))
            &&& told_by(user.get2(heading, "chatgpt_plan_type"@)).len() > 0 ==> plan == Some(
                told_by(user.get2(heading, "chatgpt_plan_type"@)),
            )
            &&& told_by(user.get2(heading, "chatgpt_plan_type"@)).len() == 0 && told_by(
                access.get2(heading, "chatgpt_plan_type"@),
            ).len() > 0 ==> plan == Some(told_by(access.get2(heading, "chatgpt_plan_type"@)))
        }),
{
}

/// A login is stored as it is, with its mode, and with its account where its tokens do not name one.
pub proof fn a_login_is_stored_as_it_is(auth: JsonV, account_id: Option<Seq<char>>, key: Seq<char>)
    requires
        auth is Object,
        auth.get("tokens"@) is Some && auth.get("tokens"@)->0 is Object,
    ensures
        ({
            let stored = stored_login(auth, account_id);
            let named = auth.get2("tokens"@, "account_id"@) is Some;
            &&& stored.get("auth_mode"@) == Some(JsonV::Str("chatgpt"@))
            &&& key != "auth_mode"@ && key != "tokens"@ ==> stored.get(key) == auth.get(key)
            &&& key != "account_id"@ ==> stored.get2("tokens"@, key) == auth.get2("tokens"@, key)
            &&& named || account_id is None ==> stored.get2("tokens"@, "account_id"@) == auth.get2(
                "tokens"@,
                "account_id"@,
            )
            &&& !named && account_id is Some ==> stored.get2("tokens"@, "account_id"@) == Some(
                JsonV::Str(account_id->0),
            )
        }),
{
    reveal_strlit("auth_mode");
    reveal_strlit("tokens");
    assert("auth_mode"@.len() == 9 && "tokens"@.len() == 6);
}

/// At launch the default account is the one that is used, with its own login; where none is set, the
/// official route is not used, unless no account is stored at all and Codex has a login: that becomes
/// the default account.
pub proof fn the_default_account_is_launched(
    s: StoreV,
    auth: Option<JsonV>,
    named: Option<Seq<char>>,
    login: Option<RecordV>,
    stem: Seq<char>,
)
    requires
        stem != "default"@,
    ensures
        ({
            let before = synced(s, auth, named);
            let (after, r) = resolved(s, auth, named, Ok(login), stem);
            let plan = r->Ok_0;
            let chosen = before.default_account();
            &&& r is Ok
            &&& chosen is Some ==> plan.resolution == ResolutionV::Available((chosen->0).id)
                && plan.login == Some((chosen->0).auth) && after == before
            &&& chosen is None && (before.files.len() > 0 || login is None) ==> (
            plan.resolution matches ResolutionV::Unavailable(_)) && plan.login is None && after
                == before
            &&& chosen is None && before.files.len() == 0 && login is Some ==> plan.resolution
                == ResolutionV::Available((login->0).id) && after.default_id == Some((login->0).id)
                && lookup(after.files, stem) == login
        }),
{
    let before = synced(s, auth, named);
    if let Some(r) = login {
        set_then_look(before.files, stem, r, stem);
    }
}

/// A new login holds the tokens of the answer and says that it is one with an account.
pub proof fn a_new_login_has_the_answers_tokens(
    payload: JsonV,
    token: Seq<char>,
    stamp: Seq<char>,
    key: Seq<char>,
)
    requires
        key == "id_token"@ || key == "refresh_token"@,
    ensures
        ({
            let login = answered_login(payload, token, stamp);
            &&& login.get2("tokens"@, "access_token"@) == Some(JsonV::Str(token))
            &&& login.get2("tokens"@, key) == Some(
                match payload.get(key) {
                    Some(JsonV::Str(s)) => JsonV::Str(s),
                    _ => JsonV::Str(Seq::empty()),
                },
            )
            &&& login.get("auth_mode"@) == Some(JsonV::Str("chatgpt"@))
            &&& login.get("last_refresh"@) == Some(JsonV::Str(stamp))
            &&& trim(token).len() > 0 ==> chatgpt_login(login)
        }),
{
    reveal_strlit("OPENAI_API_KEY");
    reveal_strlit("auth_mode");
    reveal_strlit("tokens");
    reveal_strlit("last_refresh");
    reveal_strlit("id_token");
    reveal_strlit("access_token");
    reveal_strlit("refresh_token");
    assert("OPENAI_API_KEY"@.len() == 14 && "auth_mode"@.len() == 9 && "tokens"@.len() == 6
        && "last_refresh"@.len() == 12 && "id_token"@.len() == 8 && "access_token"@.len() == 12
        && "refresh_token"@.len() == 13);
}

} // verus!
