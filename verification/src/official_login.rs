//! Logging in with an official account.
use crate::digest::{add_all, sha256, sha256_of};
use crate::encoding::{base64_url, encode_url};
use crate::ids::random_uuid;
use crate::json::{Json, JsonV, json_parsed, parse_bytes, string_view};
use crate::official_accounts::{OfficialAccountRecord, RecordV};
use crate::text::{
    Sep, byte_len, cat2, cat3, cat4, cat5, chars_of, decimal_text, digits, head, pairs_view,
    replaced, split, split_text, split_words, str_eq, strip_prefix, stripped_prefix, text_byte_len,
    text_of, texts, texts_push, with_replaced, words,
};
use crate::textmap::{TextMap, lemma_without_at, lookup, with_key, without_key};
use crate::urls::{add_pairs, parse_url, url_parsed, url_with_pairs};
use vstd::prelude::*;
use vstd::string::*;
use vstd::utf8::*;

verus! {

pub const OAUTH_CLIENT_ID: &'static str = "app_EMoamEEZ73f0CkXaXp7hrann";

pub const OAUTH_AUTHORIZE_URL: &'static str = "https://auth.openai.com/oauth/authorize";

pub const OAUTH_TOKEN_URL: &'static str = "https://auth.openai.com/oauth/token";

pub const OAUTH_REDIRECT_URI: &'static str = "http://localhost:1455/auth/callback";

pub const OAUTH_CALLBACK_PORT: u16 = 1455;

pub const OAUTH_SCOPE: &'static str = "openid profile email offline_access";

/// Milliseconds after which a login is given up.
pub const LOGIN_TIMEOUT: u64 = 600_000;

pub const MAX_CALLBACK_REQUEST_BYTES: usize = 16_384;

/// How far a login has come.
#[derive(Debug)]
pub enum LoginPhase {
    Waiting,
    Completed(OfficialAccountRecord),
    Failed(String),
}

#[verifier::ext_equal]
pub enum PhaseV {
    Waiting,
    Completed(RecordV),
    Failed(Seq<char>),
}

impl View for LoginPhase {
    type V = PhaseV;

    open spec fn view(&self) -> PhaseV {
        match self {
            LoginPhase::Waiting => PhaseV::Waiting,
            LoginPhase::Completed(record) => PhaseV::Completed(record@),
            LoginPhase::Failed(words) => PhaseV::Failed(words@),
        }
    }
}

/// What waiting for a login came to.
#[derive(Debug)]
pub enum LoginOutcome {
    /// The account that logged in.
    Account(OfficialAccountRecord),
    /// What went wrong.
    Error(String),
    /// Nobody logged in before the time was up.
    TimedOut,
}

/// How far a login has come with its outcome.
pub open spec fn phase_after(outcome: LoginOutcome) -> PhaseV {
    match outcome {
        LoginOutcome::Account(record) => PhaseV::Completed(record@),
        LoginOutcome::Error(words) => PhaseV::Failed(words@),
        LoginOutcome::TimedOut => PhaseV::Failed("登录等待超时，请重新开始添加账号"@),
    }
}

/// How far a login has come with its outcome.
pub fn login_phase(outcome: LoginOutcome) -> (r: LoginPhase)
    ensures
        r@ == phase_after(outcome),
{
    match outcome {
        LoginOutcome::Account(record) => LoginPhase::Completed(record),
        LoginOutcome::Error(words) => LoginPhase::Failed(words),
        LoginOutcome::TimedOut => LoginPhase::Failed("登录等待超时，请重新开始添加账号".to_owned()),
    }
}

/// A login that was begun.
#[derive(Debug)]
pub struct LoginSession {
    /// The page to open.
    pub auth_url: String,
    /// When it was begun, in milliseconds.
    pub created_at: u64,
    pub phase: LoginPhase,
}

#[verifier::ext_equal]
pub struct SessionV {
    pub auth_url: Seq<char>,
    pub created_at: u64,
    pub phase: PhaseV,
}

impl View for LoginSession {
    type V = SessionV;

    open spec fn view(&self) -> SessionV {
        SessionV { auth_url: self.auth_url@, created_at: self.created_at, phase: self.phase@ }
    }
}

/// A login has waited for too long.
pub open spec fn login_expired(created_at: u64, now: u64) -> bool {
    now - created_at > 600_000
}

impl LoginSession {
    /// Begins a login: it waits for somebody to log in on the page.
    pub fn begin(auth_url: String, now: u64) -> (r: LoginSession)
        ensures
            r@ == (SessionV { auth_url: auth_url@, created_at: now, phase: PhaseV::Waiting }),
    {
        LoginSession { auth_url, created_at: now, phase: LoginPhase::Waiting }
    }

    /// How far the login has come.
    pub fn phase(&self) -> (r: &LoginPhase)
        ensures
            r@ == self@.phase,
    {
        &self.phase
    }

    /// Notes the outcome of the login.
    pub fn finish(&mut self, outcome: LoginOutcome)
        ensures
            final(self)@ == (SessionV { phase: phase_after(outcome), ..old(self)@ }),
    {
        self.phase = login_phase(outcome);
    }

    pub fn expired(&self, now: u64) -> (r: bool)
        ensures
            r == login_expired(self@.created_at, now),
    {
        now > self.created_at && now - self.created_at > LOGIN_TIMEOUT
    }
}

/// The logins that were begun.
pub struct LoginSessions {
    pub sessions: TextMap<LoginSession>,
}

/// The logins that have waited for too long.
pub open spec fn expired_ids(sessions: Seq<(Seq<char>, SessionV)>, now: u64) -> Seq<Seq<char>>
    decreases sessions.len(),
{
    if sessions.len() == 0 {
        Seq::empty()
    } else {
        let rest = expired_ids(sessions.drop_last(), now);
        if login_expired(sessions.last().1.created_at, now) {
            rest.push(sessions.last().0)
        } else {
            rest
        }
    }
}

/// The logins that have not.
pub open spec fn live_sessions(sessions: Seq<(Seq<char>, SessionV)>, now: u64) -> Seq<(Seq<char>, SessionV)>
    decreases sessions.len(),
{
    if sessions.len() == 0 {
        sessions
    } else {
        let rest = live_sessions(sessions.drop_last(), now);
        if login_expired(sessions.last().1.created_at, now) {
            rest
        } else {
            rest.push(sessions.last())
        }
    }
}

pub open spec fn session_ids(sessions: Seq<(Seq<char>, SessionV)>) -> Seq<Seq<char>> {
    Seq::new(sessions.len(), |i: int| sessions[i].0)
}

impl LoginSessions {
    pub fn new() -> (r: LoginSessions)
        ensures
            r.sessions.inv(),
            r.sessions@.len() == 0,
    {
        LoginSessions { sessions: TextMap::new() }
    }

    pub fn insert(&mut self, id: &str, session: LoginSession)
        requires
            old(self).sessions.inv(),
        ensures
            final(self).sessions.inv(),
            final(self).sessions@ == with_key(old(self).sessions@, id@, session@),
    {
        self.sessions.insert(id, session);
    }

    pub fn get(&self, id: &str) -> (r: Option<&LoginSession>)
        requires
            self.sessions.inv(),
        ensures
            match r {
                Some(s) => lookup(self.sessions@, id@) == Some(s@),
                None => lookup(self.sessions@, id@) is None,
            },
    {
        self.sessions.get(id)
    }

    /// Takes out a login.
    pub fn remove(&mut self, id: &str) -> (r: Option<LoginSession>)
        requires
            old(self).sessions.inv(),
        ensures
            final(self).sessions.inv(),
            final(self).sessions@ == without_key(old(self).sessions@, id@),
            match r {
                Some(s) => lookup(old(self).sessions@, id@) == Some(s@),
                None => lookup(old(self).sessions@, id@) is None,
            },
    {
        self.sessions.remove(id)
    }

    /// Takes out every login, so that a new one can have the callback port. Says which to stop.
    pub fn cancel_all(&mut self) -> (r: Vec<String>)
        requires
            old(self).sessions.inv(),
        ensures
            final(self).sessions.inv(),
            final(self).sessions@.len() == 0,
            texts(r@) == session_ids(old(self).sessions@),
    {
        let ghost all = self.sessions@;
        let mut out: Vec<String> = Vec::new();
        let mut i: usize = 0;
        while i < self.sessions.len()
            invariant
                i <= all.len(),
                all == self.sessions@,
                texts(out@) == session_ids(all).subrange(0, i as int),
            decreases all.len() - i,
        {
            let id = self.sessions.key_at(i).to_owned();
            proof {
                texts_push(out@, id);
            }
            out.push(id);
            i = i + 1;
            proof {
                assert(texts(out@) =~= session_ids(all).subrange(0, i as int));
            }
        }
        self.sessions = TextMap::new();
        proof {
            assert(session_ids(all).subrange(0, i as int) =~= session_ids(all));
        }
        out
    }

    /// Takes out the logins that have waited for too long. Says which to stop.
    pub fn remove_expired(&mut self, now: u64) -> (r: Vec<String>)
        requires
            old(self).sessions.inv(),
        ensures
            final(self).sessions.inv(),
            final(self).sessions@ == live_sessions(old(self).sessions@, now),
            texts(r@) == expired_ids(old(self).sessions@, now),
    {
        let ghost all = self.sessions@;
        let ghost mut seen: int = 0;
        let mut out: Vec<String> = Vec::new();
        let mut i: usize = 0;
        proof {
            assert(texts(out@) =~= expired_ids(all.subrange(0, 0), now));
            assert(all =~= live_sessions(all.subrange(0, 0), now) + all.subrange(
                0,
                all.len() as int,
            ));
        }
        while i < self.sessions.len()
            invariant
                0 <= seen <= all.len(),
                i == live_sessions(all.subrange(0, seen), now).len(),
                self.sessions.inv(),
                texts(out@) == expired_ids(all.subrange(0, seen), now),
                self.sessions@ == live_sessions(all.subrange(0, seen), now) + all.subrange(
                    seen,
                    all.len() as int,
                ),
            decreases all.len() - seen,
        {
            let ghost before = self.sessions@;
            let ghost live = live_sessions(all.subrange(0, seen), now);
            let expired = self.sessions.value_at(i).expired(now);
            proof {
                assert(before.len() == live.len() + (all.len() - seen));
                assert(all.subrange(0, seen + 1).drop_last() =~= all.subrange(0, seen));
                assert(all.subrange(0, seen + 1).last() == all[seen]);
                assert(before[i as int] == all[seen]);
            }
            if expired {
                let id = self.sessions.key_at(i).to_owned();
                proof {
                    lemma_without_at(before, id@, i as int);
                    texts_push(out@, id);
                }
                let _ = self.sessions.remove(id.as_str());
                out.push(id);
                proof {
                    assert(self.sessions@ =~= live + all.subrange(seen + 1, all.len() as int));
                }
            } else {
                i = i + 1;
                proof {
                    assert(before =~= live.push(all[seen]) + all.subrange(
                        seen + 1,
                        all.len() as int,
                    ));
                }
            }
            proof {
                seen = seen + 1;
            }
        }
        proof {
            assert(seen == all.len());
            assert(all.subrange(0, seen) =~= all);
            assert(self.sessions@ =~= live_sessions(all, now));
        }
        out
    }
}

/// A secret and what is told of it beforehand.
#[derive(Debug)]
pub struct PkcePair {
    pub verifier: String,
    pub challenge: String,
}

pub open spec fn verifier_of(seed: Seq<u8>) -> Seq<char> {
    base64_url(seed)
}

pub open spec fn challenge_of(verifier: Seq<char>) -> Seq<char> {
    base64_url(sha256_of(encode_utf8(verifier)))
}

/// The pair that a seed makes.
pub fn pkce_from(seed: &Vec<u8>) -> (r: PkcePair)
    requires
        (4 * seed.len() + 2) / 3 <= isize::MAX,
    ensures
        r.verifier@ == verifier_of(seed@),
        r.verifier@.len() == (4 * seed.len() + 2) / 3,
        r.challenge@ == challenge_of(r.verifier@),
{
    let verifier = encode_url(seed.as_slice());
    let mut bytes: Vec<u8> = Vec::new();
    add_all(&mut bytes, verifier.as_str().as_bytes());
    proof {
        assert(bytes@ =~= encode_utf8(verifier@));
    }
    let digest = sha256(&bytes);
    let challenge = encode_url(digest.bytes.as_slice());
    PkcePair { verifier, challenge }
}

/// A fresh pair.
pub fn pkce_pair() -> (r: PkcePair)
    ensures
        exists|seed: Seq<u8>| seed.len() == 48 && r.verifier@ == #[trigger] verifier_of(seed),
        r.verifier@.len() == 64,
        r.challenge@ == challenge_of(r.verifier@),
{
    let mut seed: Vec<u8> = Vec::new();
    let mut i: usize = 0;
    while i < 3
        invariant
            i <= 3,
            seed.len() == 16 * i,
        decreases 3 - i,
    {
        let part = random_uuid();
        add_all(&mut seed, part.as_slice());
        i = i + 1;
    }
    let r = pkce_from(&seed);
    proof {
        assert(r.verifier@ == verifier_of(seed@));
    }
    r
}

/// What the address of the login page says.
pub open spec fn authorize_pairs(state: Seq<char>, challenge: Seq<char>) -> Seq<
    (Seq<char>, Seq<char>),
> {
    seq![
        ("response_type"@, "code"@),
        ("client_id"@, "app_EMoamEEZ73f0CkXaXp7hrann"@),
        ("redirect_uri"@, "http://localhost:1455/auth/callback"@),
        ("scope"@, "openid profile email offline_access"@),
        ("code_challenge"@, challenge),
        ("code_challenge_method"@, "S256"@),
        ("id_token_add_organizations"@, "true"@),
        ("codex_cli_simplified_flow"@, "true"@),
        ("state"@, state),
        ("originator"@, "codex_cli_rs"@),
    ]
}

/// What the address of the login page says.
pub fn authorize_parameters(state: &str, challenge: &str) -> (r: Vec<(String, String)>)
    ensures
        pairs_view(r@) == authorize_pairs(state@, challenge@),
{
    let mut out: Vec<(String, String)> = Vec::new();
    out.push(("response_type".to_owned(), "code".to_owned()));
    out.push(("client_id".to_owned(), OAUTH_CLIENT_ID.to_owned()));
    out.push(("redirect_uri".to_owned(), OAUTH_REDIRECT_URI.to_owned()));
    out.push(("scope".to_owned(), OAUTH_SCOPE.to_owned()));
    out.push(("code_challenge".to_owned(), challenge.to_owned()));
    out.push(("code_challenge_method".to_owned(), "S256".to_owned()));
    out.push(("id_token_add_organizations".to_owned(), "true".to_owned()));
    out.push(("codex_cli_simplified_flow".to_owned(), "true".to_owned()));
    out.push(("state".to_owned(), state.to_owned()));
    out.push(("originator".to_owned(), "codex_cli_rs".to_owned()));
    proof {
        assert(pairs_view(out@) =~= authorize_pairs(state@, challenge@));
    }
    out
}

/// The address of the login page.
pub fn build_authorize_url(state: &str, challenge: &str) -> (r: Option<String>)
    ensures
        string_view(r) == url_with_pairs(
            "https://auth.openai.com/oauth/authorize"@,
            authorize_pairs(state@, challenge@),
        ),
{
    let pairs = authorize_parameters(state, challenge);
    proof {
        reveal_strlit("https://auth.openai.com/oauth/authorize");
        assert(!OAUTH_AUTHORIZE_URL@.contains('#'));
    }
    add_pairs(OAUTH_AUTHORIZE_URL, &pairs)
}

/// What the first line of a request asks for.
pub open spec fn target_of(request: Seq<char>) -> Option<Seq<char>> {
    let parts = words(split(request, Sep::Char('\n'))[0]);
    if parts.len() >= 2 && parts[0] == "GET"@ {
        Some(parts[1])
    } else {
        None
    }
}

/// What the first line of a request asks for.
pub fn request_target(request: &str) -> (r: Option<String>)
    ensures
        string_view(r) == target_of(request@),
{
    let lines = split_text(request, Sep::Char('\n'));
    proof {
        assert(texts(lines@).len() > 0);
        assert(texts(lines@)[0] == lines@[0]@);
    }
    let parts = split_words(lines[0].as_str());
    proof {
        assert(texts(parts@).len() == parts.len());
    }
    if parts.len() < 2 {
        return None;
    }
    proof {
        assert(texts(parts@)[0] == parts@[0]@);
        assert(texts(parts@)[1] == parts@[1]@);
    }
    if str_eq(parts[0].as_str(), "GET") {
        Some(parts[1].clone())
    } else {
        None
    }
}

/// A text without the question marks at its start.
pub open spec fn after_marks(s: Seq<char>) -> Seq<char>
    decreases s.len(),
{
    if s.len() > 0 && s[0] == '?' {
        after_marks(s.subrange(1, s.len() as int))
    } else {
        s
    }
}

fn without_marks(s: &str) -> (r: String)
    ensures
        r@ == after_marks(s@),
{
    let v = chars_of(s);
    let mut i: usize = 0;
    proof {
        assert(v@.subrange(0, v@.len() as int) =~= v@);
    }
    while i < v.len() && v[i] == '?'
        invariant
            i <= v.len(),
            after_marks(v@) == after_marks(v@.subrange(i as int, v@.len() as int)),
        decreases v.len() - i,
    {
        proof {
            let rest = v@.subrange(i as int, v@.len() as int);
            assert(rest.subrange(1, rest.len() as int) =~= v@.subrange(i + 1, v@.len() as int));
        }
        i = i + 1;
    }
    text_of(&v, i, v.len())
}

/// The pairs of a query.
pub open spec fn query_pairs(query: Seq<char>) -> Seq<(Seq<char>, Seq<char>)> {
    match url_parsed("http://localhost/?"@ + query) {
        Some(url) => url.pairs,
        None => Seq::empty(),
    }
}

/// The pairs of a query.
pub fn query_params(query: &str) -> (r: Vec<(String, String)>)
    ensures
        pairs_view(r@) == query_pairs(query@),
{
    match parse_url(cat2("http://localhost/?", query).as_str()) {
        Some(url) => url.pairs,
        None => {
            let none: Vec<(String, String)> = Vec::new();
            proof {
                assert(pairs_view(none@) =~= Seq::empty());
            }
            none
        },
    }
}

/// The value of the last pair with a key.
pub open spec fn last_value(pairs: Seq<(Seq<char>, Seq<char>)>, key: Seq<char>) -> Option<Seq<char>>
    decreases pairs.len(),
{
    if pairs.len() == 0 {
        None
    } else if pairs.last().0 == key {
        Some(pairs.last().1)
    } else {
        last_value(pairs.drop_last(), key)
    }
}

/// The value of the last pair with a key.
pub fn param(pairs: &Vec<(String, String)>, key: &str) -> (r: Option<String>)
    ensures
        string_view(r) == last_value(pairs_view(pairs@), key@),
{
    let ghost all = pairs_view(pairs@);
    let mut i: usize = pairs.len();
    proof {
        assert(all.subrange(0, all.len() as int) =~= all);
    }
    while i > 0
        invariant
            i <= pairs.len(),
            all == pairs_view(pairs@),
            last_value(all, key@) == last_value(all.subrange(0, i as int), key@),
        decreases i,
    {
        proof {
            let front = all.subrange(0, i as int);
            assert(front.drop_last() =~= all.subrange(0, i - 1));
            assert(front.last() == all[i - 1]);
        }
        i = i - 1;
        if str_eq(pairs[i].0.as_str(), key) {
            return Some(pairs[i].1.clone());
        }
    }
    None
}

/// What to do after a request on the callback port.
#[derive(Debug)]
pub enum CallbackStep {
    /// Answer with a status and words, and wait for another.
    Answer(u16, String),
    /// Answer with a status and words, and give up with an error.
    Refuse(u16, String, String),
    /// Exchange a code.
    Exchange(String),
}

#[verifier::ext_equal]
pub enum CallbackV {
    Answer(u16, Seq<char>),
    Refuse(u16, Seq<char>, Seq<char>),
    Exchange(Seq<char>),
}

impl View for CallbackStep {
    type V = CallbackV;

    open spec fn view(&self) -> CallbackV {
        match self {
            CallbackStep::Answer(s, w) => CallbackV::Answer(*s, w@),
            CallbackStep::Refuse(s, w, e) => CallbackV::Refuse(*s, w@, e@),
            CallbackStep::Exchange(c) => CallbackV::Exchange(c@),
        }
    }
}

/// What to do with the pairs of a callback. Only a callback of this login is heard.
pub open spec fn callback_step(pairs: Seq<(Seq<char>, Seq<char>)>, expected_state: Seq<char>) -> CallbackV {
    if last_value(pairs, "state"@) != Some(expected_state) {
        CallbackV::Answer(400, "登录状态校验失败，请回到 Codey 重新开始。"@)
    } else {
        match last_value(pairs, "error"@) {
            Some(error) => CallbackV::Refuse(
                200,
                "登录已取消，可关闭此页面。"@,
                "OpenAI 登录被拒绝："@ + error + " "@ + (match last_value(
                    pairs,
                    "error_description"@,
                ) {
                    Some(d) => d,
                    None => Seq::empty(),
                }),
            ),
            None => match last_value(pairs, "code"@) {
                Some(code) => if code.len() > 0 {
                    CallbackV::Exchange(code)
                } else {
                    CallbackV::Answer(400, "缺少授权码，请回到 Codey 重新开始。"@)
                },
                None => CallbackV::Answer(400, "缺少授权码，请回到 Codey 重新开始。"@),
            },
        }
    }
}

/// What to do with the pairs of a callback.
pub fn judge_callback(pairs: &Vec<(String, String)>, expected_state: &str) -> (r: CallbackStep)
    ensures
        r@ == callback_step(pairs_view(pairs@), expected_state@),
{
    let same = match param(pairs, "state") {
        Some(s) => str_eq(s.as_str(), expected_state),
        None => false,
    };
    if !same {
        return CallbackStep::Answer(
            400,
            "登录状态校验失败，请回到 Codey 重新开始。".to_owned(),
        );
    }
    if let Some(error) = param(pairs, "error") {
        let description = match param(pairs, "error_description") {
            Some(d) => d,
            None => String::new(),
        };
        return CallbackStep::Refuse(
            200,
            "登录已取消，可关闭此页面。".to_owned(),
            cat4("OpenAI 登录被拒绝：", error.as_str(), " ", description.as_str()),
        );
    }
    match param(pairs, "code") {
        Some(code) => if code.as_str().is_empty() {
            CallbackStep::Answer(400, "缺少授权码，请回到 Codey 重新开始。".to_owned())
        } else {
            CallbackStep::Exchange(code)
        },
        None => CallbackStep::Answer(400, "缺少授权码，请回到 Codey 重新开始。".to_owned()),
    }
}

/// What to do after a request on the callback port.
pub open spec fn request_step(request: Seq<char>, expected_state: Seq<char>) -> CallbackV {
    match target_of(request) {
        None => CallbackV::Answer(400, "Bad Request"@),
        Some(target) => match strip_prefix(target, "/auth/callback"@) {
            None => CallbackV::Answer(404, "Not Found"@),
            Some(query) => callback_step(query_pairs(after_marks(query)), expected_state),
        },
    }
}

/// What to do after a request on the callback port.
pub fn run_callback_server(request: &str, expected_state: &str) -> (r: CallbackStep)
    ensures
        r@ == request_step(request@, expected_state@),
{
    let target = match request_target(request) {
        None => {
            return CallbackStep::Answer(400, "Bad Request".to_owned());
        },
        Some(t) => t,
    };
    let query = match stripped_prefix(target.as_str(), "/auth/callback") {
        None => {
            return CallbackStep::Answer(404, "Not Found".to_owned());
        },
        Some(q) => q,
    };
    let params = query_params(without_marks(query.as_str()).as_str());
    judge_callback(&params, expected_state)
}

/// A text as it stands in a page.
pub open spec fn escaped(text: Seq<char>) -> Seq<char> {
    replaced(replaced(replaced(text, "&"@, "&amp;"@), "<"@, "&lt;"@), ">"@, "&gt;"@)
}

/// A text as it stands in a page.
pub fn html_escape(text: &str) -> (r: String)
    ensures
        r@ == escaped(text@),
{
    let a = with_replaced(text, "&", "&amp;");
    let b = with_replaced(a.as_str(), "<", "&lt;");
    with_replaced(b.as_str(), ">", "&gt;")
}

pub open spec fn reason_of(status: u16) -> Seq<char> {
    if status == 200 {
        "OK"@
    } else if status == 400 {
        "Bad Request"@
    } else if status == 404 {
        "Not Found"@
    } else {
        "Internal Server Error"@
    }
}

/// The page that the user sees.
pub open spec fn page_of(message: Seq<char>) -> Seq<char> {
    "<!doctype html><html lang=\"zh-CN\"><head><meta charset=\"utf-8\"><title>Codey</title></head><body style=\"font-family:-apple-system,system-ui,sans-serif;display:flex;align-items:center;justify-content:center;height:100vh;margin:0;color:#222\"><p style=\"font-size:18px\">"@
        + escaped(message) + "</p></body></html>"@
}

/// The answer on the callback port.
pub open spec fn answer_of(status: u16, message: Seq<char>) -> Seq<char> {
    "HTTP/1.1 "@ + digits(status as nat) + " "@ + reason_of(status)
        + "\r\nContent-Type: text/html; charset=utf-8\r\nContent-Length: "@ + digits(
        byte_len(page_of(message)),
    ) + "\r\nConnection: close\r\n\r\n"@ + page_of(message)
}

/// The answer on the callback port.
pub fn write_response(status: u16, message: &str) -> (r: String)
    ensures
        r@ == answer_of(status, message@),
{
    let reason = match status {
        200 => "OK",
        400 => "Bad Request",
        404 => "Not Found",
        _ => "Internal Server Error",
    };
    let page = cat3(
        "<!doctype html><html lang=\"zh-CN\"><head><meta charset=\"utf-8\"><title>Codey</title></head><body style=\"font-family:-apple-system,system-ui,sans-serif;display:flex;align-items:center;justify-content:center;height:100vh;margin:0;color:#222\"><p style=\"font-size:18px\">",
        html_escape(message).as_str(),
        "</p></body></html>",
    );
    let head = cat5(
        "HTTP/1.1 ",
        decimal_text(status as u64).as_str(),
        " ",
        reason,
        "\r\nContent-Type: text/html; charset=utf-8\r\nContent-Length: ",
    );
    cat4(
        head.as_str(),
        decimal_text(text_byte_len(page.as_str()) as u64).as_str(),
        "\r\nConnection: close\r\n\r\n",
        page.as_str(),
    )
}

/// Enough of a request was read: its head is whole, or it is too long.
pub open spec fn head_is_read(bytes: Seq<u8>) -> bool {
    bytes.len() > 16_384 || exists|i: int|
        0 <= i && i + 4 <= bytes.len() && #[trigger] bytes[i] == 13 && bytes[i + 1] == 10
            && bytes[i + 2] == 13 && bytes[i + 3] == 10
}

/// Whether enough of a request was read.
pub fn read_request_head(bytes: &Vec<u8>) -> (r: bool)
    ensures
        r == head_is_read(bytes@),
{
    if bytes.len() > MAX_CALLBACK_REQUEST_BYTES {
        return true;
    }
    let mut i: usize = 0;
    while i + 4 <= bytes.len()
        invariant
            i <= bytes.len() <= 16_384,
            forall|j: int|
                0 <= j < i && j + 4 <= bytes.len() ==> !(#[trigger] bytes@[j] == 13 && bytes@[j + 1]
                    == 10 && bytes@[j + 2] == 13 && bytes@[j + 3] == 10),
        decreases bytes.len() - i,
    {
        if bytes[i] == 13 && bytes[i + 1] == 10 && bytes[i + 2] == 13 && bytes[i + 3] == 10 {
            proof {
                assert(bytes@[i as int] == 13);
            }
            return true;
        }
        i = i + 1;
    }
    false
}

/// The form that exchanges a code.
pub open spec fn exchange_pairs(code: Seq<char>, verifier: Seq<char>) -> Seq<
    (Seq<char>, Seq<char>),
> {
    seq![
        ("grant_type"@, "authorization_code"@),
        ("code"@, code),
        ("redirect_uri"@, "http://localhost:1455/auth/callback"@),
        ("client_id"@, "app_EMoamEEZ73f0CkXaXp7hrann"@),
        ("code_verifier"@, verifier),
    ]
}

/// The form that exchanges a code.
pub fn exchange_form(code: &str, verifier: &str) -> (r: Vec<(String, String)>)
    ensures
        pairs_view(r@) == exchange_pairs(code@, verifier@),
{
    let mut out: Vec<(String, String)> = Vec::new();
    out.push(("grant_type".to_owned(), "authorization_code".to_owned()));
    out.push(("code".to_owned(), code.to_owned()));
    out.push(("redirect_uri".to_owned(), OAUTH_REDIRECT_URI.to_owned()));
    out.push(("client_id".to_owned(), OAUTH_CLIENT_ID.to_owned()));
    out.push(("code_verifier".to_owned(), verifier.to_owned()));
    proof {
        assert(pairs_view(out@) =~= exchange_pairs(code@, verifier@));
    }
    out
}

/// The answer to a request for tokens: its document, or what is wrong with it.
pub open spec fn token_answer(
    status: u16,
    status_text: Seq<char>,
    body: Seq<u8>,
    refreshing: bool,
) -> Result<JsonV, Seq<char>> {
    if !(200 <= status < 300) {
        if refreshing {
            Err("刷新官方账号令牌失败："@ + status_text)
        } else {
            Err("OpenAI 令牌接口返回 "@ + status_text)
        }
    } else {
        match json_parsed(body) {
            Ok(v) => Ok(v),
            Err(_) => if refreshing {
                Err("刷新令牌响应格式无效"@)
            } else {
                Err("令牌响应格式无效"@)
            },
        }
    }
}

/// Bytes that an answer to a request for tokens may have.
pub const MAX_TOKEN_ANSWER_BYTES: usize = 262144;

/// Puts a piece of an answer at the end of what has come, unless that would be too much. Says
/// whether it did.
pub fn keep_answer_bytes(kept: &mut Vec<u8>, chunk: &Vec<u8>) -> (r: bool)
    requires
        old(kept).len() <= MAX_TOKEN_ANSWER_BYTES,
    ensures
        r == (old(kept).len() + chunk.len() <= MAX_TOKEN_ANSWER_BYTES),
        final(kept)@ == if r {
            old(kept)@ + chunk@
        } else {
            old(kept)@
        },
{
    if chunk.len() > MAX_TOKEN_ANSWER_BYTES - kept.len() {
        return false;
    }
    add_all(kept, chunk.as_slice());
    true
}

/// Reads the answer to a request for tokens.
pub fn read_token_answer(status: u16, status_text: &str, body: &[u8], refreshing: bool) -> (r: Result<
    Json,
    String,
>)
    ensures
        match r {
            Ok(v) => token_answer(status, status_text@, body@, refreshing) == Ok::<
                JsonV,
                Seq<char>,
            >(v@),
            Err(e) => token_answer(status, status_text@, body@, refreshing) == Err::<
                JsonV,
                Seq<char>,
            >(e@),
        },
{
    if !(200 <= status && status < 300) {
        return if refreshing {
            Err(cat2("刷新官方账号令牌失败：", status_text))
        } else {
            Err(cat2("OpenAI 令牌接口返回 ", status_text))
        };
    }
    match parse_bytes(body) {
        Ok(v) => Ok(v),
        Err(_) => if refreshing {
            Err("刷新令牌响应格式无效".to_owned())
        } else {
            Err("令牌响应格式无效".to_owned())
        },
    }
}

/// A callback that does not carry the state of this login never yields a code.
pub proof fn a_foreign_callback_is_not_heard(
    pairs: Seq<(Seq<char>, Seq<char>)>,
    expected_state: Seq<char>,
)
    requires
        last_value(pairs, "state"@) != Some(expected_state),
    ensures
        callback_step(pairs, expected_state) is Answer,
{
}

/// Once the logins that have waited for too long are out, none has.
pub proof fn expired_logins_are_gone(sessions: Seq<(Seq<char>, SessionV)>, now: u64, i: int)
    requires
        0 <= i < live_sessions(sessions, now).len(),
    ensures
        !login_expired(live_sessions(sessions, now)[i].1.created_at, now),
    decreases sessions.len(),
{
    if i < live_sessions(sessions.drop_last(), now).len() {
        expired_logins_are_gone(sessions.drop_last(), now, i);
    }
}

/// A login stays as long as it has not waited for too long, as it was, and in its place; no other does.
pub proof fn a_login_stays_until_it_expires(
    first: Seq<(Seq<char>, SessionV)>,
    login: (Seq<char>, SessionV),
    second: Seq<(Seq<char>, SessionV)>,
    now: u64,
)
    ensures
        live_sessions(first.push(login) + second, now) == live_sessions(first, now) + (
        if login_expired(login.1.created_at, now) {
            Seq::empty()
        } else {
            seq![login]
        }) + live_sessions(second, now),
    decreases second.len(),
{
    let all = first.push(login) + second;
    if second.len() == 0 {
        assert(all =~= first.push(login));
        assert(all.drop_last() =~= first);
        assert(all.last() == login);
        assert(live_sessions(second, now) =~= Seq::<(Seq<char>, SessionV)>::empty());
        assert(live_sessions(all, now) =~= live_sessions(first, now) + (if login_expired(
            login.1.created_at,
            now,
        ) {
            Seq::empty()
        } else {
            seq![login]
        }) + live_sessions(second, now));
    } else {
        a_login_stays_until_it_expires(first, login, second.drop_last(), now);
        assert(all.drop_last() =~= first.push(login) + second.drop_last());
        assert(all.last() == second.last());
        assert(live_sessions(all, now) =~= live_sessions(first, now) + (if login_expired(
            login.1.created_at,
            now,
        ) {
            Seq::empty()
        } else {
            seq![login]
        }) + live_sessions(second, now));
    }
}

/// The last pair with the key has this value.
pub open spec fn ends_with_value(
    pairs: Seq<(Seq<char>, Seq<char>)>,
    key: Seq<char>,
    value: Seq<char>,
) -> bool {
    exists|i: int|
        0 <= i < pairs.len() && #[trigger] pairs[i] == (key, value) && forall|j: int|
            i < j < pairs.len() ==> (#[trigger] pairs[j]).0 != key
}

/// No pair has the key.
pub open spec fn lacks_key(pairs: Seq<(Seq<char>, Seq<char>)>, key: Seq<char>) -> bool {
    forall|i: int| 0 <= i < pairs.len() ==> (#[trigger] pairs[i]).0 != key
}

proof fn lemma_last_value(pairs: Seq<(Seq<char>, Seq<char>)>, key: Seq<char>)
    ensures
        last_value(pairs, key) is None <==> lacks_key(pairs, key),
        last_value(pairs, key) is Some ==> ends_with_value(pairs, key, last_value(pairs, key)->0),
        forall|value: Seq<char>| #[trigger]
            ends_with_value(pairs, key, value) ==> last_value(pairs, key) == Some(value),
    decreases pairs.len(),
{
    if pairs.len() > 0 {
        let rest = pairs.drop_last();
        lemma_last_value(rest, key);
        let n = pairs.len() - 1;
        assert(pairs[n] == pairs.last());
        if pairs.last().0 == key {
            assert(pairs[n] == (key, pairs.last().1));
            assert(ends_with_value(pairs, key, pairs.last().1));
        } else {
            if last_value(rest, key) is Some {
                let value = last_value(rest, key)->0;
                let i = choose|i: int|
                    0 <= i < rest.len() && #[trigger] rest[i] == (key, value) && forall|j: int|
                        i < j < rest.len() ==> (#[trigger] rest[j]).0 != key;
                assert(pairs[i] == (key, value));
                assert forall|j: int| i < j < pairs.len() implies (#[trigger] pairs[j]).0 != key by {
                    if j < n {
                        assert(rest[j] == pairs[j]);
                    }
                }
                assert(ends_with_value(pairs, key, value));
            } else {
                assert forall|i: int| 0 <= i < pairs.len() implies (#[trigger] pairs[i]).0 != key by {
                    if i < n {
                        assert(rest[i] == pairs[i]);
                    }
                }
            }
        }
        assert forall|value: Seq<char>| #[trigger] ends_with_value(pairs, key, value) implies last_value(
            pairs,
            key,
        ) == Some(value) by {
            let i = choose|i: int|
                0 <= i < pairs.len() && #[trigger] pairs[i] == (key, value) && forall|j: int|
                    i < j < pairs.len() ==> (#[trigger] pairs[j]).0 != key;
            if i < n {
                assert(pairs[n].0 != key);
                assert(rest[i] == (key, value));
                assert forall|j: int| i < j < rest.len() implies (#[trigger] rest[j]).0 != key by {
                    assert(pairs[j] == rest[j]);
                }
                assert(ends_with_value(rest, key, value));
            }
        }
        if lacks_key(pairs, key) {
            assert(pairs[n].0 != key);
            assert forall|i: int| 0 <= i < rest.len() implies (#[trigger] rest[i]).0 != key by {
                assert(pairs[i] == rest[i]);
            }
        }
    }
}

/// A code is exchanged exactly where the callback carries the state of this login and the code, and
/// tells no error; an error that it tells ends the login.
pub proof fn the_code_of_this_login_is_exchanged(
    pairs: Seq<(Seq<char>, Seq<char>)>,
    expected_state: Seq<char>,
    code: Seq<char>,
)
    ensures
        callback_step(pairs, expected_state) == CallbackV::Exchange(code) <==> code.len() > 0
            && ends_with_value(pairs, "state"@, expected_state) && ends_with_value(
            pairs,
            "code"@,
            code,
        ) && lacks_key(pairs, "error"@),
        callback_step(pairs, expected_state) is Refuse <==> ends_with_value(
            pairs,
            "state"@,
            expected_state,
        ) && !lacks_key(pairs, "error"@),
{
    lemma_last_value(pairs, "state"@);
    lemma_last_value(pairs, "error"@);
    lemma_last_value(pairs, "code"@);
}

} // verus!
