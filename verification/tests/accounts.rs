use base64::engine::general_purpose::{STANDARD, URL_SAFE, URL_SAFE_NO_PAD};
use base64::Engine;
use codey::json::{parse_text, Json};
use codey::notifications::ilink::{
    base_info, client_version, headers, random_wechat_uin, wechat_uin,
};
use codey::official_accounts::{
    account_named, age_since, apply_token_response, auth_account_id, jwt_claims, jwt_payload,
    record_from_token_response, refresh_if_stale, request_for_age, sanitize_id, CodexAuthFile,
    LaunchLoginResolution, OfficialAccountRecord, OfficialAccountStore, ACCOUNTS_DIR_NAME,
};
use codey::official_login::{
    authorize_parameters, build_authorize_url, exchange_form, html_escape, judge_callback,
    keep_answer_bytes, login_phase, param,
    pkce_from, pkce_pair, query_params, read_request_head, read_token_answer, request_target,
    run_callback_server, write_response, CallbackStep, LoginOutcome, LoginPhase,
    LoginSession, LoginSessions,
    OAUTH_AUTHORIZE_URL, OAUTH_CLIENT_ID,
};

fn j(text: &str) -> Json {
    parse_text(text).unwrap()
}

fn unsigned_jwt(payload: &Json) -> String {
    let header = URL_SAFE_NO_PAD.encode(br#"{"alg":"none"}"#);
    let body = URL_SAFE_NO_PAD.encode(payload.to_text());
    format!("{header}.{body}.sig")
}

fn chatgpt_auth(account_id: &str, email: &str, refreshed: &str) -> Json {
    let claims = Json::obj().with("email", Json::str(email)).with(
        "https://api.openai.com/auth",
        Json::obj()
            .with("chatgpt_account_id", Json::str(account_id))
            .with("chatgpt_plan_type", Json::str("plus")),
    );
    let tokens = Json::obj()
        .with("id_token", Json::string(unsigned_jwt(&claims)))
        .with("access_token", Json::string(format!("access-{account_id}")))
        .with("refresh_token", Json::string(format!("refresh-{account_id}")));
    Json::obj()
        .with("OPENAI_API_KEY", Json::null())
        .with("auth_mode", Json::str("chatgpt"))
        .with("tokens", tokens)
        .with("last_refresh", Json::str(refreshed))
}

fn record(account_id: &str, email: &str, added_at: u64) -> OfficialAccountRecord {
    OfficialAccountRecord::from_auth(
        chatgpt_auth(account_id, email, "2026-01-01T00:00:00Z"),
        added_at,
    )
    .unwrap()
}

fn token<'a>(auth: &'a Json, key: &str) -> Option<&'a str> {
    auth.get("tokens").unwrap().get_str(key)
}

#[test]
fn record_derives_identity_from_id_token() {
    let record = record("acct_1", "a@example.com", 1);
    assert_eq!(record.id, "acct_1");
    assert_eq!(record.account_id.as_deref(), Some("acct_1"));
    assert_eq!(record.email.as_deref(), Some("a@example.com"));
    assert_eq!(record.plan_type.as_deref(), Some("plus"));
    assert_eq!(token(&record.auth, "account_id"), Some("acct_1"));
    let summary = record.summary(Some("acct_1"));
    assert!(summary.is_default);
    let shown = format!("{summary:?}");
    assert!(shown.contains("a@example.com"));
    assert!(!shown.contains("access-"));
}

#[test]
fn record_rejects_api_key_logins() {
    let error = OfficialAccountRecord::from_auth(
        j(r#"{"auth_mode":"apikey","OPENAI_API_KEY":"sk","tokens":null}"#),
        1,
    )
    .unwrap_err();
    assert!(error.contains("tokens"));
    let error = OfficialAccountRecord::from_auth(
        j(r#"{"auth_mode":"apikey","tokens":{"access_token":"x"}}"#),
        1,
    )
    .unwrap_err();
    assert!(error.contains("ChatGPT"));
    let error =
        OfficialAccountRecord::from_auth(j(r#"{"tokens":{"access_token":" "}}"#), 1).unwrap_err();
    assert_eq!(error, "登录信息缺少 access_token");
}

#[test]
fn records_without_an_account_are_named_after_the_address() {
    let claims = j(r#"{"email":" User@Example.com "}"#);
    let auth = Json::obj().with(
        "tokens",
        Json::obj()
            .with("access_token", Json::str("x"))
            .with("id_token", Json::string(unsigned_jwt(&claims))),
    );
    let record = OfficialAccountRecord::from_auth(auth, 3).unwrap();
    assert_eq!(record.email.as_deref(), Some("User@Example.com"));
    // The first 24 digits of the SHA-256 digest of "user@example.com".
    assert_eq!(record.id, "email-b4c9a289323b21a01c3e940f");
    assert!(record.account_id.is_none());
    assert_eq!(record.auth.get_str("auth_mode"), Some("chatgpt"));
    let nameless =
        OfficialAccountRecord::from_auth(j(r#"{"tokens":{"access_token":"x"}}"#), 3).unwrap();
    assert!(nameless.id.starts_with("account-"));
    assert_eq!(nameless.id.len(), 8 + 36);
}

#[test]
fn store_lists_upserts_and_tracks_default() {
    let mut store = OfficialAccountStore::new(ACCOUNTS_DIR_NAME);
    assert!(store.list().is_empty());
    assert_eq!(store.default_account_id(), None);

    let first = record("acct_1", "a@example.com", 1);
    let second = record("acct_2", "b@example.com", 2);
    assert_eq!(store.upsert(&first), "acct_1");
    store.upsert(&second);
    store.set_default_account_id(Some("acct_2"));
    let summaries = store.summaries();
    assert_eq!(summaries.len(), 2);
    assert!(!summaries[0].is_default);
    assert!(summaries[1].is_default);

    store.remove("acct_2");
    assert_eq!(store.default_account_id(), None);
    assert_eq!(store.list().len(), 1);
}

#[test]
fn accounts_are_listed_in_the_order_of_addition() {
    let mut store = OfficialAccountStore::for_config_path(Some("/home/user"));
    assert_eq!(store.dir, "/home/user/official-accounts");
    assert_eq!(store.account_path("a"), "/home/user/official-accounts/a.json");
    assert_eq!(OfficialAccountStore::for_config_path(None).dir, "./official-accounts");
    assert_eq!(OfficialAccountStore::for_config_path(Some("")).dir, "official-accounts");
    for (id, added) in [("c", 5), ("b", 2), ("a", 5)] {
        store.upsert(&record(id, "x@example.com", added));
    }
    let ids: Vec<String> = store.list().into_iter().map(|r| r.id).collect();
    assert_eq!(ids, ["b", "a", "c"]);
    assert!(store.get("c").is_some());
    assert!(store.get("d").is_none());
    assert_eq!(sanitize_id("a/b:c_d-1"), "a-b-c_d-1");
}

fn contents(auth: &Json) -> CodexAuthFile {
    CodexAuthFile::Contents(auth.to_text().into_bytes())
}

#[test]
fn launch_resolution_writes_default_into_codex_home() {
    let mut store = OfficialAccountStore::new(ACCOUNTS_DIR_NAME);
    let record = record("acct_1", "a@example.com", 1);
    store.upsert(&record);
    store.set_default_account_id(Some("acct_1"));
    let file = contents(&j(r#"{"auth_mode":"apikey","OPENAI_API_KEY":"sk"}"#));
    let plan = store.resolve_launch_login("auth.json", &file, 9).unwrap();
    assert_eq!(
        plan.resolution,
        LaunchLoginResolution::Available { account_id: "acct_1".into() }
    );
    let written = plan.login.unwrap();
    assert!(written.same(&record.auth));
    let bytes =
        OfficialAccountStore::write_codex_login(&record, &CodexAuthFile::Missing).unwrap().unwrap();
    let same = CodexAuthFile::Contents(bytes.clone());
    assert!(OfficialAccountStore::write_codex_login(&record, &same).unwrap().is_none());
    assert!(parse_text(std::str::from_utf8(&bytes).unwrap()).unwrap().same(&record.auth));
    assert!(!plan.default_changed);
}

#[test]
fn launch_resolution_adopts_existing_codex_login_once() {
    let mut store = OfficialAccountStore::new(ACCOUNTS_DIR_NAME);
    let file = contents(&chatgpt_auth("acct_9", "z@example.com", "2026-01-01T00:00:00Z"));
    let plan = store.resolve_launch_login("auth.json", &file, 7).unwrap();
    assert_eq!(
        plan.resolution,
        LaunchLoginResolution::Available { account_id: "acct_9".into() }
    );
    assert_eq!(plan.saved.as_deref(), Some("acct_9"));
    assert!(plan.default_changed);
    assert_eq!(store.default_account_id().as_deref(), Some("acct_9"));

    // Removing the account must not re-adopt while other accounts exist.
    store.upsert(&record("acct_2", "b@example.com", 2));
    store.remove("acct_9");
    let plan = store.resolve_launch_login("auth.json", &file, 7).unwrap();
    assert!(matches!(plan.resolution, LaunchLoginResolution::Unavailable { .. }));
}

#[test]
fn launch_resolution_without_accounts_or_login_is_unavailable() {
    let mut store = OfficialAccountStore::new(ACCOUNTS_DIR_NAME);
    let file = contents(&j(r#"{"auth_mode":"apikey","OPENAI_API_KEY":"sk"}"#));
    let plan = store.resolve_launch_login("auth.json", &file, 7).unwrap();
    assert!(matches!(plan.resolution, LaunchLoginResolution::Unavailable { .. }));
    assert!(store.list().is_empty());
    let missing = store.resolve_launch_login("auth.json", &CodexAuthFile::Missing, 7).unwrap();
    assert!(matches!(missing.resolution, LaunchLoginResolution::Unavailable { .. }));
    let broken = CodexAuthFile::Contents(b"{".to_vec());
    assert_eq!(
        store.resolve_launch_login("auth.json", &broken, 7).unwrap_err(),
        "Codex 登录信息格式无效：auth.json"
    );
    assert_eq!(
        store.resolve_launch_login("auth.json", &CodexAuthFile::Unreadable, 7).unwrap_err(),
        "读取 Codex 登录信息失败：auth.json"
    );
}

#[test]
fn codex_refreshed_tokens_flow_back_into_the_store() {
    let mut store = OfficialAccountStore::new(ACCOUNTS_DIR_NAME);
    store.upsert(&record("acct_1", "a@example.com", 1));
    store.set_default_account_id(Some("acct_1"));
    let mut refreshed = chatgpt_auth("acct_1", "a@example.com", "2026-02-01T00:00:00Z");
    let tokens = refreshed
        .get("tokens")
        .unwrap()
        .clone_json()
        .with("access_token", Json::str("access-new"));
    refreshed.insert("tokens", tokens);
    assert_eq!(
        store.sync_default_from_codex_home(&Some(refreshed)).as_deref(),
        Some("acct_1")
    );
    let stored = store.get("acct_1").unwrap();
    assert_eq!(token(&stored.auth, "access_token"), Some("access-new"));

    // A different account in the Codex home is left alone.
    let foreign = chatgpt_auth("acct_7", "q@example.com", "2026-03-01T00:00:00Z");
    assert!(store.sync_default_from_codex_home(&Some(foreign)).is_none());
    let stored = store.get("acct_1").unwrap();
    assert_eq!(token(&stored.auth, "access_token"), Some("access-new"));
    let older = chatgpt_auth("acct_1", "a@example.com", "2025-01-01T00:00:00Z");
    assert!(store.sync_default_from_codex_home(&Some(older)).is_none());
}

#[test]
fn a_login_belongs_to_an_account_by_name_or_by_token() {
    let mine = record("acct_1", "a@example.com", 1);
    assert!(OfficialAccountStore::clear_codex_login_if_matches(
        &contents(&chatgpt_auth("acct_1", "b", "x")),
        &mine
    ));
    assert!(!OfficialAccountStore::clear_codex_login_if_matches(
        &contents(&chatgpt_auth("acct_2", "b", "x")),
        &mine
    ));
    assert!(OfficialAccountStore::clear_codex_login_if_matches(
        &contents(&j(r#"{"tokens":{"access_token":"access-acct_1"}}"#)),
        &mine
    ));
    assert!(!OfficialAccountStore::clear_codex_login_if_matches(&CodexAuthFile::Missing, &mine));
    assert_eq!(
        auth_account_id(&j(r#"{"tokens":{"account_id":" acct_5 "}}"#)).as_deref(),
        Some("acct_5")
    );
    assert!(auth_account_id(&j("{}")).is_none());
}

#[test]
fn authorize_url_and_callback_parsing_follow_codex_conventions() {
    let pkce = pkce_pair();
    assert!(pkce.verifier.len() >= 43 && pkce.verifier.len() <= 128);
    let url = build_authorize_url("state123", &pkce.challenge).unwrap();
    assert!(url.starts_with(OAUTH_AUTHORIZE_URL));
    assert!(url.contains("client_id=app_EMoamEEZ73f0CkXaXp7hrann"));
    assert!(url.contains("code_challenge_method=S256"));
    assert!(url.contains("redirect_uri=http%3A%2F%2Flocalhost%3A1455%2Fauth%2Fcallback"));
    assert!(url.contains("state=state123"));

    let target = request_target(
        "GET /auth/callback?code=abc&state=state123 HTTP/1.1\r\nHost: x\r\n\r\n",
    )
    .unwrap();
    let params = query_params(target.strip_prefix("/auth/callback?").unwrap());
    assert_eq!(param(&params, "code").unwrap(), "abc");
    assert_eq!(param(&params, "state").unwrap(), "state123");
    assert!(request_target("POST /auth/callback HTTP/1.1").is_none());
}

#[test]
fn a_pkce_pair_follows_the_standard() {
    // The example of RFC 7636: the verifier's digest is the challenge.
    let seed: Vec<u8> = vec![
        116, 24, 223, 180, 151, 153, 224, 37, 79, 250, 96, 125, 216, 173, 187, 186, 22, 212, 37,
        77, 105, 214, 191, 240, 91, 88, 5, 88, 83, 132, 141, 121,
    ];
    let pair = pkce_from(&seed);
    assert_eq!(pair.verifier, "dBjftJeZ4CVP-mB92K27uhbUJU1p1r_wW1gFWFOEjXk");
    assert_eq!(pair.challenge, "E9Melhoa2OwvFrEMTJguCHaoeK1t8URWbuGJSstw-cM");
    assert_eq!(authorize_parameters("s", "c").len(), 10);
}

#[test]
fn callbacks_are_judged_by_their_state() {
    let ask = |target: &str| {
        run_callback_server(&format!("GET {target} HTTP/1.1\r\nHost: x\r\n\r\n"), "good")
    };
    match ask("/auth/callback?code=a%20b&state=good") {
        CallbackStep::Exchange(code) => assert_eq!(code, "a b"),
        other => panic!("{other:?}"),
    }
    match ask("/auth/callback?code=abc&state=bad") {
        CallbackStep::Answer(400, words) => assert!(words.contains("登录状态校验失败")),
        other => panic!("{other:?}"),
    }
    match ask("/auth/callback?state=good&error=denied&error_description=why") {
        CallbackStep::Refuse(200, _, error) => assert_eq!(error, "OpenAI 登录被拒绝：denied why"),
        other => panic!("{other:?}"),
    }
    assert!(matches!(ask("/auth/callback?state=good"), CallbackStep::Answer(400, _)));
    assert!(matches!(ask("/auth/callback?state=good&code="), CallbackStep::Answer(400, _)));
    assert!(matches!(ask("/favicon.ico"), CallbackStep::Answer(404, _)));
    assert!(matches!(run_callback_server("", "good"), CallbackStep::Answer(400, _)));
    let twice = vec![
        ("state".to_string(), "bad".to_string()),
        ("state".to_string(), "good".to_string()),
        ("code".to_string(), "c".to_string()),
    ];
    assert!(matches!(judge_callback(&twice, "good"), CallbackStep::Exchange(_)));
}

#[test]
fn callback_answers_are_whole_pages() {
    assert_eq!(html_escape("<a & b>"), "&lt;a &amp; b&gt;");
    let page = write_response(200, "完成 <ok>");
    let (head, body) = page.split_once("\r\n\r\n").unwrap();
    assert!(head.starts_with("HTTP/1.1 200 OK\r\n"));
    assert!(head.contains(&format!("Content-Length: {}", body.len())));
    assert!(body.contains("完成 &lt;ok&gt;"));
    assert!(write_response(418, "x").starts_with("HTTP/1.1 418 Internal Server Error\r\n"));
    assert!(!read_request_head(&b"GET / HTTP/1.1\r\n".to_vec()));
    assert!(read_request_head(&b"GET / HTTP/1.1\r\n\r\n".to_vec()));
    assert!(read_request_head(&vec![b'x'; 16_385]));
    assert_eq!(
        exchange_form("c", "v")[1],
        ("code".to_string(), "c".to_string())
    );
}

#[test]
fn expired_logins_are_taken_out() {
    let mut sessions = LoginSessions::new();
    sessions.insert("old", LoginSession::begin("https://old".to_string(), 0));
    sessions.insert("new", LoginSession::begin("https://new".to_string(), 500_000));
    assert_eq!(sessions.remove_expired(600_000), Vec::<String>::new());
    assert_eq!(sessions.remove_expired(600_001), ["old"]);
    assert!(sessions.get("old").is_none());
    assert_eq!(sessions.get("new").unwrap().created_at, 500_000);
    assert!(sessions.remove("old").is_none());
    let mut taken = sessions.remove("new").unwrap();
    assert_eq!(taken.auth_url, "https://new");
    assert!(matches!(taken.phase(), LoginPhase::Waiting));
    taken.finish(LoginOutcome::Error("refused".to_string()));
    assert!(matches!(taken.phase(), LoginPhase::Failed(words) if words == "refused"));
    sessions.insert("new", taken);
    assert_eq!(sessions.cancel_all(), ["new"]);
    assert!(sessions.remove("new").is_none());
}

#[test]
fn a_login_ends_with_an_account_or_with_words() {
    let done = login_phase(LoginOutcome::Account(record("acct_1", "a@example.com", 1)));
    assert!(matches!(done, LoginPhase::Completed(account) if account.id == "acct_1"));
    let late = login_phase(LoginOutcome::TimedOut);
    assert!(
        matches!(late, LoginPhase::Failed(words) if words == "登录等待超时，请重新开始添加账号")
    );
    let wrong = login_phase(LoginOutcome::Error("w".to_string()));
    assert!(matches!(wrong, LoginPhase::Failed(words) if words == "w"));
}

#[test]
fn the_file_of_the_default_record_is_no_account() {
    let mut store = OfficialAccountStore::new(ACCOUNTS_DIR_NAME);
    store.upsert(&record("acct_1", "a@example.com", 1));
    store.set_default_account_id(Some("acct_1"));
    assert_eq!(store.upsert(&record("default", "d@example.com", 2)), "default");
    let ids: Vec<String> = store.list().into_iter().map(|r| r.id).collect();
    assert_eq!(ids, ["acct_1"]);
    assert!(store.default_account_id().is_none());
    store.set_default_account_id(Some("acct_1"));
    assert_eq!(store.remove("default"), "default");
    assert_eq!(store.list().len(), 1);
    assert!(store.default_account_id().is_none());
    store.set_default_account_id(Some("acct_1"));
    store.remove("acct_1");
    assert!(store.list().is_empty() && store.default_account_id().is_none());
}

// 2026-03-01T00:00:00.250Z
const NOW: i64 = 1_772_323_200_250;

#[test]
fn token_response_becomes_a_chatgpt_auth_document() {
    let claims = j(
        r#"{"email":"c@example.com","https://api.openai.com/auth":{"chatgpt_account_id":"acct_c","chatgpt_plan_type":"pro"}}"#,
    );
    let payload = Json::obj()
        .with("id_token", Json::string(unsigned_jwt(&claims)))
        .with("access_token", Json::str("access-c"))
        .with("refresh_token", Json::str("refresh-c"));
    let record = record_from_token_response(&payload, NOW).unwrap();
    assert_eq!(record.id, "acct_c");
    assert_eq!(record.auth.get_str("auth_mode"), Some("chatgpt"));
    assert_eq!(token(&record.auth, "account_id"), Some("acct_c"));
    assert_eq!(record.auth.get_str("last_refresh"), Some("2026-03-01T00:00:00.250Z"));
    let now = (NOW / 1000) as u64;
    assert!(record.last_refresh_age(now + 5).unwrap() < 60);
    assert_eq!(record.added_at, now);
    assert_eq!(
        record_from_token_response(&j("{}"), NOW).unwrap_err(),
        "令牌响应缺少 access_token"
    );
}

#[test]
fn refresh_response_updates_tokens_and_timestamp() {
    let mut record = record("acct_1", "a@example.com", 1);
    apply_token_response(
        &mut record,
        &j(r#"{"access_token":"access-2","refresh_token":"refresh-2"}"#),
        NOW,
    )
    .unwrap();
    assert_eq!(token(&record.auth, "access_token"), Some("access-2"));
    assert_eq!(token(&record.auth, "refresh_token"), Some("refresh-2"));
    assert_ne!(record.auth.get_str("last_refresh"), Some("2026-01-01T00:00:00Z"));
    assert!(refresh_if_stale(&record, OAUTH_CLIENT_ID, (NOW / 1000) as u64).is_none());
}

#[test]
fn refreshes_are_asked_for_after_six_hours() {
    let record = record("acct_1", "a@example.com", 1);
    let refreshed = 1_767_225_600; // 2026-01-01T00:00:00Z
    assert_eq!(record.last_refresh_age(refreshed + 10), Some(10));
    assert_eq!(record.last_refresh_age(5), Some(0));
    assert!(refresh_if_stale(&record, "client", refreshed + 21_599).is_none());
    let request = refresh_if_stale(&record, "client", refreshed + 21_600).unwrap();
    assert_eq!(request.get_str("refresh_token"), Some("refresh-acct_1"));
    assert_eq!(request.get_str("client_id"), Some("client"));
    let mut broken = OfficialAccountRecord {
        id: "x".to_string(),
        email: None,
        plan_type: None,
        account_id: None,
        added_at: 0,
        auth: Json::null(),
    };
    let answer = j(r#"{"access_token":"t"}"#);
    assert_eq!(
        apply_token_response(&mut broken, &answer, NOW).unwrap_err(),
        "账号登录信息格式无效"
    );
    broken.auth = j(r#"{"tokens":1}"#);
    assert_eq!(
        apply_token_response(&mut broken, &answer, NOW).unwrap_err(),
        "账号 tokens 格式无效"
    );
    broken.auth = j("{}");
    apply_token_response(&mut broken, &answer, NOW).unwrap();
    assert_eq!(token(&broken.auth, "access_token"), Some("t"));
}

#[test]
fn token_answers_are_read_or_refused() {
    assert!(read_token_answer(200, "200 OK", b"{}", true).is_ok());
    assert_eq!(
        read_token_answer(401, "401 Unauthorized", b"{}", true).unwrap_err(),
        "刷新官方账号令牌失败：401 Unauthorized"
    );
    assert_eq!(
        read_token_answer(500, "500 Internal Server Error", b"{}", false).unwrap_err(),
        "OpenAI 令牌接口返回 500 Internal Server Error"
    );
    assert_eq!(read_token_answer(200, "", b"x", false).unwrap_err(), "令牌响应格式无效");
}

#[test]
fn claims_are_read_with_and_without_padding() {
    let payload = br#"{"a":1}"#;
    for body in [URL_SAFE_NO_PAD.encode(payload), URL_SAFE.encode(payload)] {
        assert_eq!(jwt_claims(&format!("h.{body}.s")).unwrap().get_u64("a"), Some(1));
    }
    assert_eq!(jwt_payload("a.b.c").as_deref(), Some("b"));
    assert_eq!(age_since(Some(-1), 5), None);
    assert_eq!(age_since(Some(3), 5), Some(2));
    assert!(request_for_age(Some(0), Some("t".to_string()), "c").is_none());
    assert!(request_for_age(None, None, "c").is_none());
    assert!(request_for_age(None, Some("t".to_string()), "c").is_some());
    let claims = Some(j(r#"{"chatgpt_account_id":"x"}"#));
    assert_eq!(account_named(&j(r#"{"tokens":{}}"#), &None, &claims).as_deref(), Some("x"));
    assert!(jwt_claims("plain").is_none());
    assert!(jwt_claims("h.!!.s").is_none());
    assert!(jwt_claims(&format!("h.{}.s", "A".repeat(65_537))).is_none());
}

#[test]
fn invalid_token_characters_return_an_error_instead_of_panicking() {
    let error = headers(Some("abc\r\ndef"), "1.2.3").unwrap_err();
    assert!(error.contains("令牌"));
    assert!(headers(Some("令牌"), "1.2.3").is_err());
    let has = |list: &Vec<(String, String)>| list.iter().any(|(name, _)| name == "authorization");
    assert!(has(&headers(Some("valid-token"), "1.2.3").unwrap()));
    assert!(!has(&headers(Some("   "), "1.2.3").unwrap()));
}

#[test]
fn the_messenger_client_says_what_it_is() {
    assert_eq!(client_version("1.2.3"), "66051");
    assert_eq!(client_version("256.1"), "256");
    assert_eq!(client_version("x.1.999999999999"), "256");
    assert_eq!(base_info("1.2.3").to_text(), r#"{"bot_agent":"Codey/1.2.3","channel_version":"1.2.3"}"#);
    let mut bytes = vec![0u8; 16];
    bytes[3] = 7;
    assert_eq!(wechat_uin(&bytes), STANDARD.encode("7"));
    bytes[0] = 255;
    assert_eq!(wechat_uin(&bytes), STANDARD.encode("4278190087"));
    let uin = String::from_utf8(STANDARD.decode(random_wechat_uin()).unwrap()).unwrap();
    assert!(uin.parse::<u32>().is_ok());
}

#[test]
fn an_answer_with_tokens_has_a_limit() {
    let mut kept = Vec::new();
    assert!(keep_answer_bytes(&mut kept, &vec![1; 262_144]));
    assert!(keep_answer_bytes(&mut kept, &vec![]));
    assert!(!keep_answer_bytes(&mut kept, &vec![1]));
    assert_eq!(kept.len(), 262_144);
}
