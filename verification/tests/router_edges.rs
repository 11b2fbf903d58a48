use codey::digest::Fingerprint;
use codey::ids::{fresh_id, fresh_ids, fresh_plain_id, hyphenated_text};
use codey::json::{parse_text, Json};
use codey::keymap::Key;
use codey::local_router::history::UpstreamWebSocketAuthIdentity;
use codey::local_router::request_log_tap::{
    ProbeEvent, ProjectorRules, RequestLogMetadataProjector, UsageCapture, UsageLimits,
};
use codey::local_router::request_meta::{
    align_routing_hint, align_routing_hint_model, authorized, begin_encoded_json_field, cache_key_of, connection_scoped_header_names,
    ensure_native_prompt_cache_key, ensure_prompt_cache_key, incoming_header, incoming_openai_authorization,
    is_hop_by_hop_header, prepare_upstream_request_headers, request_binding_keys,
    request_is_subagent, request_log_codex_session, rewrite_native_responses_encoded_body,
    should_forward_incoming_header, stable_prompt_cache_key, take_codey_route_metadata,
    valid_codex_session_id, websocket_forward_headers, HeaderFault, OfficialAuth,
};
use codey::local_router::routing::ProtocolBridge;
use codey::local_router::websocket_context::{
    next_peek_length, request_looks_like_responses_websocket, responses_websocket_stream_id,
    upstream_websocket_backoff_duration, Sniffed, UpstreamWebSocketBackoffKey,
    UpstreamWebSocketBackoffs, UpstreamWebSocketLiveness, UpstreamWebSocketMaintenanceAction,
};
use codey::slots::Slots;
use codey::text::{
    comes_before, decimal_text, parse_number, sort_texts, split_text, split_words, text_head,
    trimmed, with_replaced, Sep,
};
use codey::textmap::{TextBox, TextMap};

fn j(text: &str) -> Json {
    parse_text(text).unwrap()
}

fn pairs(list: &[(&str, &str)]) -> Vec<(String, String)> {
    list.iter().map(|(a, b)| (a.to_string(), b.to_string())).collect()
}

#[test]
fn documents_are_read_and_written() {
    let value = j(r#"{"b":[1,-2,2.50,null,true],"a":"x\n"}"#);
    assert_eq!(value.to_text(), r#"{"a":"x\n","b":[1,-2,2.5,null,true]}"#);
    let list = value.get_array("b").unwrap();
    assert_eq!(list[0].as_u64(), Some(1));
    assert_eq!(list[1].as_i64(), Some(-2));
    assert_eq!(list[1].as_u64(), None);
    assert!(list[2].as_u64().is_none() && list[2].as_i64().is_none());
    assert!(value.clone_json().same(&value));
    assert!(Json::Negative(5).same(&Json::unsigned(5)));
    assert_eq!(Json::Negative(5).to_text(), "5");
    assert!(parse_text("{").is_err());
    assert_eq!(
        Json::obj().with("k", Json::unsigned(1)).with("k", Json::unsigned(2)).to_text(),
        r#"{"k":2}"#
    );
    let mut merged = j(r#"{"a":1,"b":2}"#);
    merged.merge(&j(r#"{"b":3}"#));
    assert_eq!(merged.to_text(), r#"{"a":1,"b":3}"#);
    assert_eq!(merged.remove("a").unwrap().as_u64(), Some(1));
    assert!(!merged.has("a"));
}

#[test]
fn texts_are_cut_and_ordered() {
    assert_eq!(trimmed(" \u{3000}a b\t"), "a b");
    assert_eq!(split_text("a,,b", Sep::Char(',')), ["a", "", "b"]);
    assert_eq!(split_words(" a  b\n"), ["a", "b"]);
    assert_eq!(with_replaced("aXbX", "X", "--"), "a--b--");
    assert_eq!(text_head("日本語", 2), "日本");
    assert_eq!(decimal_text(0), "0");
    assert_eq!(decimal_text(u64::MAX), "18446744073709551615");
    assert_eq!(parse_number("+42", 100), Some(42));
    assert_eq!(parse_number("101", 100), None);
    assert_eq!(parse_number("4x", 100), None);
    assert!(comes_before("a", "b") && !comes_before("b", "a") && comes_before("a", "aa"));
    let list = vec!["b".to_string(), "a".to_string(), "é".to_string(), "Z".to_string()];
    let mut expected = list.clone();
    expected.sort();
    assert_eq!(sort_texts(&list), expected);
}

#[test]
fn tables_keep_one_entry_for_a_key() {
    let mut map: TextMap<TextBox> = TextMap::new();
    map.insert("a", TextBox { text: "1".to_string() });
    map.insert("b", TextBox { text: "2".to_string() });
    map.insert("a", TextBox { text: "3".to_string() });
    assert_eq!(map.len(), 2);
    assert_eq!(map.get("a").unwrap().text, "3");
    assert_eq!(map.remove("a").unwrap().text, "3");
    assert!(!map.has("a"));
    let mut slots: Slots<Json> = Slots::new();
    slots.put(5, Json::unsigned(5));
    slots.put(1, Json::unsigned(1));
    slots.put(5, Json::unsigned(6));
    assert_eq!((slots.key_at(0), slots.key_at(1)), (1, 5));
    assert_eq!(slots.get(5).unwrap().as_u64(), Some(6));
    assert_eq!(slots.take(1).unwrap().as_u64(), Some(1));
    assert_eq!(slots.len(), 1);
}

#[test]
fn identifiers_are_fresh() {
    let id = fresh_id("x-");
    assert!(id.starts_with("x-") && id.len() == 38);
    assert_ne!(id, fresh_id("x-"));
    assert_eq!(fresh_ids("y", 3).len(), 3);
    let plain = fresh_plain_id();
    assert_eq!(plain.len(), 32);
    assert_eq!(&plain[12..13], "4");
    let bytes: Vec<u8> = (0..16).collect();
    assert_eq!(hyphenated_text(&bytes), "00010203-0405-0607-0809-0a0b0c0d0e0f");
}

#[test]
fn conversations_are_known_by_their_headers() {
    let headers = pairs(&[("Thread-Id", "t1"), ("session-id", "s1")]);
    let keys = request_binding_keys(&headers);
    assert!(!keys.is_empty() && keys.iter().any(|key| key.contains("t1")));
    assert!(request_binding_keys(&vec![]).is_empty());
    assert!(request_is_subagent(&pairs(&[("X-OpenAI-Subagent", "review")])));
    assert!(!request_is_subagent(&headers));
    assert_eq!(incoming_header(&headers, "THREAD-ID"), Some("t1"));
    assert!(valid_codex_session_id("bad\u{1}id").is_none());
    let (session, _) = request_log_codex_session(&headers);
    assert!(session.is_some());
}

#[test]
fn route_hints_are_taken_out_and_have_to_agree() {
    let mut headers = pairs(&[("x-codex-turn-metadata", r#"{"codey_route":"a"}"#)]);
    let mut body = j(r#"{"client_metadata":{"codey_route":"a","other":1}}"#);
    let (hint, changed) = take_codey_route_metadata(&mut headers, &mut body).unwrap();
    assert_eq!(hint.as_deref(), Some("a"));
    assert!(changed);
    assert!(!body.to_text().contains("codey_route"));
    let (again, changed) = take_codey_route_metadata(&mut headers, &mut body).unwrap();
    assert!(again.is_none() && !changed);
    assert_eq!(headers, pairs(&[("x-codex-turn-metadata", "{}")]));
    assert_eq!(body.to_text(), r#"{"client_metadata":{"other":1}}"#);
    let nested = r#"{"client_metadata":{"x-codex-turn-metadata":"{\"codey_route\":\" b \",\"t\":0.1}"}}"#;
    let mut body = j(nested);
    let (hint, changed) = take_codey_route_metadata(&mut vec![], &mut body).unwrap();
    assert!(hint.as_deref() == Some("b") && changed);
    let (again, changed) = take_codey_route_metadata(&mut vec![], &mut body).unwrap();
    assert!(again.is_none() && !changed);
    let mut headers = pairs(&[("x-codex-turn-metadata", r#"{"codey_route":"a"}"#)]);
    let mut body = j(r#"{"client_metadata":{"codey_route":"b"}}"#);
    assert!(take_codey_route_metadata(&mut headers, &mut body).is_err());
    let (none, changed) = take_codey_route_metadata(&mut vec![], &mut j("{}")).unwrap();
    assert!(none.is_none() && !changed);
    // The key for raw values does no harm beside another one.
    let kept = r#"{"codey_route":"a","$serde_json::private::RawValue":"{\"codey_route\":\"b\"}","t":1}"#;
    let mut headers = pairs(&[("x-codex-turn-metadata", kept)]);
    let (hint, _) = take_codey_route_metadata(&mut headers, &mut j("{}")).unwrap();
    assert_eq!(hint.as_deref(), Some("a"));
    let (again, _) = take_codey_route_metadata(&mut headers, &mut j("{}")).unwrap();
    assert!(again.is_none());
    // Alone, it is read as the document in its text.
    let hidden = r#"{"codey_route":"a","$serde_json::private::RawValue":"{\"codey_route\":\"b\"}"}"#;
    let mut headers = pairs(&[("x-codex-turn-metadata", hidden)]);
    let (hint, _) = take_codey_route_metadata(&mut headers, &mut j("{}")).unwrap();
    assert_eq!(hint.as_deref(), Some("a"));
    let (again, _) = take_codey_route_metadata(&mut headers, &mut j("{}")).unwrap();
    assert_eq!(again.as_deref(), Some("b"));
}

#[test]
fn credentials_of_the_router_are_not_forwarded() {
    assert!(is_hop_by_hop_header("Connection"));
    assert!(!should_forward_incoming_header("authorization", false));
    assert!(!should_forward_incoming_header("x-codey-router-token", true));
    assert!(should_forward_incoming_header("user-agent", false));
    let headers = pairs(&[("connection", "close, X-Extra"), ("x-extra", "1"), ("x-keep", "2")]);
    assert!(connection_scoped_header_names(&headers).contains(&"x-extra".to_string()));
    let forwarded = websocket_forward_headers(&headers);
    assert_eq!(forwarded, pairs(&[("x-keep", "2")]));
    assert!(authorized(&pairs(&[("x-codey-router-token", " tok ")]), "tok", "Bearer tok"));
    assert!(authorized(&pairs(&[("Authorization", "Bearer tok")]), "tok", "Bearer tok"));
    assert!(!authorized(&pairs(&[("Authorization", "Bearer other")]), "tok", "Bearer tok"));
    let own = pairs(&[("authorization", "Bearer user")]);
    assert_eq!(incoming_openai_authorization(&own, "Bearer tok"), Some("Bearer user"));
    assert_eq!(
        incoming_openai_authorization(&pairs(&[("authorization", "Bearer tok")]), "Bearer tok"),
        None
    );
}

#[test]
fn upstream_headers_are_prepared() {
    let client = pairs(&[
        ("User-Agent", "codex"),
        ("Authorization", "Bearer tok"),
        ("x-bad name", "v"),
        ("x-control", "a\u{1}b"),
    ]);
    let route = Ok(pairs(&[("x-api-key", "k"), ("user-agent", "")]));
    let sent = prepare_upstream_request_headers(&client, &route, false, Some("req"), None).unwrap();
    assert!(sent.iter().any(|(name, value)| name == "x-api-key" && value == "k"));
    assert!(sent.iter().all(|(name, value)| name != "authorization" && value != "Bearer tok"));
    assert!(sent.iter().all(|(name, _)| name != "x-bad name" && name != "x-control"));
    let broken = Err("bad header".to_string());
    let fault = prepare_upstream_request_headers(&client, &broken, false, None, None).unwrap_err();
    assert!(matches!(fault, HeaderFault::Configuration(_)));
    let fault =
        prepare_upstream_request_headers(&client, &Ok(vec![]), true, None, None).unwrap_err();
    assert!(matches!(fault, HeaderFault::AuthMissing));
    assert_eq!(fault.status(), 401);
    let auth = OfficialAuth {
        authorization: "Bearer official".to_string(),
        account_id: Some("acct".to_string()),
    };
    let sent =
        prepare_upstream_request_headers(&client, &Ok(vec![]), true, None, Some(auth)).unwrap();
    assert!(sent.contains(&("authorization".to_string(), "Bearer official".to_string())));
    let bad = OfficialAuth { authorization: "Bearer\n".to_string(), account_id: None };
    let fault =
        prepare_upstream_request_headers(&client, &Ok(vec![]), true, None, Some(bad)).unwrap_err();
    assert!(matches!(fault, HeaderFault::AuthInvalid));
}

#[test]
fn a_conversation_has_one_cache_key() {
    let digest = Fingerprint { bytes: (0..32).collect() };
    assert_eq!(cache_key_of(&digest), "00010203-0405-4607-8809-0a0b0c0d0e0f");
    let headers = pairs(&[("thread-id", "t1")]);
    let key = stable_prompt_cache_key("r", "https://u", "m", &headers);
    assert_eq!(key, stable_prompt_cache_key("r", "https://u", "m", &headers));
    assert_ne!(key, stable_prompt_cache_key("r", "https://u", "n", &headers));
    assert_eq!(key.len(), 36);
    assert_eq!(&key[14..15], "4");
    assert!(["8", "9", "a", "b"].contains(&&key[19..20]));
    let mut sent = headers.clone();
    assert!(ensure_native_prompt_cache_key(&mut sent, &j("{}"), "r", "https://u", "m"));
    assert!(sent.len() > headers.len());
    let mut own = headers.clone();
    assert!(!ensure_native_prompt_cache_key(
        &mut own,
        &j(r#"{"prompt_cache_key":"mine"}"#),
        "r",
        "https://u",
        "m"
    ));
    assert_eq!(own, headers);
}

#[test]
fn encoded_bodies_are_rewritten_in_place() {
    let fields = pairs(&[("model", "\"old\""), ("input", "[ 1 ]")]);
    let text =
        rewrite_native_responses_encoded_body(&fields, &j(r#"{"model":"new","input":[1]}"#)).unwrap();
    assert_eq!(text, r#"{"model":"new","input":[ 1 ]}"#);
    assert_eq!(begin_encoded_json_field("a", "1"), r#""a":1"#);
}

#[test]
fn routing_hints_name_the_upstream_model() {
    assert_eq!(align_routing_hint("model=alias;tier=fast", "m"), "model=m;tier=fast");
    assert_eq!(align_routing_hint("tier=fast; model=a ;model=b", "m"), "tier=fast;model=m;model=m");
    assert_eq!(align_routing_hint("x", "m"), "x");
    let line = |value: &str| pairs(&[("a", "1"), ("X-Codex-Routing-Hint", value), ("b", "2")]);
    let rest = pairs(&[("a", "1"), ("b", "2")]);
    let mut headers = rest.clone();
    align_routing_hint_model(&mut headers, "m");
    assert_eq!(headers, rest);
    let mut headers = line("model=alias;tier=fast");
    align_routing_hint_model(&mut headers, "m");
    assert_eq!(
        headers,
        pairs(&[("a", "1"), ("b", "2"), ("x-codex-routing-hint", "model=m;tier=fast")])
    );
    let mut headers = line("model=m");
    align_routing_hint_model(&mut headers, "m");
    assert_eq!(headers, line("model=m"));
    let mut headers = line("model=模型");
    align_routing_hint_model(&mut headers, "m");
    assert_eq!(headers, rest);
    let mut headers = line("model=alias");
    align_routing_hint_model(&mut headers, "m\n");
    assert_eq!(headers, rest);
}

#[test]
fn only_native_routes_get_a_cache_key() {
    for (bridge, lines) in [
        (ProtocolBridge::NativeResponses, 1),
        (ProtocolBridge::ResponsesToChatCompletions, 0),
        (ProtocolBridge::ResponsesToAnthropicMessages, 0),
    ] {
        let mut headers = vec![];
        ensure_prompt_cache_key(&mut headers, bridge, &j("{}"), "r", "https://u", "m");
        assert_eq!(headers.len(), lines);
    }
    let mut headers = vec![];
    let body = j(r#"{"prompt_cache_key":"k"}"#);
    let native = ProtocolBridge::NativeResponses;
    ensure_prompt_cache_key(&mut headers, native, &body, "r", "https://u", "m");
    assert!(headers.is_empty());
}

#[test]
fn sockets_are_told_from_requests() {
    let socket = b"GET /v1/responses HTTP/1.1\r\nHost: x\r\nUpgrade: websocket\r\nConnection: Upgrade\r\n\r\n";
    assert!(matches!(
        request_looks_like_responses_websocket(&socket.to_vec()),
        Sniffed::Socket
    ));
    assert!(matches!(
        request_looks_like_responses_websocket(&b"POST /v1/responses HTTP/1.1\r\n\r\n".to_vec()),
        Sniffed::Request
    ));
    assert!(matches!(
        request_looks_like_responses_websocket(&b"GET /v1/resp".to_vec()),
        Sniffed::Unknown
    ));
    // Header lines end with a return and a line feed.
    let bare = b"GET /v1/responses HTTP/1.1\r\nHost: x\nUpgrade: websocket\nConnection: Upgrade\r\n\r\n";
    assert!(matches!(
        request_looks_like_responses_websocket(&bare.to_vec()),
        Sniffed::Request
    ));
    assert!(next_peek_length(1024).unwrap() > 1024);
    assert_eq!(next_peek_length(65_536), Some(65_540));
    assert_eq!(next_peek_length(65_540), None);
    assert_eq!(
        responses_websocket_stream_id(&j(r#"{"stream_id":"s"}"#)).unwrap().as_deref(),
        Some("s")
    );
    assert!(responses_websocket_stream_id(&j(r#"{"stream_id":5}"#)).is_err());
}

#[test]
fn idle_sockets_are_asked_and_then_dropped() {
    let mut liveness = UpstreamWebSocketLiveness::new(0);
    assert_eq!(liveness.maintenance_deadline(), 25_000);
    assert_eq!(liveness.maintenance_action(24_999), UpstreamWebSocketMaintenanceAction::Wait);
    assert_eq!(liveness.maintenance_action(25_000), UpstreamWebSocketMaintenanceAction::SendPing);
    liveness.record_heartbeat_sent(25_000);
    assert_eq!(liveness.maintenance_action(34_999), UpstreamWebSocketMaintenanceAction::Wait);
    assert_eq!(liveness.maintenance_action(35_000), UpstreamWebSocketMaintenanceAction::Drop);
    liveness.record_pong(30_000);
    assert_eq!(liveness.maintenance_action(35_000), UpstreamWebSocketMaintenanceAction::Wait);
    liveness.record_activity(3_299_000);
    assert_eq!(liveness.maintenance_action(3_300_000), UpstreamWebSocketMaintenanceAction::Drop);
}

fn backoff_key(route: &str) -> UpstreamWebSocketBackoffKey {
    UpstreamWebSocketBackoffKey {
        route_id: route.to_string(),
        url: "wss://u".to_string(),
        authorization: None,
        account_id: None,
        config_identity: Fingerprint { bytes: vec![0; 32] },
    }
}

#[test]
fn failed_sockets_are_left_alone_for_a_while() {
    let mut backoffs = UpstreamWebSocketBackoffs::new();
    let key = backoff_key("a");
    assert!(!backoffs.is_backing_off(&key, 0));
    let (count, pause) = backoffs.record_failure(&key, 1000);
    assert_eq!(count, 1);
    assert_eq!(pause, upstream_websocket_backoff_duration(1));
    assert!(backoffs.is_backing_off(&key, 1000));
    assert!(!backoffs.is_backing_off(&key, 1000 + pause));
    let (count, longer) = backoffs.record_failure(&key, 1000 + pause);
    assert_eq!(count, 2);
    assert!(longer >= pause);
    assert!(upstream_websocket_backoff_duration(1000) <= 60_000);
    backoffs.record_success(&key);
    assert!(!backoffs.is_backing_off(&key, 1001));
    backoffs.record_unsupported(&key, 0);
    assert!(backoffs.is_backing_off(&key, 3_599_999));
    let other = backoff_key("b");
    let probe = backoffs.acquire_probe(&other, 0).unwrap();
    assert!(backoffs.acquire_probe(&other, 0).is_none());
    backoffs.release_probe(&other, probe);
    assert!(backoffs.acquire_probe(&other, 0).is_some());
    assert!(key.same(&backoff_key("a")) && !key.same(&other));
    let auth = UpstreamWebSocketAuthIdentity::from_headers(&pairs(&[("authorization", "Bearer x")]));
    assert!(auth.authorization.is_some() && auth.account_id.is_none());
}

fn limits() -> UsageLimits {
    UsageLimits { key_bytes: 64, scalar_bytes: 32, nesting_depth: 8 }
}

#[test]
fn usage_is_read_from_a_stream() {
    let mut capture = UsageCapture::new(limits());
    let mut done = false;
    // The capture begins behind the opening brace.
    for byte in br#""input_tokens":12,"output_tokens":3,"input_tokens_details":{"cached_tokens":2},"note":"x"}"# {
        done = capture.observe_byte(*byte).unwrap();
    }
    assert!(done);
    let usage = capture.into_value();
    assert_eq!(usage.get_u64("input_tokens"), Some(12));
    assert_eq!(usage.get_u64("output_tokens"), Some(3));
}

#[test]
fn metadata_is_projected_however_it_is_cut() {
    let stream = b"data: {\"type\":\"response.output_text.delta\",\"delta\":\"hi\"}\n\ndata: {\"type\":\"response.completed\",\"response\":{\"status\":\"completed\",\"usage\":{\"input_tokens\":4,\"output_tokens\":2}}}\n\n";
    let rules = ProjectorRules {
        limits: limits(),
        content_types: vec!["response.output_text.delta".to_string()],
    };
    for size in [1, 5, 1000] {
        let mut projector = RequestLogMetadataProjector::new();
        for chunk in stream.chunks(size) {
            projector.observe(chunk, &rules).unwrap();
        }
        let usage = projector
            .told
            .iter()
            .find_map(|event| match event {
                ProbeEvent::Usage(told) => told.get("usage").unwrap().get_u64("input_tokens"),
                _ => None,
            });
        assert_eq!(usage, Some(4));
        assert!(projector.told.iter().any(|event| matches!(event, ProbeEvent::FirstContent)));
    }
}

#[test]
fn a_fault_is_met_at_the_same_byte_however_the_stream_is_cut() {
    let stream = b"{\"status\":\"completed\",\"usage\":{\"input_tokens\":x},\"code\":1}";
    let rules = ProjectorRules { limits: limits(), content_types: vec![] };
    let mut told = Vec::new();
    for size in [1, 7, 1000] {
        let mut projector = RequestLogMetadataProjector::new();
        let fault = stream.chunks(size).find_map(|chunk| projector.observe(chunk, &rules).err());
        assert_eq!(fault.unwrap().label(), "usage_projection_failed");
        assert!(projector.usage.is_some());
        told.push(format!("{:?}", projector.told));
    }
    assert_eq!(told[0], told[1]);
    assert_eq!(told[0], told[2]);
    assert!(told[0].contains("completed"));
}

#[test]
fn keys_and_scalars_end_with_what_they_were_read_as() {
    let mut capture = UsageCapture::new(limits());
    assert!(capture.end_key(None).is_err());
    assert!(capture.end_key(Some(&j("3"))).is_err());
    capture.end_key(Some(&j(r#""prompt_tokens""#))).unwrap();
    for byte in b":7" {
        assert_eq!(capture.observe_byte(*byte), Ok(false));
    }
    assert!(capture.end_scalar(None).is_err());
    capture.end_scalar(Some(&j("7"))).unwrap();
    assert_eq!(capture.observe_byte(b'}'), Ok(true));
    assert_eq!(capture.into_value().get_u64("input_tokens"), Some(7));
}

#[test]
fn the_better_spelling_of_a_number_wins() {
    let text = br#" "prompt_tokens" : 5 , "x":[{"input_tokens":9},"]"], "input_tokens":12, "inputTokens":7,
        "output_tokens":1,"output_tokens":2,"prompt_tokens_details":{"cached_tokens":4} }"#;
    let mut capture = UsageCapture::new(limits());
    for (i, byte) in text.iter().enumerate() {
        assert_eq!(capture.observe_byte(*byte), Ok(i + 1 == text.len()));
    }
    let usage = capture.into_value();
    assert_eq!(usage.get_u64("input_tokens"), Some(12));
    assert_eq!(usage.get_u64("output_tokens"), Some(2));
    assert_eq!(usage.get("input_tokens_details").unwrap().get_u64("cached_tokens"), Some(4));
}
