use codey::digest::Fingerprint;
use codey::json::{parse_text, Json};
use codey::local_router::bindings::{CompactionGuard, RouteBindings};
use codey::local_router::chat_request::{
    responses_to_chat_completions_request, ChatConversions,
};
use codey::local_router::compaction::{
    validate_compaction_result, CompactionAccumulator, MAX_REQUEST_BYTES,
};
use codey::local_router::errors::{
    check_context_length_error, is_context_length_error, Failure,
};
use codey::local_router::history::{
    native_history_key, NativeResponsesHistory, UpstreamWebSocketAuthIdentity,
};
use codey::local_router::output_limit::ensure_omitted_reasoning_output_limit;
use codey::local_router::resource_budget::{
    MemoryPool, RetainedMemoryBudget, REQUEST_BODY_BUDGET_UNIT_BYTES,
};
use codey::local_router::routing::{
    ProtocolBridge, RouteInput, RouterConfig, RouterSnapshot, UpstreamProtocol,
};
use codey::local_router::sse::{parse_sse_frames, SseFrameAccumulator};
use codey::local_router::sse_anthropic::{
    parse_anthropic_message_sse_bytes, read_anthropic_message, AnthropicSseAccumulator,
};
use codey::local_router::sse_chat::{
    parse_chat_completion_sse_bytes, read_chat_completion, ChatSseAccumulator,
};
use codey::textmap::TextMap;

fn j(text: &str) -> Json {
    parse_text(text).unwrap()
}

fn output_limit(model: &str, effort: &str, bridge: ProtocolBridge) -> Option<u64> {
    let mut body = Json::obj()
        .with("model", Json::str(model))
        .with("reasoning", Json::obj().with("effort", Json::str(effort)));
    if ensure_omitted_reasoning_output_limit(&mut body, "maker", bridge) {
        Some(body.get_u64("max_output_tokens").unwrap())
    } else {
        None
    }
}

#[test]
fn high_effort_requests_fill_a_model_capped_output_limit() {
    let native = ProtocolBridge::NativeResponses;
    let chat = ProtocolBridge::ResponsesToChatCompletions;
    let messages = ProtocolBridge::ResponsesToAnthropicMessages;
    let cases = [
        ("maker-opus-5", "high", native, Some(64_000)),
        ("maker-opus-5", "ULTRA", chat, Some(64_000)),
        ("maker-opus-5", "xhigh", messages, Some(64_000)),
        ("maker-opus-5", "max", native, Some(64_000)),
        ("maker-opus-5[1m]", "high", native, Some(64_000)),
        ("relay/maker-opus-5", "high", chat, Some(64_000)),
        ("maker-opus-4-20250514", "high", native, Some(32_000)),
        ("maker-opus-4-1-20250805", "high", messages, Some(32_000)),
        ("maker-opus-4.5", "high", chat, Some(64_000)),
        ("maker-sonnet-4-6", "high", native, Some(64_000)),
        ("maker-3-7-sonnet-20250219", "high", messages, Some(64_000)),
        ("maker-haiku-4-5", "high", chat, Some(64_000)),
        ("maker-3-5-sonnet-20241022", "high", messages, None),
        ("maker-3-opus-20240229", "ultra", native, None),
        ("maker-opus-5", "medium", messages, None),
        ("maker-opus-5", "low", native, None),
        ("maker-opus-5", "minimal", chat, None),
        ("gpt-5.4", "high", native, None),
        ("gpt-5.4", "high", chat, None),
        ("deepseek-v4-pro", "xhigh", chat, None),
        ("gpt-5.4", "high", messages, Some(64_000)),
    ];
    for (model, effort, bridge, expected) in cases {
        assert_eq!(output_limit(model, effort, bridge), expected, "{model} {effort}");
    }
}

fn plain_conversions(messages: Vec<Json>) -> ChatConversions {
    ChatConversions {
        messages,
        tools: None,
        web_search_options: None,
        web_search_tool_seen: false,
        response_format: Ok(Json::null()),
        tool_choice: Ok(Json::null()),
        function_call: Ok(Json::null()),
    }
}

#[test]
fn an_explicit_output_limit_and_a_top_level_effort_keep_their_meaning() {
    let mut explicit = j(
        r#"{"model":"maker-opus-5","reasoning":{"effort":"ultra"},"max_output_tokens":2048}"#,
    );
    assert!(!ensure_omitted_reasoning_output_limit(
        &mut explicit,
        "maker",
        ProtocolBridge::ResponsesToAnthropicMessages
    ));
    assert_eq!(explicit.get_u64("max_output_tokens"), Some(2048));

    let mut top_level =
        j(r#"{"model":"maker-sonnet-4-6","reasoning_effort":"high","input":"hi"}"#);
    assert!(ensure_omitted_reasoning_output_limit(
        &mut top_level,
        "maker",
        ProtocolBridge::ResponsesToChatCompletions
    ));
    let chat = responses_to_chat_completions_request(
        &top_level,
        plain_conversions(vec![j(r#"{"role":"user","content":"hi"}"#)]),
    )
    .unwrap();
    assert_eq!(chat.get_u64("max_tokens"), Some(64_000));
}

#[test]
fn compaction_guard_releases_on_failure_and_serializes_overlapping_sessions() {
    let mut bindings = RouteBindings::new();
    let guard = CompactionGuard::acquire(
        &mut bindings,
        vec!["thread:a".to_string(), "session:a".to_string()],
    )
    .unwrap();
    assert!(CompactionGuard::acquire(&mut bindings, vec!["session:a".to_string()]).is_err());
    let other =
        CompactionGuard::acquire(&mut bindings, vec!["thread:b".to_string()]).unwrap();
    guard.release(&mut bindings);
    let again = CompactionGuard::acquire(&mut bindings, vec!["thread:a".to_string()]).unwrap();
    again.release(&mut bindings);
    other.release(&mut bindings);
    assert!(bindings.compacting.is_empty());
}

#[test]
fn compaction_candidate_requires_complete_single_nonempty_snapshot() {
    let valid = j(
        r#"{"status":"completed","output":[{"type":"compaction","encrypted_content":"opaque"}]}"#,
    );
    assert!(validate_compaction_result(&valid, true).is_ok());
    for invalid in [
        r#"{"output":[]}"#,
        r#"{"status":"incomplete","output":[{"type":"compaction","encrypted_content":"opaque"}]}"#,
        r#"{"status":"completed","output":[{"type":"compaction","encrypted_content":""}]}"#,
        r#"{"status":"completed","output":[{"type":"compaction","encrypted_content":"opaque"},{"type":"compaction","encrypted_content":"opaque"}]}"#,
        r#"{"status":"completed","output":[{"type":"message","content":"summary"}]}"#,
    ] {
        assert!(validate_compaction_result(&j(invalid), true).is_err());
    }
    let mut accumulator = CompactionAccumulator::new();
    assert!(parse_sse_frames(&b"data: [DONE]\n\n".to_vec(), &mut accumulator).is_err());
    assert!(!accumulator.finished());
    let failure = r#"{"type":"response.failed","response":{"error":{"code":"context_length_exceeded"}}}"#;
    assert!(matches!(
        accumulator.ingest_frame(failure, false),
        Err(Failure::ContextLength)
    ));
    let item = Json::obj()
        .with("type", Json::str("compaction"))
        .with("encrypted_content", Json::string("x".repeat(MAX_REQUEST_BYTES)));
    let oversized = Json::obj()
        .with("status", Json::str("completed"))
        .with("output", Json::array(vec![item]));
    assert!(validate_compaction_result(&oversized, true).is_err());
}

fn item_event(kind: &str, index: u64, item: &Json) -> String {
    Json::obj()
        .with("type", Json::str(kind))
        .with("output_index", Json::unsigned(index))
        .with("item", item.clone_json())
        .to_text()
}

#[test]
fn compaction_sse_restores_done_items_only_after_successful_completion() {
    let item = j(r#"{"type":"compaction","encrypted_content":"opaque"}"#);
    let message = j(r#"{"type":"message","role":"user","content":[]}"#);
    for response in [r#"{"id":"resp"}"#, r#"{"id":"resp","output":[]}"#] {
        let mut accumulator = CompactionAccumulator::new();
        for (index, value) in [(1, &item), (0, &message)] {
            accumulator
                .ingest_frame(&item_event("response.output_item.done", index, value), false)
                .unwrap();
        }
        assert!(!accumulator.finished());
        let completed = Json::obj()
            .with("type", Json::str("response.completed"))
            .with("response", j(response));
        accumulator.ingest_frame(&completed.to_text(), false).unwrap();
        let result = accumulator.response.unwrap();
        assert_eq!(result.get_str("status"), Some("completed"));
        let expected = Json::array(vec![message.clone_json(), item.clone_json()]);
        assert!(result.get("output").unwrap().same(&expected));
    }
    let done = "response.output_item.done";
    for (event_type, items, terminal) in [
        (
            "response.output_item.added",
            vec![item.clone_json()],
            r#"{"type":"response.completed","response":{"output":[]}}"#,
        ),
        (
            done,
            vec![item.clone_json(), item.clone_json()],
            r#"{"type":"response.completed","response":{"output":[]}}"#,
        ),
        (
            done,
            vec![j(r#"{"type":"compaction","encrypted_content":""}"#)],
            r#"{"type":"response.completed","response":{"output":[]}}"#,
        ),
        (
            done,
            vec![item.clone_json()],
            r#"{"type":"response.incomplete","response":{}}"#,
        ),
        (
            done,
            vec![item.clone_json()],
            r#"{"type":"response.completed","response":null}"#,
        ),
        (
            done,
            vec![item.clone_json()],
            r#"{"type":"response.completed","response":{"output":[{"type":"message","role":"user","content":[]}]}}"#,
        ),
    ] {
        let mut accumulator = CompactionAccumulator::new();
        for (index, value) in items.iter().enumerate() {
            accumulator
                .ingest_frame(&item_event(event_type, index as u64, value), false)
                .unwrap();
        }
        assert!(accumulator.ingest_frame(terminal, false).is_err());
        assert!(!accumulator.finished());
    }
    let mut accumulator = CompactionAccumulator::new();
    accumulator
        .ingest_frame(
            r#"{"type":"response.completed","response":{"output":[{"type":"compaction","encrypted_content":"opaque"}]}}"#,
            false,
        )
        .unwrap();
    assert!(accumulator.finished());
}

#[test]
fn compaction_sse_rejects_conflicting_or_missing_output_items() {
    let item = j(r#"{"type":"compaction","encrypted_content":"opaque"}"#);
    let done = |index: u64, item: &Json| item_event("response.output_item.done", index, item);
    let complete = r#"{"type":"response.completed","response":{"output":[]}}"#;
    let mut duplicate = CompactionAccumulator::new();
    duplicate.ingest_frame(&done(0, &item), false).unwrap();
    duplicate.ingest_frame(&done(0, &item), false).unwrap();
    assert!(duplicate
        .ingest_frame(&done(0, &j(r#"{"type":"message"}"#)), false)
        .is_err());
    let mut missing = CompactionAccumulator::new();
    missing.ingest_frame(&done(1, &item), false).unwrap();
    assert!(missing.ingest_frame(complete, false).is_err());
    let mut unfinished = CompactionAccumulator::new();
    unfinished.ingest_frame(&done(0, &item), false).unwrap();
    unfinished
        .ingest_frame(
            r#"{"type":"response.output_item.added","output_index":1,"item":{"type":"message"}}"#,
            false,
        )
        .unwrap();
    assert!(unfinished.ingest_frame(complete, false).is_err());
}

#[test]
fn compaction_context_errors_survive_json_and_stream_adapters() {
    for error in [
        r#"{"error":{"code":"context_length_exceeded","message":"limit"}}"#,
        r#"{"type":"error","error":{"type":"invalid_request_error","message":"prompt is too long: 100 > 50"}}"#,
    ] {
        let error = j(error);
        assert!(matches!(check_context_length_error(&error), Err(Failure::ContextLength)));
        assert!(matches!(
            ChatSseAccumulator::new("id", 0, "model").ingest(&error),
            Err(Failure::ContextLength)
        ));
        assert!(matches!(
            AnthropicSseAccumulator::new("id", "model").ingest(&error),
            Err(Failure::ContextLength)
        ));
        assert!(matches!(read_chat_completion(&error), Err(Failure::ContextLength)));
        assert!(matches!(read_anthropic_message(&error), Err(Failure::ContextLength)));
    }
    assert!(!is_context_length_error(&j(
        r#"{"error":{"message":"image too large","code":"invalid_request_error"}}"#
    )));
}

fn print(byte: u8) -> Fingerprint {
    Fingerprint { bytes: vec![byte; 32] }
}

fn tool_call(custom: bool, id: &str) -> Json {
    let call = if custom {
        j(r#"{"type":"custom_tool_call","name":"run","input":"pwd"}"#)
    } else {
        j(r#"{"type":"function_call","name":"run","arguments":"{}"}"#)
    };
    call.with("call_id", Json::str(id))
}

fn tool_result(custom: bool, id: &str) -> Json {
    let kind = if custom { "custom_tool_call_output" } else { "function_call_output" };
    Json::obj()
        .with("type", Json::str(kind))
        .with("call_id", Json::str(id))
        .with("output", Json::str("done"))
}

fn with_input(items: Vec<Json>) -> Json {
    Json::obj().with("input", Json::array(items))
}

#[test]
fn native_history_rejects_missing_output_identity_changes_and_orphan_results() {
    for custom in [false, true] {
        let call = || tool_call(custom, "call-1");
        let result = |id: &str| tool_result(custom, id);
        let mut history = NativeResponsesHistory::new();
        let key = print(1);
        history.prepare(&key, &j(r#"{"input":"task"}"#));
        history.observe(
            &Json::obj().with("type", Json::str("response.completed")).with(
                "response",
                Json::obj()
                    .with("id", Json::str("resp-known"))
                    .with("object", Json::str("response"))
                    .with("status", Json::str("completed"))
                    .with("output", Json::array(vec![call()])),
            ),
        );
        let mut next = with_input(vec![result("call-1")])
            .with("previous_response_id", Json::str("resp-known"));
        history.prepare(&key, &next);
        assert!(history.restore(&print(2), &mut next).is_err());
        assert_eq!(next.get_str("previous_response_id"), Some("resp-known"));
        assert!(history.restore(&key, &mut next).unwrap());
        assert_eq!(next.get_array("input").unwrap().len(), 3);
        history.observe(&j(
            r#"{"type":"response.completed","response":{"id":"resp-no-output","status":"completed"}}"#,
        ));
        let mut next = with_input(vec![result("call-1")])
            .with("previous_response_id", Json::str("resp-no-output"));
        history.prepare(&key, &next);
        assert!(history.restore(&key, &mut next).is_err());
        let mut orphan = with_input(vec![result("missing-call")]);
        history.prepare(&key, &orphan);
        assert!(history.restore(&key, &mut orphan).is_err());
    }
}

fn route(websockets: bool, headers: Vec<(String, String)>) -> RouteInput {
    let base = "http://127.0.0.1:9/v1";
    RouteInput {
        provider_id: "provider".to_string(),
        name: "Provider".to_string(),
        enabled: true,
        official_account: false,
        base_url: base.to_string(),
        protocol: UpstreamProtocol::OpenAiResponses,
        upstream_url: Ok(format!("{base}/responses")),
        upstream_compact_url: Ok(format!("{base}/responses/compact")),
        upstream_websocket_url: Ok("ws://127.0.0.1:9/v1/responses".to_string()),
        upstream_headers: Ok(headers),
        upstream_authority: "127.0.0.1:9".to_string(),
        supports_websockets: websockets,
        supports_remote_compaction: false,
        supports_auto_review: false,
        models: vec!["model".to_string()],
    }
}

fn snapshot(route: RouteInput) -> RouterSnapshot {
    RouterSnapshot::from_config(RouterConfig {
        routes: vec![route],
        official_account_available: false,
        model_alias_history: TextMap::new(),
        default_model: String::new(),
    })
}

#[test]
fn native_history_identity_ignores_ws_toggle_but_tracks_model_and_credentials() {
    let initial = snapshot(route(true, vec![]));
    let body = j(r#"{"model":"model"}"#);
    let auth = UpstreamWebSocketAuthIdentity { authorization: None, account_id: None };
    let key = native_history_key(initial.routes.get("provider").unwrap(), &auth, &body);
    let updated = snapshot(route(false, vec![]));
    let target = updated.routes.get("provider").unwrap();
    assert_eq!(key.bytes, native_history_key(target, &auth, &body).bytes);
    let other_model = j(r#"{"model":"other"}"#);
    assert_ne!(key.bytes, native_history_key(target, &auth, &other_model).bytes);
    let other_auth = UpstreamWebSocketAuthIdentity {
        authorization: None,
        account_id: Some(print(9)),
    };
    assert_ne!(key.bytes, native_history_key(target, &other_auth, &body).bytes);
    let changed = snapshot(route(
        false,
        vec![("x-tenant".to_string(), "another-tenant".to_string())],
    ));
    assert_ne!(
        key.bytes,
        native_history_key(changed.routes.get("provider").unwrap(), &auth, &body).bytes
    );
}

#[test]
fn retained_budget_is_shared_and_released_on_error_and_drop() {
    let mut pool = MemoryPool { available: 4 };
    let mut first = RetainedMemoryBudget::new();
    let mut second = RetainedMemoryBudget::new();
    first.resize(&mut pool, REQUEST_BODY_BUDGET_UNIT_BYTES).unwrap();
    assert!(second.resize(&mut pool, 1).is_err());
    assert_eq!(pool.available, 0);
    first.release(&mut pool);
    second.resize(&mut pool, 1).unwrap();
    second.resize(&mut pool, 0).unwrap();
    assert_eq!(pool.available, 4);
}

#[test]
fn sse_eof_requires_semantic_completion_but_not_a_transport_marker() {
    let chat = "data: {\"choices\":[{\"index\":0,\"delta\":{\"content\":\"hello\"}}]}\n\n";
    let anthropic = "data: {\"type\":\"content_block_delta\",\"index\":0,\"delta\":{\"type\":\"text_delta\",\"text\":\"hello\"}}\n\n";
    assert!(parse_chat_completion_sse_bytes(&chat.as_bytes().to_vec(), 0, "model").is_err());
    assert!(
        parse_anthropic_message_sse_bytes(&anthropic.as_bytes().to_vec(), "model").is_err()
    );
    for ending in [
        "data: [DONE]",
        "data: {\"choices\":[{\"index\":0,\"finish_reason\":\"stop\"}]}",
    ] {
        let bytes = format!("{chat}{ending}").into_bytes();
        assert!(parse_chat_completion_sse_bytes(&bytes, 0, "model").is_ok());
    }
    for ending in [
        "data: {\"type\":\"message_stop\"}",
        "data: {\"type\":\"message_delta\",\"delta\":{\"stop_reason\":\"end_turn\"}}",
    ] {
        let bytes = format!("{anthropic}{ending}").into_bytes();
        assert!(parse_anthropic_message_sse_bytes(&bytes, "model").is_ok());
    }
    let bytes =
        format!("{chat}data: {{\"choices\":[{{\"index\":1,\"finish_reason\":\"stop\"}}]}}\n\n")
            .into_bytes();
    assert!(parse_chat_completion_sse_bytes(&bytes, 0, "model").is_err());
}

#[test]
fn numbers_are_compared_by_their_values() {
    assert!(j("[0.0]").same(&j("[-0.0]")));
    assert!(j("1e2").same(&j("100.0")));
    assert!(!j("100").same(&j("100.0")));
    assert!(!j("0.5").same(&j("0.25")));
    assert!(j(r#"{"a":1,"b":[true]}"#).same(&j(r#"{"b":[true],"a":1}"#)));
    assert!(!j(r#"{"a":1}"#).same(&j(r#"{"a":1,"b":null}"#)));
}

#[test]
fn documents_are_read_as_they_were_written() {
    let text = r#"{"a":["\u0000\"é😀",18446744073709551615,-9223372036854775808,null],"b":{"":true}}"#;
    let document = j(text);
    assert!(j(&document.to_text()).same(&document));
    let mut pretty = document.to_pretty().unwrap();
    pretty.push(b'\n');
    assert!(parse_text(std::str::from_utf8(&pretty).unwrap()).unwrap().same(&document));
    let deep = |levels: usize| format!("{}{}", "[".repeat(levels), "]".repeat(levels));
    assert!(parse_text(&deep(127)).is_ok());
    assert!(parse_text(&deep(128)).is_err());
    // The key that serde_json keeps for raw values is read as the document in its text.
    assert!(j(r#"{"$serde_json::private::RawValue":"[1]"}"#).same(&j("[1]")));
    let alone = Json::obj().with("$serde_json::private::RawValue", Json::str("[1]"));
    assert!(parse_text(&alone.to_text()).unwrap().same(&j("[1]")));
    let number = Json::obj().with("$serde_json::private::RawValue", Json::unsigned(1));
    assert!(parse_text(&number.to_text()).is_err());
    let broken = Json::obj().with("$serde_json::private::RawValue", Json::str("[1"));
    assert!(parse_text(&broken.to_text()).is_err());
    // With other keys it has to come after one of them.
    let first = alone.with("a", Json::unsigned(1));
    assert!(parse_text(&first.to_text()).is_err());
    let later = first.with("!", Json::unsigned(2));
    assert!(parse_text(&later.to_text()).unwrap().same(&later));
}
