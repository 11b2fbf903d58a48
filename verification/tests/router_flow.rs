use codey::digest::{sha256, to_hex, Fingerprint};
use codey::json::{parse_bytes, parse_text, Json};
use codey::local_router::adapt::{add_capped, body_is_data_stream, body_is_event_stream, StreamAction};
use codey::local_router::bindings::{RouteBindings, MAX_ROUTE_BINDINGS};
use codey::local_router::chat_request::{
    merge_responses_tools, read_chat_inputs, reject_unportable_chat_web_search_include,
    responses_to_chat_completions_request, responses_tool_choice_targets_web_search,
    ChatConversions,
};
use codey::local_router::compaction::{
    is_compaction_request, validate_portable_context, ResponsesRequestKind,
};
use codey::local_router::errors::{
    annotate_upstream_websocket_failure, bounded_upstream_request_id, sanitize_upstream_error_text,
    upstream_error_detail, upstream_error_summary, Failure,
};
use codey::local_router::exchange::{
    event_stream_head, keys_of_compaction, observe_attempt, observe_sent,
    prepare_native_http_fallback, proxy_parsed_responses_inner, proxy_with_compaction_budget,
    refuse_context_budget, refuse_conversion, refuse_response, refuse_socket_failure, refuse_socket_message, socket_step,
    SocketMessage, SocketStep, upstream_request_id_from_headers,
    write_adapted_upstream_as_responses, write_upstream_http_error, AdaptedMode, LogMark,
    RuntimeRouterEndpoint, Sent, UpstreamWebSocketAttempt,
};
use codey::local_router::history::{AdaptedResponsesHistory, NativeResponsesHistory};
use codey::local_router::resource_budget::{keep_error_bytes, required_units, tap_permits};
use codey::local_router::responses::{
    admit_connection, answer_mode, body_form, busy_refusal, handle_connection,
    handle_responses_websocket, make_model_list, proxy_image_generation, proxy_parsed_responses,
    proxy_responses, read_anthropic_messages_as_responses, read_chat_completions_as_responses,
    AdaptedAnswer,
    refuse_adapted, refuse_compaction, refuse_decode, refuse_endpoint, refuse_read, refuse_send,
    read_image_request, refuse_image_address, refuse_image_send, request_log_url,
    response_header_timeout, streaming_failure_message, tries_upstream_socket,
    write_validated_compaction, Admission, AnswerMode, BodyForm, DecodeFault, Endpoint, ReadFault,
    RequestProtocol, SendFault,
};
use codey::local_router::routing::{
    ProtocolBridge, RouteInput, RouterConfig, RouterSnapshot, UpstreamProtocol,
};
use codey::local_router::sse::{SseFeed, SseFrameAccumulator};
use codey::local_router::sse_anthropic::{
    anthropic_message_to_responses_body_with_tool_bridge, anthropic_usage_to_responses_usage,
    read_anthropic_message,
};
use codey::local_router::sse_chat::{
    chat_completion_to_responses_body_with_tool_bridge, chat_usage_to_responses_usage,
    read_chat_completion, ChatSseAccumulator,
};
use codey::local_router::streaming::{
    stream_anthropic_messages_as_responses, stream_chat_completions_as_responses, ChatStream,
    MessageStream, StreamStep,
};
use codey::textmap::{TextBox, TextMap};

fn j(text: &str) -> Json {
    parse_text(text).unwrap()
}

fn strings(list: &[&str]) -> Vec<String> {
    list.iter().map(|text| text.to_string()).collect()
}

fn pairs(list: &[(&str, &str)]) -> Vec<(String, String)> {
    list.iter().map(|(a, b)| (a.to_string(), b.to_string())).collect()
}

fn words(failure: Failure) -> String {
    match failure {
        Failure::Text(text) => text,
        Failure::ContextLength => "context".to_string(),
    }
}

fn input(id: &str, models: &[&str], protocol: UpstreamProtocol) -> RouteInput {
    RouteInput {
        provider_id: id.to_string(),
        name: format!("Route {id}"),
        enabled: true,
        official_account: false,
        base_url: format!("https://{id}.example/v1"),
        protocol,
        upstream_url: Ok(format!("https://{id}.example/v1/responses")),
        upstream_compact_url: Ok(format!("https://{id}.example/v1/responses/compact")),
        upstream_websocket_url: Err("no socket".to_string()),
        upstream_headers: Ok(vec![]),
        upstream_authority: format!("{id}.example"),
        supports_websockets: false,
        supports_remote_compaction: false,
        supports_auto_review: false,
        models: strings(models),
    }
}

fn snapshot(routes: Vec<RouteInput>, default_model: &str) -> RouterSnapshot {
    let mut history = TextMap::new();
    history.insert("old/model", TextBox { text: "m1".to_string() });
    RouterSnapshot::from_config(RouterConfig {
        routes,
        official_account_available: false,
        model_alias_history: history,
        default_model: default_model.to_string(),
    })
}

fn two_routes() -> RouterSnapshot {
    snapshot(
        vec![
            input("a", &["m1", "shared"], UpstreamProtocol::OpenAiResponses),
            input("b", &["m2", "shared"], UpstreamProtocol::OpenAiChatCompletions),
        ],
        "m1",
    )
}

#[test]
fn a_model_on_one_route_needs_no_hint() {
    let table = two_routes();
    let found = table.resolve_request("M2", None, None).unwrap();
    assert_eq!(found.provider_id, "b");
    assert_eq!(found.upstream_model, "m2");
    assert_eq!(table.model_ids, ["m1", "m2", "shared"]);
}

#[test]
fn a_model_on_several_routes_is_not_guessed() {
    let table = two_routes();
    assert!(table.resolve_request("shared", None, None).is_err());
    assert_eq!(table.resolve_request("shared", Some("b"), None).unwrap().provider_id, "b");
    assert_eq!(table.resolve_request("shared", None, Some("a")).unwrap().provider_id, "a");
    assert_eq!(table.resolve_request("a/shared", Some("b"), Some("b")).unwrap().provider_id, "a");
    assert!(table.resolve_request("unknown", None, None).is_err());
}

#[test]
fn recorded_selectors_lead_to_their_model() {
    let table = two_routes();
    assert_eq!(table.resolve_request("old/model", None, None).unwrap().upstream_model, "m1");
}

#[test]
fn routes_that_cannot_be_used_are_left_out() {
    let mut off = input("off", &["m"], UpstreamProtocol::OpenAiResponses);
    off.enabled = false;
    let mut official = input("official", &["m"], UpstreamProtocol::OpenAiResponses);
    official.official_account = true;
    let mut blank = input(" ", &["m"], UpstreamProtocol::OpenAiResponses);
    blank.enabled = true;
    let table = snapshot(vec![off, official, blank], "");
    assert_eq!(table.routes.len(), 0);
    assert!(table.resolve_request("m", None, None).is_err());
}

#[test]
fn a_session_stays_on_its_route() {
    let mut bindings = RouteBindings::new();
    let keys = strings(&["thread:1", "session:1"]);
    assert_eq!(bindings.route_for_keys(&keys), None);
    bindings.remember(&keys, "a", false);
    assert_eq!(bindings.route_for_keys(&keys).as_deref(), Some("a"));
    for i in 0..MAX_ROUTE_BINDINGS + 10 {
        bindings.remember(&vec![format!("thread:x{i}")], "b", false);
    }
    assert!(bindings.routes.len() <= MAX_ROUTE_BINDINGS);
    assert_eq!(bindings.route_for_keys(&keys), None);
}

#[test]
fn a_request_is_routed_and_made_ready() {
    let table = two_routes();
    let mut bindings = RouteBindings::new();
    let mut history = AdaptedResponsesHistory::new();
    let mut headers = pairs(&[("thread-id", "t1"), ("x-codex-turn-metadata", r#"{"codey_route":"b","keep":1}"#)]);
    let routed = proxy_parsed_responses_inner(
        &table,
        &mut bindings,
        &mut history,
        &mut headers,
        j(r#"{"model":"shared","input":"hi"}"#),
        None,
        ResponsesRequestKind::Create,
        false,
    )
    .unwrap();
    assert_eq!(routed.selection.provider_id, "b");
    assert_eq!(routed.request.upstream_url, "https://b.example/v1/responses");
    // A whole answer can be collected from a stream, so the adapted upstream is asked to stream.
    assert_eq!(routed.request.body.get_bool("stream"), Some(true));
    assert!(routed.request.body_mutated);
    assert!(!routed.compacting && !routed.subagent);
    assert!(headers.iter().all(|(_, value)| !value.contains("codey_route")));

    let mut headers = pairs(&[("thread-id", "t1")]);
    let again = proxy_parsed_responses_inner(
        &table,
        &mut bindings,
        &mut history,
        &mut headers,
        j(r#"{"model":"shared","input":"hi","stream":true}"#),
        None,
        ResponsesRequestKind::Create,
        false,
    )
    .unwrap();
    assert_eq!(again.selection.provider_id, "b");
}

#[test]
fn mended_tools_replace_those_that_were_sent() {
    let table = two_routes();
    let sent = r#"{"model":"m1","input":"hi","stream":true,"tools":[{"name":"f"}]}"#;
    let mended = j(r#"{"tools":[{"name":"f","parameters":{"type":"object"}}],"input":"hi"}"#);
    let mut bindings = RouteBindings::new();
    let mut history = AdaptedResponsesHistory::new();
    let mut route = |mended: Option<&Json>| {
        proxy_parsed_responses_inner(
            &table,
            &mut bindings,
            &mut history,
            &mut vec![],
            j(sent),
            mended,
            ResponsesRequestKind::Create,
            false,
        )
        .unwrap()
    };
    let plain = route(None);
    assert!(!plain.request.discard_encoded && !plain.request.body_mutated);
    let routed = route(Some(&mended));
    assert!(routed.request.discard_encoded && routed.request.body_mutated);
    assert!(routed.request.body.get("tools").unwrap().same(mended.get("tools").unwrap()));
    assert_eq!(routed.request.body.get_str("model"), Some("m1"));
}

#[test]
fn a_refused_request_leaves_what_it_must_not_change() {
    let table = snapshot(
        vec![
            input("a", &["m1", "shared"], UpstreamProtocol::OpenAiResponses),
            input("b", &["m2", "shared"], UpstreamProtocol::OpenAiChatCompletions),
        ],
        "",
    );
    let mut bindings = RouteBindings::new();
    let mut history = AdaptedResponsesHistory::new();
    let mut headers = pairs(&[("thread-id", "t1"), ("x-codex-turn-metadata", r#"{"codey_route":"b"}"#)]);
    let mut ask = |body: &str, headers: &mut Vec<(String, String)>| {
        proxy_parsed_responses_inner(
            &table,
            &mut bindings,
            &mut history,
            headers,
            j(body),
            None,
            ResponsesRequestKind::Create,
            false,
        )
        .unwrap_err()
        .code
    };
    assert_eq!(ask(r#"{"model":"  ","input":"x"}"#, &mut headers), "model_required");
    assert!(headers[1].1.contains("codey_route"));
    assert_eq!(ask(r#"{"model":"none","input":"x"}"#, &mut headers), "model_not_enabled");
    assert!(!headers[1].1.contains("codey_route"));
    assert_eq!(bindings.routes.len(), 0);
    assert!(history.pending_input.is_none());

    // A request that its route turns down is remembered, but not its conversation.
    let mut headers =
        pairs(&[("thread-id", "t1"), ("x-codex-turn-metadata", r#"{"codey_route":"b"}"#)]);
    let refused = proxy_parsed_responses_inner(
        &table,
        &mut bindings,
        &mut history,
        &mut headers,
        j(r#"{"model":"shared","input":[{"type":"compaction","encrypted_content":"x"}]}"#),
        None,
        ResponsesRequestKind::Create,
        false,
    )
    .unwrap_err();
    assert_eq!(refused.code, "context_not_portable");
    assert!(bindings.routes.len() > 0);
    assert!(history.pending_input.is_none());
}

fn refusal(body: &str, kind: ResponsesRequestKind, default_model: &str) -> (u16, &'static str) {
    let table = snapshot(
        vec![
            input("a", &["m1"], UpstreamProtocol::OpenAiResponses),
            input("b", &["m2"], UpstreamProtocol::OpenAiChatCompletions),
        ],
        default_model,
    );
    let refused = proxy_parsed_responses_inner(
        &table,
        &mut RouteBindings::new(),
        &mut AdaptedResponsesHistory::new(),
        &mut vec![],
        j(body),
        None,
        kind,
        false,
    )
    .unwrap_err();
    (refused.status, refused.code)
}

#[test]
fn requests_are_turned_down_with_a_reason() {
    let create = ResponsesRequestKind::Create;
    assert_eq!(refusal(r#"{"input":"x"}"#, create, ""), (400, "model_required"));
    assert_eq!(refusal(r#"{"model":"none"}"#, create, ""), (404, "model_not_enabled"));
    assert_eq!(
        refusal(r#"{"model":"m1"}"#, ResponsesRequestKind::Compact, ""),
        (400, "compaction_unsupported")
    );
    assert_eq!(
        refusal(
            r#"{"model":"m2","input":[{"type":"compaction","encrypted_content":"x"}]}"#,
            create,
            ""
        ),
        (400, "context_not_portable")
    );
    assert_eq!(
        refusal(
            r#"{"model":"m1","input":[],"previous_response_id":"resp_codey_1"}"#,
            create,
            ""
        ),
        (400, "context_not_portable")
    );
    let mut broken = input("a", &["m1"], UpstreamProtocol::OpenAiResponses);
    broken.upstream_url = Err("URL 无效".to_string());
    let refused = proxy_parsed_responses_inner(
        &snapshot(vec![broken], "m1"),
        &mut RouteBindings::new(),
        &mut AdaptedResponsesHistory::new(),
        &mut vec![],
        j(r#"{"input":"x"}"#),
        None,
        create,
        false,
    )
    .unwrap_err();
    assert_eq!((refused.status, refused.code), (502, "route_configuration_error"));
    assert_eq!(refused.words, "线路「Route a」的 URL 无效");
}

#[test]
fn an_adapted_conversation_is_kept_whole() {
    let mut history = AdaptedResponsesHistory::new();
    let mut first = j(r#"{"input":[{"type":"message","role":"user","content":"one"}]}"#);
    assert!(!history.prepare(&mut first));
    history.remember(
        "resp_codey_1",
        &vec![j(r#"{"type":"message","role":"assistant","content":"two"}"#)],
    );
    let mut next = j(
        r#"{"previous_response_id":"resp_codey_1","input":[{"type":"message","role":"user","content":"three"}]}"#,
    );
    assert!(history.prepare(&mut next));
    assert!(!next.has("previous_response_id"));
    let contents: Vec<&str> = next
        .get_array("input")
        .unwrap()
        .iter()
        .map(|item| item.get_str("content").unwrap())
        .collect();
    assert_eq!(contents, ["one", "two", "three"]);
}

#[test]
fn a_fallback_writes_out_what_the_router_knows() {
    let owner = Fingerprint { bytes: vec![1; 32] };
    let mut history = NativeResponsesHistory::new();
    history.prepare(&owner, &j(r#"{"input":[{"type":"message","role":"user","content":"one"}]}"#));
    history.observe(&j(
        r#"{"type":"response.completed","response":{"id":"r1","status":"completed","output":[]}}"#,
    ));
    let next = j(r#"{"previous_response_id":"r1","input":[{"type":"message","role":"user","content":"two"}]}"#);
    history.prepare(&owner, &next);
    let request =
        prepare_native_http_fallback(&history, &owner, next.clone_json(), true, false).unwrap();
    assert!(request.body_mutated);
    assert_eq!(request.body.get_array("input").unwrap().len(), 2);
    let other = Fingerprint { bytes: vec![2; 32] };
    let refused = prepare_native_http_fallback(&history, &other, next, true, false).unwrap_err();
    assert_eq!((refused.status, refused.code), (400, "context_not_recoverable"));
    let plain = j(r#"{"input":[]}"#);
    let kept =
        prepare_native_http_fallback(&history, &owner, plain.clone_json(), false, false).unwrap();
    assert!(!kept.body_mutated);
    let expanded = prepare_native_http_fallback(&history, &owner, plain, true, false).unwrap();
    assert!(expanded.body_mutated);
}

#[test]
fn one_compaction_of_a_conversation_at_a_time() {
    let mut bindings = RouteBindings::new();
    let body = j(r#"{"model":"m"}"#);
    let kind = ResponsesRequestKind::Compact;
    let keys = keys_of_compaction(&vec![], &body);
    assert_eq!(
        keys,
        [format!("compact-input:{}", to_hex(&sha256(&br#"{"model":"m"}"#.to_vec()).bytes))]
    );
    let guard =
        proxy_with_compaction_budget(&mut bindings, &vec![], &body, kind).unwrap().unwrap();
    let refused = proxy_with_compaction_budget(&mut bindings, &vec![], &body, kind).unwrap_err();
    assert_eq!((refused.status, refused.code), (409, "compaction_in_progress"));
    guard.release(&mut bindings);
    assert!(proxy_with_compaction_budget(&mut bindings, &vec![], &body, kind).is_ok());
    let create = ResponsesRequestKind::Create;
    assert!(proxy_with_compaction_budget(&mut bindings, &vec![], &body, create).unwrap().is_none());
    assert!(!is_compaction_request(&body, create));
    assert_eq!(create.label(), "responses");
}

#[test]
fn upstream_errors_keep_their_status_and_hide_secrets() {
    let headers = pairs(&[("Content-Type", "application/json"), ("Request-Id", " req-1 ")]);
    assert_eq!(upstream_request_id_from_headers(&headers).as_deref(), Some("req-1"));
    assert_eq!(upstream_request_id_from_headers(&vec![]), None);
    let told = write_upstream_http_error(
        "R",
        "m",
        429,
        &headers,
        &br#"{"error":{"message":"key sk-secret used up","type":"rate_limit","code":"limit"}}"#.to_vec(),
        &strings(&["sk-secret"]),
        false,
    );
    assert_eq!(told.refusal.status, 429);
    assert_eq!(told.refusal.code, "upstream_http_error");
    assert!(told.as_text);
    assert!(!told.refusal.words.contains("sk-secret"));
    assert!(told.refusal.words.starts_with("Codey 线路「R」请求模型 m 时，上游返回 HTTP 429："));
    assert!(told.refusal.words.ends_with("（上游请求 ID：req-1）"));
    let bare = write_upstream_http_error("R", "m", 500, &vec![], &b"<html>".to_vec(), &vec![], true);
    assert_eq!(bare.refusal.words, "Codey 线路「R」请求模型 m 时，上游返回 HTTP 500");
    assert!(bare.detail.is_none() && !bare.as_text);
}

#[test]
fn error_texts_are_bounded() {
    let long = "x".repeat(2000);
    assert_eq!(
        sanitize_upstream_error_text(&long, &vec![], 512).unwrap().chars().count(),
        513
    );
    assert_eq!(sanitize_upstream_error_text("  ", &vec![], 512), None);
    assert_eq!(bounded_upstream_request_id(&"y".repeat(300)).unwrap().len(), 128);
    assert_eq!(bounded_upstream_request_id("\u{1}\u{2}"), None);
    let summary = upstream_error_summary(&j(r#"{"error":{"type":"t"}}"#), &vec![]);
    assert!(summary.message.is_none());
    assert!(upstream_error_detail(&summary).unwrap().contains("t"));
    let mut event = j(r#"{"type":"error","error":{"message":"bad"}}"#);
    annotate_upstream_websocket_failure(&mut event, &vec![], "R", "m");
    assert!(event.get("error").unwrap().get_str("message").unwrap().contains("Codey 线路「R」"));
}

#[test]
fn refusals_of_an_exchange() {
    let refused = refuse_conversion("R", "Chat", &Failure::Text("why".to_string()));
    assert_eq!(refused.words, "线路「R」选择了 Chat，但当前请求无法转换：why");
    assert_eq!(refuse_context_budget(&Failure::Text("full".to_string())).status, 413);
    let refused = refuse_response("R", " ", &vec![]);
    assert_eq!((refused.status, refused.code), (502, "upstream_response_failed"));
    assert_eq!(refused.words, "Codey 线路「R」处理上游 HTTP 响应失败：上游响应未能完成");
    assert_eq!(refuse_socket_message().code, "unsupported_websocket_message");
    assert!(refuse_socket_failure("id", true).is_none());
    assert!(refuse_socket_failure("id", false).unwrap().words.ends_with("id"));
    assert_eq!(socket_step(SocketMessage::Ping), SocketStep::Answer);
    assert_eq!(socket_step(SocketMessage::Other), SocketStep::Refuse);
    assert_eq!(busy_refusal().status, 503);
    assert_eq!(refuse_send(SendFault::TimedOut, true, "R", "u").code, "compaction_timeout");
    assert_eq!(refuse_send(SendFault::Unreachable, false, "R", "u").status, 424);
    assert_eq!(
        refuse_send(SendFault::HeaderTimedOut, false, "R", "u").code,
        "upstream_header_timeout"
    );
    assert_eq!(refuse_compaction(&Failure::ContextLength, false).status, 400);
    assert_eq!(refuse_compaction(&Failure::ContextLength, true).status, 504);
    assert_eq!(refuse_adapted("R", true, &Failure::Text("w".to_string())).status, 502);
    assert_eq!(refuse_read(ReadFault::TimedOut, "d").status, 408);
    assert_eq!(refuse_decode(DecodeFault::Invalid, "d").status, 400);
    let (code, message) = streaming_failure_message(&Failure::ContextLength, false, "R");
    assert_eq!(code, "context_length_exceeded");
    assert!(!message.is_empty());
}

#[test]
fn connections_and_endpoints() {
    assert!(matches!(admit_connection(0, 0), Admission::Serve));
    assert!(matches!(admit_connection(64, 0), Admission::Reject));
    assert!(matches!(admit_connection(64, 4), Admission::Close));
    assert_eq!(
        request_log_url("http://127.0.0.1:1/v1", "tok"),
        "http://127.0.0.1:1/codey/request-logs#tok"
    );
    assert!(matches!(handle_connection("POST", "/v1/responses", true), Endpoint::Responses));
    assert!(matches!(handle_connection("POST", "/v1/responses", false), Endpoint::Unauthorized));
    assert_eq!(refuse_endpoint(Endpoint::Unauthorized).unwrap().status, 401);
    assert!(refuse_endpoint(Endpoint::Responses).is_none());
    let list = make_model_list(&strings(&["m"]));
    assert_eq!(list.get_array("data").unwrap()[0].get_str("id"), Some("m"));
    let endpoint = RuntimeRouterEndpoint::new(8080, true, false, true);
    assert_eq!(endpoint.base_url, "http://127.0.0.1:8080/v1");
    assert_eq!(endpoint.token.len(), "codey-router-".len() + 36);
    assert_eq!(endpoint.bearer_token(), format!("Bearer {}", endpoint.token));
    assert!(event_stream_head("x-id: 1\r\n").ends_with("x-id: 1\r\nconnection: close\r\n\r\n"));
}

#[test]
fn bodies_and_messages_have_to_be_objects() {
    assert_eq!(proxy_responses(&b"[]".to_vec()).unwrap_err().status, 400);
    assert_eq!(proxy_responses(&b"{".to_vec()).unwrap_err().status, 400);
    assert!(proxy_responses(&b"{}".to_vec()).is_ok());
    let request = handle_responses_websocket(
        r#"{"type":"response.create","model":"m","stream_id":"s1","input":[]}"#,
    )
    .unwrap();
    assert_eq!(request.stream_id.as_deref(), Some("s1"));
    assert!(handle_responses_websocket("no document").is_err());
    assert!(handle_responses_websocket(r#"{"type":"other"}"#).is_err());
    let start = proxy_parsed_responses(
        &j(r#"{"model":" m ","stream":true,"reasoning":{"effort":"high"}}"#),
        ResponsesRequestKind::Create,
        false,
    );
    assert_eq!(start.protocol, RequestProtocol::Sse);
    assert_eq!(start.reasoning_effort.as_deref(), Some("high"));
}

#[test]
fn how_a_request_and_its_answer_travel() {
    let native = ProtocolBridge::NativeResponses;
    let chat = ProtocolBridge::ResponsesToChatCompletions;
    let create = ResponsesRequestKind::Create;
    assert!(tries_upstream_socket(true, false, create, true, native));
    assert!(!tries_upstream_socket(true, false, create, true, chat));
    assert_eq!(body_form(native, true, "m", "m", false), BodyForm::AsSent);
    assert_eq!(body_form(native, true, "m", "n", false), BodyForm::Rewritten);
    assert_eq!(body_form(native, false, "m", "m", false), BodyForm::Serialized);
    assert!(response_header_timeout(true) < response_header_timeout(false));
    assert_eq!(answer_mode(500, true, native), AnswerMode::Error);
    assert_eq!(answer_mode(200, true, native), AnswerMode::Compaction);
    assert_eq!(answer_mode(200, false, chat), AnswerMode::Chat);
    assert_eq!(answer_mode(200, false, native), AnswerMode::Relay);
    assert_eq!(write_adapted_upstream_as_responses(true, true), AdaptedMode::Stream);
    assert_eq!(write_adapted_upstream_as_responses(true, false), AdaptedMode::Replay);
    assert_eq!(write_adapted_upstream_as_responses(false, true), AdaptedMode::Document);
}

#[test]
fn the_log_is_told_what_the_client_got() {
    assert_eq!(
        observe_sent(Sent::Error(404), true),
        [LogMark::Failed(404), LogMark::Succeeded]
    );
    assert_eq!(
        observe_sent(Sent::Document(200), true),
        [LogMark::FirstContent, LogMark::Succeeded]
    );
    assert_eq!(observe_sent(Sent::Document(500), true), [LogMark::Succeeded]);
    assert_eq!(observe_sent(Sent::StreamStart, true), [LogMark::Started(200)]);
    assert_eq!(
        observe_sent(Sent::Event(true), true),
        [LogMark::Started(200), LogMark::FirstContent]
    );
    for sent in [Sent::Event(true), Sent::StreamStart, Sent::StreamEnd, Sent::Relay] {
        assert_eq!(observe_sent(sent, false), [LogMark::Cancelled]);
    }
    assert_eq!(observe_attempt(UpstreamWebSocketAttempt::UseHttp), None);
    assert_eq!(
        observe_attempt(UpstreamWebSocketAttempt::Broken),
        Some(LogMark::Failed(502))
    );
}

const CHAT: &str = "data: {\"id\":\"c1\",\"created\":7,\"model\":\"up\",\"choices\":[{\"index\":0,\"delta\":{\"content\":\"he\"}}]}\n\ndata: {\"choices\":[{\"index\":0,\"delta\":{\"content\":\"llo\"},\"finish_reason\":\"length\"}],\"usage\":{\"prompt_tokens\":3,\"completion_tokens\":2,\"total_tokens\":5}}\n\ndata: [DONE]\n\n";

fn told_text(actions: &[StreamAction]) -> String {
    actions
        .iter()
        .map(|action| match action {
            StreamAction::Text(text) => text.clone(),
            _ => String::new(),
        })
        .collect()
}

#[test]
fn a_chat_stream_is_told_the_same_however_it_is_cut() {
    for size in [1, 2, 7, 1000] {
        let mut feed = SseFeed::new();
        let mut stream = ChatStream::new("id", 1, "model");
        let mut text = String::new();
        let mut ended = false;
        for chunk in CHAT.as_bytes().chunks(size) {
            match stream_chat_completions_as_responses(
                &mut feed,
                &mut stream,
                &chunk.to_vec(),
                100_000,
            ) {
                StreamStep::More(actions) => text.push_str(&told_text(&actions)),
                StreamStep::Last(actions) => {
                    text.push_str(&told_text(&actions));
                    ended = true;
                    break;
                }
                StreamStep::Failed(failure) => panic!("{failure:?}"),
            }
        }
        assert!(ended);
        assert_eq!(text, "hello");
        let end = stream.end(&vec![]).unwrap();
        assert_eq!(end.incomplete.as_deref(), Some("max_output_tokens"));
        assert_eq!(end.usage.unwrap().get_u64("total_tokens"), Some(5));
    }
    let mut feed = SseFeed::new();
    let mut stream = ChatStream::new("id", 1, "model");
    assert!(matches!(
        stream_chat_completions_as_responses(&mut feed, &mut stream, &b"data: {x\n\n".to_vec(), 100),
        StreamStep::Failed(_)
    ));
    let mut feed = SseFeed::new();
    let mut stream = ChatStream::new("id", 1, "model");
    assert!(matches!(
        stream_chat_completions_as_responses(&mut feed, &mut stream, &vec![b'x'; 101], 100),
        StreamStep::Failed(_)
    ));
    assert!(words(stream.end(&vec![]).unwrap_err()).contains("断开"));
}

const MESSAGE: &str = "event: message_start\ndata: {\"type\":\"message_start\",\"message\":{\"id\":\"m1\",\"model\":\"up\",\"usage\":{\"input_tokens\":4}}}\n\ndata: {\"type\":\"content_block_start\",\"index\":0,\"content_block\":{\"type\":\"text\",\"text\":\"\"}}\n\ndata: {\"type\":\"content_block_delta\",\"index\":0,\"delta\":{\"type\":\"text_delta\",\"text\":\"hi\"}}\n\ndata: {\"type\":\"content_block_start\",\"index\":1,\"content_block\":{\"type\":\"tool_use\",\"id\":\"t1\",\"name\":\"run\",\"input\":{}}}\n\ndata: {\"type\":\"content_block_delta\",\"index\":1,\"delta\":{\"type\":\"input_json_delta\",\"partial_json\":\"{\\\"a\\\":1}\"}}\n\ndata: {\"type\":\"message_delta\",\"delta\":{\"stop_reason\":\"tool_use\"},\"usage\":{\"output_tokens\":6}}\n\ndata: {\"type\":\"message_stop\"}\n\n";

#[test]
fn a_message_stream_is_told_with_its_tool_calls() {
    for size in [3, 50, 5000] {
        let mut feed = SseFeed::new();
        let mut stream = MessageStream::new("id", "model");
        let mut text = String::new();
        let mut ended = false;
        for chunk in MESSAGE.as_bytes().chunks(size) {
            match stream_anthropic_messages_as_responses(
                &mut feed,
                &mut stream,
                &chunk.to_vec(),
                100_000,
            ) {
                StreamStep::More(actions) => text.push_str(&told_text(&actions)),
                StreamStep::Last(actions) => {
                    text.push_str(&told_text(&actions));
                    ended = true;
                    break;
                }
                StreamStep::Failed(failure) => panic!("{failure:?}"),
            }
        }
        assert!(ended);
        assert_eq!(text, "hi");
        let end = stream.end().unwrap();
        assert_eq!(end.calls.len(), 1);
        assert_eq!(end.calls[0].name, "run");
        assert_eq!(end.usage.unwrap().get_u64("output_tokens"), Some(6));
        assert!(end.incomplete.is_none());
    }
    assert!(MessageStream::new("id", "model").end().is_err());
}

#[test]
fn whole_answers_become_responses() {
    let answer =
        read_chat_completions_as_responses(&CHAT.as_bytes().to_vec(), 5, "model").unwrap();
    let AdaptedAnswer::Whole(document) = answer else { panic!("no tool calls") };
    assert_eq!(document.get_str("id"), Some("c1"));
    assert_eq!(document.get_str("status"), Some("incomplete"));
    assert_eq!(document.get_str("output_text"), Some("hello"));
    assert!(read_chat_completions_as_responses(&b"<html>".to_vec(), 5, "model").is_err());
    let whole = br#"{"choices":[{"message":{"content":"hi"},"finish_reason":"stop"}]}"#.to_vec();
    let answer = read_chat_completions_as_responses(&whole, 5, "model").unwrap();
    let AdaptedAnswer::Whole(document) = answer else { panic!("no tool calls") };
    assert!(document.get_str("id").unwrap().starts_with("resp_codey_"));
    assert!(read_chat_completion(&j("{}")).is_err());
    let calling = j(
        r#"{"choices":[{"message":{"tool_calls":[{"id":"c","type":"function","function":{"name":"run","arguments":"{}"}}]}}]}"#,
    );
    let item = j(r#"{"type":"function_call","call_id":"c","name":"run","arguments":"{}"}"#);
    let built = chat_completion_to_responses_body_with_tool_bridge(
        &calling, "model", vec![item], "msg", "resp", 1,
    )
    .unwrap();
    assert_eq!(built.get_array("output").unwrap()[0].get_str("call_id"), Some("c"));
    assert_eq!(document.get_u64("created_at"), Some(5));
    assert_eq!(document.get_str("status"), Some("completed"));
    assert_eq!(document.get_array("output").unwrap().len(), 1);

    let answer =
        read_anthropic_messages_as_responses(&MESSAGE.as_bytes().to_vec(), 9, "model").unwrap();
    let AdaptedAnswer::Calls { answer: message, calls } = answer else { panic!("a tool call") };
    assert_eq!(calls[0].arguments, r#"{"a":1}"#);
    let document = anthropic_message_to_responses_body_with_tool_bridge(
        &message, "model", vec![], "msg_1", "resp_1", 9,
    )
    .unwrap();
    assert_eq!(document.get_str("id"), Some("resp_1"));
    assert_eq!(document.get_str("model"), Some("up"));
    let error = j(r#"{"type":"error","error":{"message":"no"}}"#);
    assert!(read_anthropic_message(&error).is_err());
    assert!(anthropic_message_to_responses_body_with_tool_bridge(
        &error, "model", vec![], "msg_1", "resp_1", 9,
    )
    .is_err());
    let message = br#"{"content":[{"type":"text","text":"hi"}],"stop_reason":"end_turn"}"#.to_vec();
    let answer = read_anthropic_messages_as_responses(&message, 9, "model").unwrap();
    let AdaptedAnswer::Whole(document) = answer else { panic!("no tool calls") };
    assert!(document.get_str("id").unwrap().starts_with("resp_codey_"));
    assert_eq!(document.get_str("model"), Some("model"));
    assert_eq!(document.get_str("output_text"), Some("hi"));
}

#[test]
fn usage_is_counted_in_one_form() {
    let usage = chat_usage_to_responses_usage(&j(
        r#"{"prompt_tokens":10,"completion_tokens":4,"total_tokens":14,"prompt_tokens_details":{"cached_tokens":3}}"#,
    ));
    assert_eq!(usage.get_u64("input_tokens"), Some(10));
    assert_eq!(usage.get("input_tokens_details").unwrap().get_u64("cached_tokens"), Some(3));
    let usage = anthropic_usage_to_responses_usage(&j(
        r#"{"input_tokens":1,"cache_read_input_tokens":2,"cache_creation_input_tokens":3,"output_tokens":4}"#,
    ));
    assert_eq!(usage.get_u64("input_tokens"), Some(6));
    assert_eq!(usage.get_u64("total_tokens"), Some(10));
    assert_eq!(add_capped(u64::MAX, 5), u64::MAX);
    assert!(body_is_data_stream(&b"data: x".to_vec()));
    assert!(body_is_event_stream(&b"x\nevent: y".to_vec()));
    assert!(!body_is_event_stream(&b"{}".to_vec()));
}

#[test]
fn other_choices_do_not_end_a_completion() {
    let mut accumulator = ChatSseAccumulator::new("id", 0, "model");
    accumulator
        .ingest(&j(r#"{"choices":[{"index":1,"delta":{"content":"x"},"finish_reason":"stop"}]}"#))
        .unwrap();
    assert!(!accumulator.finished());
    assert!(accumulator.into_chat_completion(false, &vec![]).is_err());
}

#[test]
fn compaction_answers_are_checked() {
    let good = br#"{"output":[{"type":"compaction","encrypted_content":"x"}]}"#.to_vec();
    assert!(write_validated_compaction(&good, false).is_ok());
    assert!(write_validated_compaction(&good, true).is_err());
    assert!(write_validated_compaction(&b"{".to_vec(), false).is_err());
    assert!(validate_portable_context(&j(r#"{"input":[{"type":"message"}]}"#)).is_ok());
    assert!(validate_portable_context(&j(r#"{"input":[{"type":"compaction"}]}"#)).is_err());
}

fn conversions(messages: Vec<Json>) -> ChatConversions {
    ChatConversions {
        messages,
        tools: None,
        web_search_options: None,
        web_search_tool_seen: false,
        response_format: Ok(Json::null()),
        tool_choice: Ok(Json::null()),
        function_call: Ok(Json::null()),
    }
}

#[test]
fn chat_requests_keep_what_was_asked() {
    let body = j(
        r#"{"model":"m","instructions":"be brief","stream":true,"temperature":0.5,"max_output_tokens":9}"#,
    );
    let chat = responses_to_chat_completions_request(
        &body,
        conversions(vec![j(r#"{"role":"user","content":"hi"}"#)]),
    )
    .unwrap();
    assert_eq!(chat.get_str("model"), Some("m"));
    assert_eq!(chat.get_bool("stream"), Some(true));
    assert_eq!(chat.get_u64("max_tokens"), Some(9));
    assert_eq!(chat.get("temperature").unwrap().to_text(), "0.5");
    let messages = chat.get_array("messages").unwrap();
    assert_eq!(messages[0].get_str("role"), Some("system"));
    assert_eq!(messages.len(), 2);
    let nameless = responses_to_chat_completions_request(&j("{}"), conversions(vec![]));
    assert_eq!(words(nameless.unwrap_err()), "缺少 model 字段");
}

#[test]
fn tools_are_merged_once() {
    let tools = j(r#"[{"type":"function","name":"a"}]"#);
    let merged = merge_responses_tools(
        Some(&tools),
        &vec![j(r#"{"type":"function","name":"a"}"#), j(r#"{"type":"function","name":"b"}"#)],
    )
    .unwrap()
    .unwrap();
    assert_eq!(merged.as_array().unwrap().len(), 2);
    assert!(responses_tool_choice_targets_web_search(&j(r#"{"type":"web_search"}"#)).unwrap());
    assert!(!responses_tool_choice_targets_web_search(&j(r#""auto""#)).unwrap());
    assert!(reject_unportable_chat_web_search_include(None).is_ok());
    let (input, tools) = read_chat_inputs(&j(r#"{"input":"hi","tools":[]}"#), &vec![]).unwrap();
    assert_eq!(input.unwrap().as_str(), Some("hi"));
    assert!(tools.is_some());
}

#[test]
fn images_go_to_a_route_of_their_own() {
    let table = two_routes();
    let bindings = RouteBindings::new();
    let request = proxy_image_generation(
        &table,
        &bindings,
        &mut vec![],
        j(r#"{"model":"m1","prompt":"cat"}"#),
    )
    .unwrap();
    assert_eq!(request.provider_id, "a");
    assert!(!request.stream);
    assert!(read_image_request(&b"{}".to_vec()).is_ok());
    assert_eq!(
        read_image_request(&b"[]".to_vec()).unwrap_err().words,
        "Images 请求体必须是 JSON 对象"
    );
    assert_eq!(refuse_image_address("R", "x").words, "线路「R」的 Images API URL 无效：x");
    assert_eq!(refuse_image_send(SendFault::Unreachable, "R").status, 424);
    let messages = snapshot(
        vec![input("a", &["m1"], UpstreamProtocol::AnthropicMessages)],
        "m1",
    );
    let refused =
        proxy_image_generation(&messages, &bindings, &mut vec![], j(r#"{"prompt":"cat"}"#))
            .unwrap_err();
    assert_eq!(refused.code, "image_generation_not_supported");
    let none =
        proxy_image_generation(&snapshot(vec![], ""), &bindings, &mut vec![], j("{}")).unwrap_err();
    assert_eq!((none.status, none.code), (404, "route_not_enabled"));
}

#[test]
fn memory_is_counted_in_units() {
    assert_eq!(required_units(0), 0);
    assert!(required_units(1) >= 1);
    assert!(required_units(1_000_000) >= required_units(999_999));
    assert!(tap_permits(10, 4, 8) >= 1);
    let mut kept = vec![1, 2];
    assert!(!keep_error_bytes(&mut kept, &vec![3, 4, 5], 4));
    assert_eq!(kept, [1, 2, 3, 4]);
    assert!(keep_error_bytes(&mut kept, &vec![], 9));
    assert!(parse_bytes(b"{}").is_ok());
}

fn tool_call(custom: bool, id: &str) -> Json {
    if custom {
        j(r#"{"type":"custom_tool_call","name":"run","input":"pwd"}"#).with("call_id", Json::str(id))
    } else {
        j(r#"{"type":"function_call","name":"run","arguments":"{}"}"#).with("call_id", Json::str(id))
    }
}

fn tool_result(custom: bool, id: &str) -> Json {
    let kind = if custom { "custom_tool_call_output" } else { "function_call_output" };
    Json::obj()
        .with("type", Json::str(kind))
        .with("call_id", Json::str(id))
        .with("output", Json::str("done"))
}

fn completed_event(id: &str, output: Vec<Json>) -> Json {
    Json::obj().with("type", Json::str("response.completed")).with(
        "response",
        Json::obj()
            .with("id", Json::str(id))
            .with("object", Json::str("response"))
            .with("status", Json::str("completed"))
            .with("output", Json::array(output)),
    )
}

#[test]
fn two_tool_rounds_are_restored_over_http() {
    for custom in [false, true] {
        let owner = Fingerprint { bytes: vec![7; 32] };
        let mut history = NativeResponsesHistory::new();
        history.prepare(&owner, &j(r#"{"input":"original task"}"#));
        history.observe(&completed_event("resp-first", vec![tool_call(custom, "call-1")]));
        let mut expected = vec![
            j(r#"{"role":"user","content":"original task"}"#),
            tool_call(custom, "call-1"),
            tool_result(custom, "call-1"),
        ];
        for (id, call_id, next) in
            [("resp-first", "call-1", "resp-second"), ("resp-second", "call-2", "resp-final")]
        {
            let body = Json::obj()
                .with("previous_response_id", Json::str(id))
                .with("input", Json::array(vec![tool_result(custom, call_id)]))
                .with("instructions", Json::str("keep this instruction"));
            history.prepare(&owner, &body);
            let request =
                prepare_native_http_fallback(&history, &owner, body, true, false).unwrap();
            if next == "resp-final" {
                expected.push(tool_call(custom, "call-2"));
                expected.push(tool_result(custom, "call-2"));
            }
            assert!(!request.body.has("previous_response_id"));
            assert_eq!(request.body.get_str("instructions"), Some("keep this instruction"));
            let input = request.body.get_array("input").unwrap();
            assert_eq!(input.len(), expected.len());
            assert!(input.iter().zip(&expected).all(|(a, b)| a.same(b)));
            let output = if next == "resp-final" {
                vec![]
            } else {
                vec![tool_call(custom, "call-2")]
            };
            history.observe(&completed_event(next, output));
        }
        let stray = Json::obj()
            .with("previous_response_id", Json::str("resp-from-another-socket"))
            .with("input", Json::array(vec![tool_result(custom, "missing-call")]));
        history.prepare(&owner, &stray);
        let refused =
            prepare_native_http_fallback(&history, &owner, stray, true, false).unwrap_err();
        assert_eq!(refused.code, "context_not_recoverable");
    }
}

#[test]
fn adapted_answers_end_with_or_without_a_last_line() {
    let chat = "data: {\"choices\":[{\"index\":0,\"delta\":{\"content\":\"hello\"}}]}\n\n";
    let chat_stop = "data: {\"choices\":[{\"index\":0,\"finish_reason\":\"stop\"}],\"usage\":{\"prompt_tokens\":4,\"completion_tokens\":1,\"total_tokens\":5}}";
    let message = "data: {\"type\":\"message_start\",\"message\":{\"id\":\"msg-test\",\"role\":\"assistant\",\"content\":[],\"usage\":{\"input_tokens\":4}}}\n\ndata: {\"type\":\"content_block_start\",\"index\":0,\"content_block\":{\"type\":\"text\",\"text\":\"hello\"}}\n\n";
    let message_stop = "data: {\"type\":\"message_delta\",\"delta\":{\"stop_reason\":\"end_turn\"},\"usage\":{\"output_tokens\":1}}";

    let mut feed = SseFeed::new();
    let mut stream = ChatStream::new("id", 1, "model");
    let bytes = format!("{chat}{chat_stop}").into_bytes();
    assert!(matches!(
        stream_chat_completions_as_responses(&mut feed, &mut stream, &bytes, 100_000),
        StreamStep::More(_)
    ));
    feed.finish(&mut stream).unwrap();
    let end = stream.end(&vec![]).unwrap();
    let usage = end.usage.unwrap();
    assert_eq!(usage.get_u64("input_tokens"), Some(4));
    assert_eq!(usage.get_u64("output_tokens"), Some(1));
    assert!(end.incomplete.is_none());

    let mut feed = SseFeed::new();
    let mut stream = MessageStream::new("id", "model");
    let bytes = format!("{message}{message_stop}").into_bytes();
    assert!(matches!(
        stream_anthropic_messages_as_responses(&mut feed, &mut stream, &bytes, 100_000),
        StreamStep::More(_)
    ));
    feed.finish(&mut stream).unwrap();
    let usage = stream.end().unwrap().usage.unwrap();
    assert_eq!(usage.get_u64("input_tokens"), Some(4));
    assert_eq!(usage.get_u64("output_tokens"), Some(1));

    let whole = read_chat_completions_as_responses(
        &format!("{chat}{chat_stop}").into_bytes(),
        1,
        "model",
    )
    .unwrap();
    let AdaptedAnswer::Whole(document) = whole else { panic!("no tool calls") };
    assert_eq!(document.get_str("status"), Some("completed"));
    assert!(read_chat_completions_as_responses(&chat.as_bytes().to_vec(), 1, "model").is_err());
    assert!(
        read_anthropic_messages_as_responses(&message.as_bytes().to_vec(), 1, "model").is_err()
    );
    assert!(read_anthropic_messages_as_responses(
        &format!("{message}{message_stop}").into_bytes(),
        1,
        "model"
    )
    .is_ok());
}
