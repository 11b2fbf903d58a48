//! What becomes of a request once it has a route: its fallback, the answer of its upstream, and
//! what the log is told of the answer.
use crate::digest::{Fingerprint, add_all, hex_text, sha256, sha256_of, to_hex};
use crate::ids::{fresh_id, has_form};
use crate::json::{Json, JsonV, json_parsed, json_text, opt_view, parse_bytes, string_view};
use crate::local_router::bindings::{BindingsV, CompactionGuard, RouteBindings, key_set};
use crate::local_router::compaction::{ResponsesRequestKind, asks_compaction, is_compaction_request};
use crate::local_router::errors::{
    Failure, bounded_id, bounded_upstream_request_id, http_error_words,
    sanitize_upstream_error_text, sanitized, socket_error_detail, upstream_error_detail,
    upstream_error_summary, upstream_http_error_message,
};
use crate::local_router::history::{
    AdaptedResponsesHistory, HistoryV, NativeResponsesHistory, NativeV, restored,
};
use crate::local_router::request_meta::{
    binding_keys, client_metadata, header_value, incoming_header, request_binding_keys,
};
use crate::local_router::responses::{
    AdmittedRequest, AdmittedV, Refusal, RefusalV, ResolvedV, a_body_goes_upstream_as_it_was_sent,
    a_resolved_request_has_a_live_route, admit_responses_request, admitted_request,
    an_admitted_request_asks_for_the_same, failure_words, headers_after, history_after, mend_tools,
    mended_request, only_tools_and_input_are_mended, refusal_view, refuse, refuse_with,
    resolve_responses_request, resolved_request, words_of,
};
use crate::local_router::routing::{
    ProtocolBridge, RouteSelection, RouteTargetV, RouterSnapshot, SnapshotV, UpstreamProtocol,
    bridge_to,
};
use crate::text::{cat2, cat3, cat4, cat5, decimal_text, digits, pairs_view, texts, words};
use crate::textmap::lookup;
use vstd::prelude::*;
use vstd::string::*;
use vstd::utf8::*;

verus! {

/// Where the router can be reached.
#[derive(Debug)]
pub struct RuntimeRouterEndpoint {
    pub base_url: String,
    pub token: String,
    pub supports_websockets: bool,
    pub supports_remote_compaction: bool,
    /// Codex keeps its own login for the router's provider.
    pub requires_openai_auth: bool,
}

impl RuntimeRouterEndpoint {
    /// The router on a port, with a fresh token.
    pub fn new(
        port: u16,
        supports_websockets: bool,
        supports_remote_compaction: bool,
        requires_openai_auth: bool,
    ) -> (r: RuntimeRouterEndpoint)
        ensures
            r.base_url@ == "http://127.0.0.1:"@ + digits(port as nat) + "/v1"@,
            has_form(r.token@, "codey-router-"@),
            r.supports_websockets == supports_websockets,
            r.supports_remote_compaction == supports_remote_compaction,
            r.requires_openai_auth == requires_openai_auth,
    {
        RuntimeRouterEndpoint {
            base_url: cat3("http://127.0.0.1:", decimal_text(port as u64).as_str(), "/v1"),
            token: fresh_id("codey-router-"),
            supports_websockets,
            supports_remote_compaction,
            requires_openai_auth,
        }
    }

    /// What a client sends in place of a key.
    pub fn bearer_token(&self) -> (r: String)
        ensures
            r@ == "Bearer "@ + self.token@,
    {
        cat2("Bearer ", self.token.as_str())
    }
}

/// The head of an answer that streams events.
pub fn event_stream_head(request_id_line: &str) -> (r: String)
    ensures
        r@
            == "HTTP/1.1 200 OK\r\ncontent-type: text/event-stream; charset=utf-8\r\ncache-control: no-cache\r\ntransfer-encoding: chunked\r\n"@
            + request_id_line@ + "connection: close\r\n\r\n"@,
{
    cat3(
        "HTTP/1.1 200 OK\r\ncontent-type: text/event-stream; charset=utf-8\r\ncache-control: no-cache\r\ntransfer-encoding: chunked\r\n",
        request_id_line,
        "connection: close\r\n\r\n",
    )
}

/// The keys of a conversation that is compacted. Without a session only requests with the same
/// body are known to be the same.
pub open spec fn compaction_keys(headers: Seq<(Seq<char>, Seq<char>)>, body: JsonV) -> Seq<
    Seq<char>,
> {
    if binding_keys(headers).len() > 0 {
        binding_keys(headers)
    } else {
        seq!["compact-input:"@ + hex_text(sha256_of(encode_utf8(json_text(body))))]
    }
}

/// The keys of a conversation that is compacted.
pub fn keys_of_compaction(headers: &Vec<(String, String)>, body: &Json) -> (r: Vec<String>)
    ensures
        texts(r@) == compaction_keys(pairs_view(headers@), body@),
{
    let keys = request_binding_keys(headers);
    proof {
        assert(texts(keys@).len() == keys.len());
    }
    if keys.len() > 0 {
        return keys;
    }
    let text = body.to_text();
    let mut bytes: Vec<u8> = Vec::new();
    add_all(&mut bytes, text.as_str().as_bytes());
    proof {
        assert(bytes@ =~= encode_utf8(text@));
    }
    let digest = sha256(&bytes);
    let mut out: Vec<String> = Vec::new();
    out.push(cat2("compact-input:", to_hex(&digest.bytes).as_str()));
    proof {
        assert(texts(out@) =~= compaction_keys(pairs_view(headers@), body@));
    }
    out
}

/// What keeps other compactions of the same conversation out, where a request compacts.
pub fn proxy_with_compaction_budget(
    bindings: &mut RouteBindings,
    headers: &Vec<(String, String)>,
    body: &Json,
    kind: ResponsesRequestKind,
) -> (r: Result<Option<CompactionGuard>, Refusal>)
    ensures
        final(bindings).routes == old(bindings).routes,
        final(bindings).order == old(bindings).order,
        final(bindings).next_generation == old(bindings).next_generation,
        ({
            let taken = key_set(old(bindings).compacting@);
            let wanted = compaction_keys(pairs_view(headers@), body@).to_set();
            if !asks_compaction(body@, kind) {
                r matches Ok(None) && final(bindings).compacting == old(bindings).compacting
            } else if taken.disjoint(wanted) {
                &&& r matches Ok(Some(guard)) && key_set(guard.keys@) == wanted
                &&& key_set(final(bindings).compacting@) == taken.union(wanted)
            } else {
                &&& r matches Err(e) && e@ == (RefusalV {
                    status: 409,
                    code: "compaction_in_progress"@,
                    words: "同一会话已有压缩请求正在执行，请等待完成后重试"@,
                })
                &&& final(bindings).compacting == old(bindings).compacting
            }
        }),
{
    if !is_compaction_request(body, kind) {
        return Ok(None);
    }
    let keys = keys_of_compaction(headers, body);
    match CompactionGuard::acquire(bindings, keys) {
        Ok(guard) => Ok(Some(guard)),
        Err(failure) => Err(refuse_with(409, "compaction_in_progress", words_of(&failure))),
    }
}

/// A request that has a route and has been made ready to be sent on.
#[derive(Debug)]
pub struct RoutedRequest {
    pub resolved_model: String,
    pub selection: RouteSelection,
    pub subagent: bool,
    pub compacting: bool,
    pub request: AdmittedRequest,
}

#[verifier::ext_equal]
pub struct RoutedV {
    pub resolved: ResolvedV,
    pub compacting: bool,
    pub admitted: AdmittedV,
}

/// The route that a request with a route goes to.
pub open spec fn route_of(table: SnapshotV, resolved: ResolvedV) -> RouteTargetV {
    lookup(table.routes, resolved.selection.provider_id)->0
}

/// The body that a request with a route goes on with: its tools are mended, except for the
/// official account.
pub open spec fn routed_body(table: SnapshotV, resolved: ResolvedV, mended: Option<JsonV>) -> JsonV {
    mended_request(resolved.body, mended, route_of(table, resolved).official_account)
}

/// A request is given a route, and is then held against what the route can do. `mended` is what
/// mending the tools of the request makes of it, where that changes it.
pub open spec fn routed_request(
    table: SnapshotV,
    aliases: Seq<(Seq<char>, Seq<char>)>,
    default_model: Seq<char>,
    bindings: BindingsV,
    history: HistoryV,
    headers: Seq<(Seq<char>, Seq<char>)>,
    sent: JsonV,
    mended: Option<JsonV>,
    kind: ResponsesRequestKind,
    downstream_websocket: bool,
) -> Result<RoutedV, RefusalV> {
    match resolved_request(
        table,
        aliases,
        default_model,
        bindings,
        headers,
        sent,
        downstream_websocket,
    ) {
        Err(refusal) => Err(refusal),
        Ok(resolved) => match admitted_request(
            history,
            routed_body(table, resolved, mended),
            resolved.body_mutated || (mended is Some && !route_of(table, resolved).official_account),
            mended is Some && !route_of(table, resolved).official_account,
            kind,
            downstream_websocket,
            bridge_to(resolved.selection.protocol),
            route_of(table, resolved),
        ) {
            Err(refusal) => Err(refusal),
            Ok(admitted) => Ok(
                RoutedV {
                    resolved,
                    compacting: asks_compaction(routed_body(table, resolved, mended), kind),
                    admitted,
                },
            ),
        },
    }
}

/// What a socket knows of its conversation once a request has been given a route or turned down.
/// A request without a route leaves it alone.
pub open spec fn routed_history(
    table: SnapshotV,
    resolved: Result<ResolvedV, RefusalV>,
    history: HistoryV,
    mended: Option<JsonV>,
    kind: ResponsesRequestKind,
) -> HistoryV {
    match resolved {
        Err(_) => history,
        Ok(resolved) => history_after(
            history,
            routed_body(table, resolved, mended),
            kind,
            bridge_to(resolved.selection.protocol),
            route_of(table, resolved),
        ),
    }
}

/// Gives a request a route and makes it ready to be sent on, or says why it is turned down. A
/// request that gets no route leaves the bindings and the conversation as they were; one that its
/// route turns down is remembered all the same. `mended` is what mending the roots of the tools'
/// parameters makes of the request that was sent, where that changes it.
pub fn proxy_parsed_responses_inner(
    snapshot: &RouterSnapshot,
    bindings: &mut RouteBindings,
    history: &mut AdaptedResponsesHistory,
    headers: &mut Vec<(String, String)>,
    sent: Json,
    mended: Option<&Json>,
    kind: ResponsesRequestKind,
    downstream_websocket: bool,
) -> (r: Result<RoutedRequest, Refusal>)
    requires
        snapshot.inv(),
        old(bindings).inv(),
    ensures
        final(bindings).inv(),
        final(bindings).compacting == old(bindings).compacting,
        pairs_view(final(headers)@) == headers_after(
            snapshot.default_model@,
            pairs_view(old(headers)@),
            sent@,
            downstream_websocket,
        ),
        ({
            let resolved = resolved_request(
                snapshot.table(),
                snapshot.model_alias_history@,
                snapshot.default_model@,
                old(bindings).state(),
                pairs_view(old(headers)@),
                sent@,
                downstream_websocket,
            );
            &&& final(bindings).state() == match resolved {
                Err(_) => old(bindings).state(),
                Ok(resolved) => resolved.bindings,
            }
            &&& final(history)@ == routed_history(
                snapshot.table(),
                resolved,
                old(history)@,
                opt_view(mended),
                kind,
            )
        }),
        ({
            let goal = routed_request(
                snapshot.table(),
                snapshot.model_alias_history@,
                snapshot.default_model@,
                old(bindings).state(),
                old(history)@,
                pairs_view(old(headers)@),
                sent@,
                opt_view(mended),
                kind,
                downstream_websocket,
            );
            match r {
                Ok(x) => goal == Ok::<RoutedV, RefusalV>(
                    RoutedV {
                        resolved: ResolvedV {
                            headers: pairs_view(final(headers)@),
                            bindings: final(bindings).state(),
                            body: goal->Ok_0.resolved.body,
                            body_mutated: goal->Ok_0.resolved.body_mutated,
                            model: x.resolved_model@,
                            selection: x.selection@,
                            subagent: x.subagent,
                        },
                        compacting: x.compacting,
                        admitted: AdmittedV {
                            history: final(history)@,
                            body: x.request.body@,
                            body_mutated: x.request.body_mutated,
                            discard_encoded: x.request.discard_encoded,
                            stream_requested: x.request.stream_requested,
                            upstream_url: x.request.upstream_url@,
                        },
                    },
                ),
                Err(refusal) => goal == Err::<RoutedV, RefusalV>(refusal@),
            }
        }),
{
    let ghost before = bindings.state();
    let ghost given = pairs_view(headers@);
    let resolved = match resolve_responses_request(
        snapshot,
        bindings,
        headers,
        sent,
        downstream_websocket,
    ) {
        Err(refusal) => {
            return Err(refusal);
        },
        Ok(x) => x,
    };
    proof {
        a_resolved_request_has_a_live_route(
            snapshot.table(),
            snapshot.model_alias_history@,
            snapshot.default_model@,
            before,
            given,
            sent@,
            downstream_websocket,
        );
    }
    let bridge = ProtocolBridge::from_upstream_protocol(resolved.selection.protocol);
    let route = match snapshot.routes.get(resolved.selection.provider_id.as_str()) {
        Some(route) => route,
        None => {
            proof {
                assert(false);
            }
            return Err(refuse(404, "model_not_enabled", ""));
        },
    };
    let mut body = resolved.body;
    let restated = mend_tools(&mut body, mended, route.official_account);
    let compacting = is_compaction_request(&body, kind);
    match admit_responses_request(
        history,
        body,
        resolved.body_mutated || restated,
        restated,
        kind,
        downstream_websocket,
        bridge,
        route,
    ) {
        Err(refusal) => Err(refusal),
        Ok(request) => Ok(
            RoutedRequest {
                resolved_model: resolved.model,
                selection: resolved.selection,
                subagent: resolved.subagent,
                compacting,
                request,
            },
        ),
    }
}

/// What becomes of the answer of an upstream that speaks another protocol.
#[derive(Debug, Clone, Copy, PartialEq, Eq, Structural)]
pub enum AdaptedMode {
    /// It is told while it comes in.
    Stream,
    /// It is read whole and then told as events.
    Replay,
    /// It is read whole and told as one document.
    Document,
}

/// What becomes of the answer of an upstream that speaks another protocol.
pub fn write_adapted_upstream_as_responses(stream_requested: bool, is_sse: bool) -> (r: AdaptedMode)
    ensures
        r == if stream_requested && is_sse {
            AdaptedMode::Stream
        } else if stream_requested {
            AdaptedMode::Replay
        } else {
            AdaptedMode::Document
        },
{
    if stream_requested && is_sse {
        AdaptedMode::Stream
    } else if stream_requested {
        AdaptedMode::Replay
    } else {
        AdaptedMode::Document
    }
}

/// The answer where a request cannot be put in the form that its upstream takes.
pub fn refuse_conversion(route_name: &str, protocol: &str, failure: &Failure) -> (r: Refusal)
    ensures
        r@ == (RefusalV {
            status: 400,
            code: "unsupported_responses_payload"@,
            words: "线路「"@ + route_name@ + "」选择了 "@ + protocol@ + "，但当前请求无法转换："@
                + failure_words(failure@),
        }),
{
    let front = cat5("线路「", route_name, "」选择了 ", protocol, "，但当前请求无法转换：");
    refuse_with(
        400,
        "unsupported_responses_payload",
        cat2(front.as_str(), words_of(failure).as_str()),
    )
}

/// The answer where the conversation of a request takes more memory than there is for it.
pub fn refuse_context_budget(failure: &Failure) -> (r: Refusal)
    ensures
        r@ == (RefusalV {
            status: 413,
            code: "context_budget_exceeded"@,
            words: failure_words(failure@),
        }),
{
    refuse_with(413, "context_budget_exceeded", words_of(failure))
}

/// A request that goes over HTTP in the end, though a socket was tried.
#[derive(Debug)]
pub struct FallbackRequest {
    pub body: Json,
    /// The body is no longer the one that came.
    pub body_mutated: bool,
}

/// A request that falls back to HTTP: what it goes on from is written out where the router knows
/// it. `had_previous` says that the request named an earlier response before the socket was tried.
pub open spec fn fallback(
    history: NativeV,
    owner: Seq<u8>,
    body: JsonV,
    had_previous: bool,
    body_mutated: bool,
) -> Result<(JsonV, bool), RefusalV> {
    let expanded_before = had_previous && body.get_str("previous_response_id"@) is None;
    match restored(history, owner, body) {
        Ok(Some(whole)) => Ok((whole, true)),
        Ok(None) => Ok((body, body_mutated || expanded_before)),
        Err(failure) => Err(
            RefusalV {
                status: 400,
                code: "context_not_recoverable"@,
                words: failure_words(failure),
            },
        ),
    }
}

/// Makes a request ready for HTTP after a socket was tried.
pub fn prepare_native_http_fallback(
    history: &NativeResponsesHistory,
    owner: &Fingerprint,
    body: Json,
    had_previous: bool,
    body_mutated: bool,
) -> (r: Result<FallbackRequest, Refusal>)
    ensures
        match r {
            Ok(request) => fallback(history@, owner@, body@, had_previous, body_mutated) == Ok::<
                (JsonV, bool),
                RefusalV,
            >((request.body@, request.body_mutated)),
            Err(refusal) => fallback(history@, owner@, body@, had_previous, body_mutated) == Err::<
                (JsonV, bool),
                RefusalV,
            >(refusal@),
        },
{
    let mut body = body;
    let expanded_before = had_previous && body.get_str("previous_response_id").is_none();
    match history.restore(owner, &mut body) {
        Ok(true) => Ok(FallbackRequest { body, body_mutated: true }),
        Ok(false) => Ok(FallbackRequest { body, body_mutated: body_mutated || expanded_before }),
        Err(failure) => Err(
            refuse_with(400, "context_not_recoverable", words_of(&failure)),
        ),
    }
}

/// The headers that may name a request, in the order in which they are looked at.
pub open spec fn named_request(headers: Seq<(Seq<char>, Seq<char>)>) -> Option<Seq<char>> {
    match header_value(headers, "x-request-id"@) {
        Some(id) => Some(id),
        None => match header_value(headers, "request-id"@) {
            Some(id) => Some(id),
            None => match header_value(headers, "x-amzn-requestid"@) {
                Some(id) => Some(id),
                None => header_value(headers, "cf-ray"@),
            },
        },
    }
}

/// What an upstream calls a request.
pub open spec fn upstream_request_id(headers: Seq<(Seq<char>, Seq<char>)>) -> Option<Seq<char>> {
    match named_request(headers) {
        Some(id) => bounded_id(id),
        None => None,
    }
}

/// What an upstream calls a request.
pub fn upstream_request_id_from_headers(headers: &Vec<(String, String)>) -> (r: Option<String>)
    ensures
        string_view(r) == upstream_request_id(pairs_view(headers@)),
{
    let found = match incoming_header(headers, "x-request-id") {
        Some(id) => Some(id),
        None => match incoming_header(headers, "request-id") {
            Some(id) => Some(id),
            None => match incoming_header(headers, "x-amzn-requestid") {
                Some(id) => Some(id),
                None => incoming_header(headers, "cf-ray"),
            },
        },
    };
    match found {
        Some(id) => bounded_upstream_request_id(id),
        None => None,
    }
}

/// How an error of an upstream is told.
#[derive(Debug)]
pub struct UpstreamHttpError {
    pub refusal: Refusal,
    /// As plain words rather than as a document.
    pub as_text: bool,
    /// What the log is told of it.
    pub detail: Option<String>,
}

#[verifier::ext_equal]
pub struct HttpErrorV {
    pub refusal: RefusalV,
    pub as_text: bool,
    pub detail: Option<Seq<char>>,
}

impl View for UpstreamHttpError {
    type V = HttpErrorV;

    open spec fn view(&self) -> HttpErrorV {
        HttpErrorV {
            refusal: self.refusal@,
            as_text: self.as_text,
            detail: string_view(self.detail),
        }
    }
}

/// How an error of an upstream is told: with the status that it has, by what its body says.
pub open spec fn upstream_error(
    route_name: Seq<char>,
    model: Seq<char>,
    status: u16,
    headers: Seq<(Seq<char>, Seq<char>)>,
    body: Option<JsonV>,
    secrets: Seq<Seq<char>>,
    websocket: bool,
) -> HttpErrorV {
    let detail = match body {
        Some(value) => socket_error_detail(value, secrets),
        None => None,
    };
    HttpErrorV {
        refusal: RefusalV {
            status,
            code: "upstream_http_error"@,
            words: http_error_words(
                route_name,
                model,
                status,
                detail,
                upstream_request_id(headers),
            ),
        },
        as_text: !websocket,
        detail,
    }
}

/// Tells an error of an upstream, by what its body parses to.
pub fn tell_upstream_error(
    route_name: &str,
    model: &str,
    status: u16,
    headers: &Vec<(String, String)>,
    body: Option<&Json>,
    secrets: &Vec<String>,
    websocket: bool,
) -> (r: UpstreamHttpError)
    ensures
        r@ == upstream_error(
            route_name@,
            model@,
            status,
            pairs_view(headers@),
            opt_view(body),
            texts(secrets@),
            websocket,
        ),
{
    let detail = match body {
        Some(value) => {
            let summary = upstream_error_summary(value, secrets);
            upstream_error_detail(&summary)
        },
        None => None,
    };
    let request_id = upstream_request_id_from_headers(headers);
    let shown_detail = match &detail {
        Some(d) => Some(d.as_str()),
        None => None,
    };
    let shown_id = match &request_id {
        Some(id) => Some(id.as_str()),
        None => None,
    };
    let words = upstream_http_error_message(route_name, model, status, shown_detail, shown_id);
    UpstreamHttpError {
        refusal: refuse_with(status, "upstream_http_error", words),
        as_text: !websocket,
        detail,
    }
}

/// Tells an error of an upstream.
pub fn write_upstream_http_error(
    route_name: &str,
    model: &str,
    status: u16,
    headers: &Vec<(String, String)>,
    body: &Vec<u8>,
    secrets: &Vec<String>,
    websocket: bool,
) -> (r: UpstreamHttpError)
    ensures
        r@ == upstream_error(
            route_name@,
            model@,
            status,
            pairs_view(headers@),
            match json_parsed(body@) {
                Ok(value) => Some(value),
                Err(_) => None,
            },
            texts(secrets@),
            websocket,
        ),
{
    match parse_bytes(body.as_slice()) {
        Ok(value) => tell_upstream_error(
            route_name,
            model,
            status,
            headers,
            Some(&value),
            secrets,
            websocket,
        ),
        Err(_) => tell_upstream_error(route_name, model, status, headers, None, secrets, websocket),
    }
}

/// The answer on a socket where an upstream's answer over HTTP broke off.
pub fn refuse_response(route_name: &str, error: &str, secrets: &Vec<String>) -> (r: Refusal)
    ensures
        r@ == (RefusalV {
            status: 502,
            code: "upstream_response_failed"@,
            words: "Codey 线路「"@ + route_name@ + "」处理上游 HTTP 响应失败："@ + (match sanitized(
                error@,
                texts(secrets@),
                512,
            ) {
                Some(detail) => detail,
                None => "上游响应未能完成"@,
            }),
        }),
{
    let detail = match sanitize_upstream_error_text(error, secrets, 512) {
        Some(detail) => detail,
        None => "上游响应未能完成".to_owned(),
    };
    refuse_with(
        502,
        "upstream_response_failed",
        cat4("Codey 线路「", route_name, "」处理上游 HTTP 响应失败：", detail.as_str()),
    )
}

/// What a message on a socket is.
#[derive(Debug, Clone, Copy, PartialEq, Eq, Structural)]
pub enum SocketMessage {
    Text,
    Ping,
    Pong,
    Close,
    Other,
}

/// What is done with a message on a socket.
#[derive(Debug, Clone, Copy, PartialEq, Eq, Structural)]
pub enum SocketStep {
    /// It is taken as a request.
    Request,
    Answer,
    Ignore,
    Close,
    /// The client is told that only text is taken.
    Refuse,
}

/// What is done with a message on a socket.
pub fn socket_step(message: SocketMessage) -> (r: SocketStep)
    ensures
        r == match message {
            SocketMessage::Text => SocketStep::Request,
            SocketMessage::Ping => SocketStep::Answer,
            SocketMessage::Pong => SocketStep::Ignore,
            SocketMessage::Close => SocketStep::Close,
            SocketMessage::Other => SocketStep::Refuse,
        },
{
    match message {
        SocketMessage::Text => SocketStep::Request,
        SocketMessage::Ping => SocketStep::Answer,
        SocketMessage::Pong => SocketStep::Ignore,
        SocketMessage::Close => SocketStep::Close,
        SocketMessage::Other => SocketStep::Refuse,
    }
}

/// What a client is told of a message that is no text.
pub fn refuse_socket_message() -> (r: Refusal)
    ensures
        r@ == (RefusalV {
            status: 400,
            code: "unsupported_websocket_message"@,
            words: "Codey Responses WebSocket 仅接受 JSON 文本消息"@,
        }),
{
    refuse(400, "unsupported_websocket_message", "Codey Responses WebSocket 仅接受 JSON 文本消息")
}

/// What a client on a socket is told of a request that failed, unless its last event has begun.
pub fn refuse_socket_failure(request_id: &str, terminal_started: bool) -> (r: Option<Refusal>)
    ensures
        refusal_view(r) == if terminal_started {
            None
        } else {
            Some(
                RefusalV {
                    status: 502,
                    code: "websocket_proxy_failed"@,
                    words: "Codey 本地路由处理请求失败；请求 ID："@ + request_id@,
                },
            )
        },
{
    if terminal_started {
        None
    } else {
        Some(
            refuse_with(
                502,
                "websocket_proxy_failed",
                cat2("Codey 本地路由处理请求失败；请求 ID：", request_id),
            ),
        )
    }
}

/// What the log of a request is told.
#[derive(Debug, Clone, Copy, PartialEq, Eq, Structural)]
pub enum LogMark {
    /// The answer has begun, with a status.
    Started(u16),
    /// The client got the first part of what it asked for.
    FirstContent,
    /// The request failed, with a status.
    Failed(u16),
    Succeeded,
    Cancelled,
}

/// What the client is sent.
#[derive(Debug, Clone, Copy, PartialEq, Eq, Structural)]
pub enum Sent {
    /// An error with a status.
    Error(u16),
    /// A document with a status.
    Document(u16),
    StreamStart,
    /// An event; whether it carries what the client asked for.
    Event(bool),
    StreamEnd,
    /// The answer of the upstream as it came.
    Relay,
}

/// What the log is told of what the client is sent, and whether that succeeded.
pub open spec fn log_marks(sent: Sent, ok: bool) -> Seq<LogMark> {
    let end = if ok {
        seq![LogMark::Succeeded]
    } else {
        seq![LogMark::Cancelled]
    };
    match sent {
        Sent::Error(status) => seq![LogMark::Failed(status)] + end,
        Sent::Document(status) => if ok && 200 <= status < 300 {
            seq![LogMark::FirstContent] + end
        } else {
            end
        },
        Sent::StreamStart => if ok {
            seq![LogMark::Started(200)]
        } else {
            end
        },
        Sent::Event(content) => if !ok {
            end
        } else if content {
            seq![LogMark::Started(200), LogMark::FirstContent]
        } else {
            seq![LogMark::Started(200)]
        },
        Sent::StreamEnd => end,
        Sent::Relay => end,
    }
}

/// What the log is told of what the client is sent.
pub fn observe_sent(sent: Sent, ok: bool) -> (r: Vec<LogMark>)
    ensures
        r@ == log_marks(sent, ok),
{
    let mut out: Vec<LogMark> = Vec::new();
    let ended = match sent {
        Sent::Error(status) => {
            out.push(LogMark::Failed(status));
            true
        },
        Sent::Document(status) => {
            if ok && 200 <= status && status < 300 {
                out.push(LogMark::FirstContent);
            }
            true
        },
        Sent::StreamStart => {
            if ok {
                out.push(LogMark::Started(200));
            }
            !ok
        },
        Sent::Event(content) => {
            if ok {
                out.push(LogMark::Started(200));
                if content {
                    out.push(LogMark::FirstContent);
                }
            }
            !ok
        },
        Sent::StreamEnd => true,
        Sent::Relay => true,
    };
    if ended {
        if ok {
            out.push(LogMark::Succeeded);
        } else {
            out.push(LogMark::Cancelled);
        }
    }
    proof {
        assert(out@ =~= log_marks(sent, ok));
    }
    out
}

/// How an attempt over a socket ended.
#[derive(Debug, Clone, Copy, PartialEq, Eq, Structural)]
pub enum UpstreamWebSocketAttempt {
    Completed,
    /// HTTP is used in its place.
    UseHttp,
    /// The client went away.
    Closed,
    Broken,
}

/// What the log is told of an attempt over a socket.
pub fn observe_attempt(attempt: UpstreamWebSocketAttempt) -> (r: Option<LogMark>)
    ensures
        r == match attempt {
            UpstreamWebSocketAttempt::Completed => Some(LogMark::Succeeded),
            UpstreamWebSocketAttempt::UseHttp => None,
            UpstreamWebSocketAttempt::Closed => Some(LogMark::Cancelled),
            UpstreamWebSocketAttempt::Broken => Some(LogMark::Failed(502)),
        },
{
    match attempt {
        UpstreamWebSocketAttempt::Completed => Some(LogMark::Succeeded),
        UpstreamWebSocketAttempt::UseHttp => None,
        UpstreamWebSocketAttempt::Closed => Some(LogMark::Cancelled),
        UpstreamWebSocketAttempt::Broken => Some(LogMark::Failed(502)),
    }
}

/// The client is told the status that the upstream gave, whatever protocol the upstream speaks.
pub proof fn an_upstream_status_is_kept(
    route_name: Seq<char>,
    model: Seq<char>,
    status: u16,
    headers: Seq<(Seq<char>, Seq<char>)>,
    body: Option<JsonV>,
    secrets: Seq<Seq<char>>,
    websocket: bool,
)
    ensures
        upstream_error(
            route_name,
            model,
            status,
            headers,
            body,
            secrets,
            websocket,
        ).refusal.status == status,
{
}

/// A request is never logged as having succeeded where the client could not be written to.
pub proof fn a_failed_write_is_no_success(sent: Sent)
    ensures
        !log_marks(sent, false).contains(LogMark::Succeeded),
        log_marks(sent, false).last() == LogMark::Cancelled,
{
}

/// A request that has a route goes to that route's own address, by the protocol that the route speaks;
/// and it asks for what was asked, but for the model, which is the route's, for the tools and the input,
/// which may be mended, and for how it is streamed and what it goes on from.
pub proof fn a_routed_request_asks_for_what_was_asked(
    table: SnapshotV,
    aliases: Seq<(Seq<char>, Seq<char>)>,
    default_model: Seq<char>,
    bindings: BindingsV,
    history: HistoryV,
    headers: Seq<(Seq<char>, Seq<char>)>,
    sent: JsonV,
    mended: Option<JsonV>,
    kind: ResponsesRequestKind,
    downstream_websocket: bool,
    key: Seq<char>,
)
    requires
        sent is Object,
        routed_request(
            table,
            aliases,
            default_model,
            bindings,
            history,
            headers,
            sent,
            mended,
            kind,
            downstream_websocket,
        ) is Ok,
    ensures
        ({
            let given = routed_request(
                table,
                aliases,
                default_model,
                bindings,
                history,
                headers,
                sent,
                mended,
                kind,
                downstream_websocket,
            )->Ok_0;
            let resolved = resolved_request(
                table,
                aliases,
                default_model,
                bindings,
                headers,
                sent,
                downstream_websocket,
            );
            let route = lookup(table.routes, given.resolved.selection.provider_id)->0;
            &&& resolved == Ok::<ResolvedV, RefusalV>(given.resolved)
            &&& given.admitted.body.get("model"@) == given.resolved.body.get("model"@)
            &&& kind == ResponsesRequestKind::Create ==> route.upstream_url == Ok::<
                Seq<char>,
                Seq<char>,
            >(given.admitted.upstream_url)
            &&& kind == ResponsesRequestKind::Compact ==> route.upstream_compact_url == Ok::<
                Seq<char>,
                Seq<char>,
            >(given.admitted.upstream_url)
            &&& given.compacting ==> route.supports_remote_compaction
                && given.resolved.selection.protocol == UpstreamProtocol::OpenAiResponses
            &&& mended is Some && !route.official_account && mended->0.get("tools"@) is Some
                ==> given.admitted.body.get("tools"@) == mended->0.get("tools"@)
            &&& mended is None || route.official_account ==> given.admitted.body.get("tools"@)
                == sent.get("tools"@)
            &&& key != "model"@ && key != "client_metadata"@ && key != "tools"@ && key != "input"@
                && key != "stream"@ && key != "stream_id"@ && key != "previous_response_id"@
                ==> given.admitted.body.get(key) == sent.get(key)
        }),
{
    let resolved = resolved_request(
        table,
        aliases,
        default_model,
        bindings,
        headers,
        sent,
        downstream_websocket,
    )->Ok_0;
    let route = route_of(table, resolved);
    let body = routed_body(table, resolved, mended);
    let bridge = bridge_to(resolved.selection.protocol);
    let changed = mended is Some && !route.official_account;
    let altered = resolved.body_mutated || changed;
    reveal_strlit("tools");
    reveal_strlit("model");
    reveal_strlit("input");
    reveal_strlit("stream");
    reveal_strlit("stream_id");
    reveal_strlit("client_metadata");
    reveal_strlit("previous_response_id");
    assert("tools"@.len() == 5 && "tools"@[0] == 't' && "model"@.len() == 5 && "model"@[0] == 'm'
        && "input"@.len() == 5 && "input"@[0] == 'i' && "stream"@.len() == 6 && "stream_id"@.len()
        == 9 && "client_metadata"@.len() == 15 && "previous_response_id"@.len() == 20);
    a_body_goes_upstream_as_it_was_sent(
        table,
        aliases,
        default_model,
        bindings,
        headers,
        sent,
        downstream_websocket,
        key,
    );
    a_body_goes_upstream_as_it_was_sent(
        table,
        aliases,
        default_model,
        bindings,
        headers,
        sent,
        downstream_websocket,
        "tools"@,
    );
    assert(resolved.body is Object);
    if let Some(made) = mended {
        only_tools_and_input_are_mended(resolved.body, made, route.official_account, key);
        only_tools_and_input_are_mended(resolved.body, made, route.official_account, "model"@);
        only_tools_and_input_are_mended(resolved.body, made, route.official_account, "tools"@);
    }
    assert(body is Object);
    an_admitted_request_asks_for_the_same(
        history,
        body,
        altered,
        changed,
        kind,
        downstream_websocket,
        bridge,
        route,
        key,
    );
    an_admitted_request_asks_for_the_same(
        history,
        body,
        altered,
        changed,
        kind,
        downstream_websocket,
        bridge,
        route,
        "model"@,
    );
    an_admitted_request_asks_for_the_same(
        history,
        body,
        altered,
        changed,
        kind,
        downstream_websocket,
        bridge,
        route,
        "tools"@,
    );
}

} // verus!
