//! What the router does with a connection, a message on a socket and a request: which answer it
//! gives itself, where it sends the rest, and what it makes of the outcome.
use crate::ids::{fresh_id, has_form};
use crate::json::{
    Json, JsonV, json_parsed, opt_view, owned, parse_bytes, parse_text, string_view, text_parsed,
    views, views_push,
};
use crate::local_router::adapt::{
    ToolCall, ToolCallV, body_is_data_stream, body_is_event_stream, calls_view,
    looks_like_data_stream, looks_like_event_stream, output_text,
};
use crate::local_router::bindings::{
    BindingsV, MAX_ROUTE_BINDINGS, RouteBindings, a_conversation_is_found_again, first_bound,
    remembered,
};
use crate::local_router::compaction::{
    ResponsesRequestKind, asks_compaction, compaction_check, is_compaction_request, not_portable,
    portable, validate_compaction_result, validate_portable_context,
};
use crate::local_router::errors::{Failure, FailureV, fail, fail_with, json_result};
use crate::local_router::history::{
    AdaptedResponsesHistory, HistoryV, adapted_context, continued_id, expanded,
};
use crate::local_router::request_meta::{
    authorized, binding_keys, client_metadata, continues_own_response,
    has_codey_synthetic_previous_response_id, header_value, is_route_text, names_route,
    request_binding_keys, request_is_subagent, should_force_upstream_streaming,
    should_passthrough_native_responses, take_codey_route_metadata, taken_hint,
    the_named_route_is_taken, the_rest_of_the_body_stays,
};
use crate::local_router::routing::{
    ProtocolBridge, RouteInput, RouteSelection, RouteTarget, RouteTargetV, RouterSnapshot,
    SelectionV, SnapshotV, UpstreamProtocol, a_picked_route_wins, a_selected_route_has_the_model,
    display_name, in_use, is_given, is_selector, meant_model, route_display_name, route_id,
    select_auxiliary, select_route, serves, whole_table,
};
use crate::local_router::sse::pending;
use crate::local_router::sse_anthropic::{
    a_response_says_what_the_message_said, anthropic_response, make_message_document,
    message_parts, parse_anthropic_message_sse_bytes, parsed_message, read_anthropic_message,
};
use crate::local_router::sse_chat::{
    a_response_says_what_the_completion_said, chat_parts, chat_response, chat_stream_read,
    make_chat_document, parse_chat_completion_sse_bytes, read_chat_completion,
};
use crate::local_router::websocket_context::{
    is_stream_char, responses_websocket_stream_id, stream_id,
};
use crate::text::{
    cat2, cat3, cat4, cat5, chars_of, ends_with, has_prefix, has_suffix, pairs_view, starts_with,
    str_eq, text_of, texts, trim, trim_leaves_clean_ends, trimmed, words,
};
use crate::textmap::lookup;
use vstd::prelude::*;
use vstd::string::*;

verus! {

/// An answer with which the router itself turns a request down.
#[derive(Debug)]
pub struct Refusal {
    pub status: u16,
    pub code: &'static str,
    pub words: String,
}

#[verifier::ext_equal]
pub struct RefusalV {
    pub status: u16,
    pub code: Seq<char>,
    pub words: Seq<char>,
}

impl View for Refusal {
    type V = RefusalV;

    open spec fn view(&self) -> RefusalV {
        RefusalV { status: self.status, code: self.code@, words: self.words@ }
    }
}

pub(crate) fn refuse(status: u16, code: &'static str, words: &str) -> (r: Refusal)
    ensures
        r@ == (RefusalV { status, code: code@, words: words@ }),
{
    Refusal { status, code, words: words.to_owned() }
}

pub(crate) fn refuse_with(status: u16, code: &'static str, words: String) -> (r: Refusal)
    ensures
        r@ == (RefusalV { status, code: code@, words: words@ }),
{
    Refusal { status, code, words }
}

/// The words of a failure.
pub open spec fn failure_words(f: FailureV) -> Seq<char> {
    match f {
        FailureV::ContextLength => "context_length_exceeded"@,
        FailureV::Text(words) => words,
    }
}

/// The words of a failure.
pub fn words_of(f: &Failure) -> (r: String)
    ensures
        r@ == failure_words(f@),
{
    match f {
        Failure::ContextLength => "context_length_exceeded".to_owned(),
        Failure::Text(words) => words.clone(),
    }
}

/// Connections that are served at the same time, and connections that are turned down at the same
/// time.
pub const MAX_CONCURRENT_CONNECTIONS: usize = 64;

pub const MAX_CONCURRENT_REJECTIONS: usize = 4;

/// What becomes of a new connection.
#[derive(Clone, Copy, Debug, PartialEq, Eq, Structural)]
pub enum Admission {
    Serve,
    /// It is told that the router is busy.
    Reject,
    /// It is closed without a word.
    Close,
}

/// What becomes of a new connection, with so many being served and so many being turned down.
pub fn admit_connection(served: usize, rejected: usize) -> (r: Admission)
    ensures
        r == if served < MAX_CONCURRENT_CONNECTIONS {
            Admission::Serve
        } else if rejected < MAX_CONCURRENT_REJECTIONS {
            Admission::Reject
        } else {
            Admission::Close
        },
{
    if served < MAX_CONCURRENT_CONNECTIONS {
        Admission::Serve
    } else if rejected < MAX_CONCURRENT_REJECTIONS {
        Admission::Reject
    } else {
        Admission::Close
    }
}

/// What a connection that is turned down is told.
pub fn busy_refusal() -> (r: Refusal)
    ensures
        r@ == (RefusalV { status: 503, code: "router_busy"@, words: "Codey 本地路由当前请求过多，请稍后重试"@ }),
{
    refuse(503, "router_busy", "Codey 本地路由当前请求过多，请稍后重试")
}

/// A text without an ending, however often it stands there.
pub open spec fn trim_ending(s: Seq<char>, ending: Seq<char>) -> Seq<char>
    decreases s.len(),
{
    if ending.len() > 0 && ends_with(s, ending) {
        trim_ending(s.subrange(0, s.len() - ending.len()), ending)
    } else {
        s
    }
}

fn without_ending(s: &str, ending: &str) -> (r: String)
    ensures
        r@ == trim_ending(s@, ending@),
{
    let n = chars_of(ending).len();
    if n == 0 {
        return s.to_owned();
    }
    let mut t = s.to_owned();
    while has_suffix(t.as_str(), ending)
        invariant
            n == ending@.len(),
            n > 0,
            trim_ending(s@, ending@) == trim_ending(t@, ending@),
        decreases t@.len(),
    {
        let v = chars_of(t.as_str());
        t = text_of(&v, 0, v.len() - n);
    }
    t
}

/// The address of the router's request log.
pub fn request_log_url(base_url: &str, token: &str) -> (r: String)
    ensures
        r@ == trim_ending(base_url@, "/v1"@) + "/codey/request-logs#"@ + token@,
{
    cat3(without_ending(base_url, "/v1").as_str(), "/codey/request-logs#", token)
}

/// Where a request goes.
#[derive(Clone, Copy, Debug, PartialEq, Eq, Structural)]
pub enum Endpoint {
    Health,
    LogPage,
    LogScript,
    /// The request does not carry the router's token.
    Unauthorized,
    Models,
    LogCatalog,
    LogQuery,
    LogStatistics,
    LogClear,
    Responses,
    Compact,
    Images,
    NotFound,
}

/// Where a request goes. Only the health check and the pages of the log are open to all.
pub open spec fn endpoint_of(method: Seq<char>, path: Seq<char>, authorized: bool) -> Endpoint {
    if path == "/healthz"@ {
        Endpoint::Health
    } else if method == "GET"@ && path == "/codey/request-logs"@ {
        Endpoint::LogPage
    } else if method == "GET"@ && path == "/codey/request-logs.js"@ {
        Endpoint::LogScript
    } else if !authorized {
        Endpoint::Unauthorized
    } else if method == "GET"@ && (path == "/v1/models"@ || path == "/models"@) {
        Endpoint::Models
    } else if method != "POST"@ {
        Endpoint::NotFound
    } else if path == "/codey/api/load_codey_config"@ {
        Endpoint::LogCatalog
    } else if path == "/codey/api/query_route_request_logs"@ {
        Endpoint::LogQuery
    } else if path == "/codey/api/query_route_request_log_stats"@ {
        Endpoint::LogStatistics
    } else if path == "/codey/api/clear_route_request_logs"@ {
        Endpoint::LogClear
    } else if path == "/v1/responses"@ || path == "/responses"@ {
        Endpoint::Responses
    } else if path == "/v1/images/generations"@ || path == "/images/generations"@ {
        Endpoint::Images
    } else if path == "/v1/responses/compact"@ || path == "/responses/compact"@ || path
        == "/v1/v1/responses/compact"@ || path == "/codex/v1/responses/compact"@ {
        Endpoint::Compact
    } else {
        Endpoint::NotFound
    }
}

/// Where a request goes.
pub fn handle_connection(method: &str, path: &str, authorized: bool) -> (r: Endpoint)
    ensures
        r == endpoint_of(method@, path@, authorized),
{
    let get = str_eq(method, "GET");
    if str_eq(path, "/healthz") {
        Endpoint::Health
    } else if get && str_eq(path, "/codey/request-logs") {
        Endpoint::LogPage
    } else if get && str_eq(path, "/codey/request-logs.js") {
        Endpoint::LogScript
    } else if !authorized {
        Endpoint::Unauthorized
    } else if get && (str_eq(path, "/v1/models") || str_eq(path, "/models")) {
        Endpoint::Models
    } else if !str_eq(method, "POST") {
        Endpoint::NotFound
    } else if str_eq(path, "/codey/api/load_codey_config") {
        Endpoint::LogCatalog
    } else if str_eq(path, "/codey/api/query_route_request_logs") {
        Endpoint::LogQuery
    } else if str_eq(path, "/codey/api/query_route_request_log_stats") {
        Endpoint::LogStatistics
    } else if str_eq(path, "/codey/api/clear_route_request_logs") {
        Endpoint::LogClear
    } else if str_eq(path, "/v1/responses") || str_eq(path, "/responses") {
        Endpoint::Responses
    } else if str_eq(path, "/v1/images/generations") || str_eq(path, "/images/generations") {
        Endpoint::Images
    } else if str_eq(path, "/v1/responses/compact") || str_eq(path, "/responses/compact") || str_eq(
        path,
        "/v1/v1/responses/compact",
    ) || str_eq(path, "/codex/v1/responses/compact") {
        Endpoint::Compact
    } else {
        Endpoint::NotFound
    }
}

/// Nothing but the health check and the pages of the log is served without the router's token.
pub proof fn only_public_pages_without_token(method: Seq<char>, path: Seq<char>)
    ensures
        ({
            let e = endpoint_of(method, path, false);
            e == Endpoint::Health || e == Endpoint::LogPage || e == Endpoint::LogScript || e
                == Endpoint::Unauthorized
        }),
{
}

/// What a request without the router's token, and one for an unknown path, are told.
pub open spec fn endpoint_refusal(endpoint: Endpoint) -> Option<RefusalV> {
    match endpoint {
        Endpoint::Unauthorized => Some(
            RefusalV { status: 401, code: "invalid_router_token"@, words: "Codey 本地路由认证失败"@ },
        ),
        Endpoint::NotFound => Some(
            RefusalV { status: 404, code: "route_not_found"@, words: "Codey 本地路由不支持该路径"@ },
        ),
        _ => None,
    }
}

pub open spec fn refusal_view(r: Option<Refusal>) -> Option<RefusalV> {
    match r {
        Some(x) => Some(x@),
        None => None,
    }
}

/// What a request that goes nowhere is told.
pub fn refuse_endpoint(endpoint: Endpoint) -> (r: Option<Refusal>)
    ensures
        refusal_view(r) == endpoint_refusal(endpoint),
{
    match endpoint {
        Endpoint::Unauthorized => Some(refuse(401, "invalid_router_token", "Codey 本地路由认证失败")),
        Endpoint::NotFound => Some(refuse(404, "route_not_found", "Codey 本地路由不支持该路径")),
        _ => None,
    }
}

/// A request that was turned down goes into the log, unless it was for the log itself.
pub fn logs_rejection(path: &str) -> (r: bool)
    ensures
        r == !starts_with(path@, "/codey/"@),
{
    !has_prefix(path, "/codey/")
}

/// Why a request could not be read.
#[derive(Clone, Copy, Debug, PartialEq, Eq, Structural)]
pub enum ReadFault {
    Invalid,
    TimedOut,
    /// The memory for requests is taken.
    Busy,
}

pub open spec fn read_refusal(fault: ReadFault, detail: Seq<char>) -> RefusalV {
    match fault {
        ReadFault::Invalid => RefusalV {
            status: 400,
            code: "invalid_http_request"@,
            words: "本地路由请求无效："@ + detail,
        },
        ReadFault::TimedOut => RefusalV {
            status: 408,
            code: "request_timeout"@,
            words: "读取本地路由请求超时"@,
        },
        ReadFault::Busy => RefusalV {
            status: 503,
            code: "router_memory_busy"@,
            words: "Codey 本地路由请求缓冲区已满，请稍后重试"@,
        },
    }
}

/// What a request that could not be read is told.
pub fn refuse_read(fault: ReadFault, detail: &str) -> (r: Refusal)
    ensures
        r@ == read_refusal(fault, detail@),
{
    match fault {
        ReadFault::Invalid => refuse_with(
            400,
            "invalid_http_request",
            cat2("本地路由请求无效：", detail),
        ),
        ReadFault::TimedOut => refuse(408, "request_timeout", "读取本地路由请求超时"),
        ReadFault::Busy => refuse(503, "router_memory_busy", "Codey 本地路由请求缓冲区已满，请稍后重试"),
    }
}

/// The list of models.
pub open spec fn model_list(ids: Seq<Seq<char>>) -> JsonV {
    JsonV::obj().with("object"@, JsonV::Str("list"@)).with(
        "data"@,
        JsonV::Array(
            Seq::new(
                ids.len(),
                |i: int|
                    JsonV::obj().with("id"@, JsonV::Str(ids[i])).with(
                        "object"@,
                        JsonV::Str("model"@),
                    ).with("owned_by"@, JsonV::Str("codey"@)),
            ),
        ),
    )
}

/// The list of models.
pub fn make_model_list(ids: &Vec<String>) -> (r: Json)
    ensures
        r@ == model_list(texts(ids@)),
{
    let mut data: Vec<Json> = Vec::new();
    let ghost all = model_list(texts(ids@)).get_array("data"@)->0;
    let mut i: usize = 0;
    while i < ids.len()
        invariant
            i <= ids.len(),
            all == Seq::new(
                texts(ids@).len(),
                |i: int|
                    JsonV::obj().with("id"@, JsonV::Str(texts(ids@)[i])).with(
                        "object"@,
                        JsonV::Str("model"@),
                    ).with("owned_by"@, JsonV::Str("codey"@)),
            ),
            views(data@) == all.subrange(0, i as int),
        decreases ids.len() - i,
    {
        let entry = Json::obj().with("id", Json::str(ids[i].as_str())).with(
            "object",
            Json::str("model"),
        ).with("owned_by", Json::str("codey"));
        proof {
            assert(all[i as int] == entry@);
            views_push(data@, entry);
        }
        data.push(entry);
        i = i + 1;
        proof {
            assert(views(data@) =~= all.subrange(0, i as int));
        }
    }
    proof {
        assert(all.subrange(0, i as int) =~= all);
    }
    Json::obj().with("object", Json::str("list")).with("data", Json::array(data))
}

/// A document that a request brought: an object, or why not.
pub open spec fn object_or_refusal(
    parsed: Result<JsonV, Seq<char>>,
    not_object: Seq<char>,
    not_json: Seq<char>,
) -> Result<JsonV, RefusalV> {
    match parsed {
        Ok(v) => if v.is_object() {
            Ok(v)
        } else {
            Err(RefusalV { status: 400, code: "invalid_request_body"@, words: not_object })
        },
        Err(words) => Err(
            RefusalV { status: 400, code: "invalid_request_body"@, words: not_json + words },
        ),
    }
}

pub open spec fn object_result(r: Result<Json, Refusal>) -> Result<JsonV, RefusalV> {
    match r {
        Ok(v) => Ok(v@),
        Err(e) => Err(e@),
    }
}

pub open spec fn parsed_view(r: Result<Json, String>) -> Result<JsonV, Seq<char>> {
    match r {
        Ok(v) => Ok(v@),
        Err(e) => Err(e@),
    }
}

/// Takes the document that a request brought, if it is an object.
pub fn require_object(parsed: Result<Json, String>, not_object: &str, not_json: &str) -> (r: Result<
    Json,
    Refusal,
>)
    ensures
        object_result(r) == object_or_refusal(parsed_view(parsed), not_object@, not_json@),
{
    match parsed {
        Ok(v) => if v.is_object() {
            Ok(v)
        } else {
            Err(refuse(400, "invalid_request_body", not_object))
        },
        Err(words) => Err(
            refuse_with(400, "invalid_request_body", cat2(not_json, words.as_str())),
        ),
    }
}

/// The document of a Responses request.
pub fn proxy_responses(body: &Vec<u8>) -> (r: Result<Json, Refusal>)
    ensures
        object_result(r) == object_or_refusal(
            json_parsed(body@),
            "Responses 请求体必须是 JSON 对象"@,
            "Responses 请求体不是有效 JSON："@,
        ),
{
    require_object(
        parse_bytes(body.as_slice()),
        "Responses 请求体必须是 JSON 对象",
        "Responses 请求体不是有效 JSON：",
    )
}

/// Why the body of a Responses request could not be unpacked.
#[derive(Clone, Copy, Debug, PartialEq, Eq, Structural)]
pub enum DecodeFault {
    Busy,
    UnsupportedEncoding,
    Invalid,
    /// The work on the body broke off.
    ParseFailed,
}

pub open spec fn decode_refusal(fault: DecodeFault, detail: Seq<char>) -> RefusalV {
    match fault {
        DecodeFault::Busy => RefusalV {
            status: 503,
            code: "router_memory_busy"@,
            words: "Codey 本地路由请求缓冲区已满，请稍后重试"@,
        },
        DecodeFault::UnsupportedEncoding => RefusalV {
            status: 415,
            code: "unsupported_content_encoding"@,
            words: detail,
        },
        DecodeFault::Invalid => RefusalV {
            status: 400,
            code: "invalid_request_body"@,
            words: "Responses 请求体解码失败："@ + detail,
        },
        DecodeFault::ParseFailed => RefusalV {
            status: 500,
            code: "request_parse_failed"@,
            words: "Responses 请求解析任务失败："@ + detail,
        },
    }
}

/// What a request whose body could not be unpacked is told.
pub fn refuse_decode(fault: DecodeFault, detail: &str) -> (r: Refusal)
    ensures
        r@ == decode_refusal(fault, detail@),
{
    match fault {
        DecodeFault::Busy => refuse(503, "router_memory_busy", "Codey 本地路由请求缓冲区已满，请稍后重试"),
        DecodeFault::UnsupportedEncoding => refuse(415, "unsupported_content_encoding", detail),
        DecodeFault::Invalid => refuse_with(
            400,
            "invalid_request_body",
            cat2("Responses 请求体解码失败：", detail),
        ),
        DecodeFault::ParseFailed => refuse_with(
            500,
            "request_parse_failed",
            cat2("Responses 请求解析任务失败：", detail),
        ),
    }
}

/// A request on a socket: its body without what only the socket needs, and the id of its stream.
#[derive(Debug)]
pub struct SocketRequest {
    pub body: Json,
    pub stream_id: Option<String>,
}

pub open spec fn socket_view(r: Result<SocketRequest, Refusal>) -> Result<
    (JsonV, Option<Seq<char>>),
    RefusalV,
> {
    match r {
        Ok(s) => Ok((s.body@, string_view(s.stream_id))),
        Err(e) => Err(e@),
    }
}

/// What is wrong with the transport members of a message.
pub open spec fn transport_refusal(body: JsonV) -> Option<RefusalV> {
    if body.has("stream"@) && body.get_bool("stream"@) != Some(true) {
        Some(
            RefusalV {
                status: 400,
                code: "websocket_stream_required"@,
                words: "Responses WebSocket 的 stream 字段只能省略或设为 true"@,
            },
        )
    } else if body.has("background"@) && body.get_bool("background"@) != Some(false) {
        Some(
            RefusalV {
                status: 400,
                code: "websocket_background_unsupported"@,
                words: "Responses WebSocket 不支持 background 模式"@,
            },
        )
    } else {
        None
    }
}

/// A message on a socket that is an object.
pub open spec fn socket_request(message: JsonV) -> Result<(JsonV, Option<Seq<char>>), RefusalV> {
    let body = message.without("type"@);
    if message.get_str("type"@) != Some("response.create"@) {
        Err(
            RefusalV {
                status: 400,
                code: "unsupported_websocket_message"@,
                words: "Codey Responses WebSocket 仅支持 response.create"@,
            },
        )
    } else {
        match stream_id(body) {
            Err(e) => Err(
                RefusalV {
                    status: 400,
                    code: "invalid_stream_id"@,
                    words: "Responses WebSocket stream_id 无效："@ + failure_words(e),
                },
            ),
            Ok(id) => match transport_refusal(body) {
                Some(refusal) => Err(refusal),
                None => Ok((body.without("stream"@).without("background"@), id)),
            },
        }
    }
}

/// Takes a message on a socket that is an object.
pub fn accept_socket_message(message: Json) -> (r: Result<SocketRequest, Refusal>)
    ensures
        socket_view(r) == socket_request(message@),
{
    let mut body = message;
    let create = match body.get_str("type") {
        Some(t) => str_eq(t, "response.create"),
        None => false,
    };
    if !create {
        return Err(
            refuse(
                400,
                "unsupported_websocket_message",
                "Codey Responses WebSocket 仅支持 response.create",
            ),
        );
    }
    let _ = body.remove("type");
    let stream_id = match responses_websocket_stream_id(&body) {
        Err(e) => {
            return Err(
                refuse_with(
                    400,
                    "invalid_stream_id",
                    cat2("Responses WebSocket stream_id 无效：", words_of(&e).as_str()),
                ),
            );
        },
        Ok(id) => id,
    };
    if body.has("stream") {
        let on = match body.get_bool("stream") {
            Some(b) => b,
            None => false,
        };
        if !on {
            return Err(
                refuse(
                    400,
                    "websocket_stream_required",
                    "Responses WebSocket 的 stream 字段只能省略或设为 true",
                ),
            );
        }
    }
    if body.has("background") {
        let off = match body.get_bool("background") {
            Some(b) => !b,
            None => false,
        };
        if !off {
            return Err(
                refuse(
                    400,
                    "websocket_background_unsupported",
                    "Responses WebSocket 不支持 background 模式",
                ),
            );
        }
    }
    let _ = body.remove("stream");
    let _ = body.remove("background");
    Ok(SocketRequest { body, stream_id })
}

/// What a text message on a socket comes to.
pub open spec fn socket_text(text: Seq<char>) -> Result<(JsonV, Option<Seq<char>>), RefusalV> {
    match object_or_refusal(
        text_parsed(text),
        "Responses WebSocket 消息必须是 JSON 对象"@,
        "Responses WebSocket 消息不是有效 JSON："@,
    ) {
        Err(e) => Err(e),
        Ok(message) => socket_request(message),
    }
}

/// Takes a text message on a socket.
pub fn handle_responses_websocket(text: &str) -> (r: Result<SocketRequest, Refusal>)
    ensures
        socket_view(r) == socket_text(text@),
{
    match require_object(
        parse_text(text),
        "Responses WebSocket 消息必须是 JSON 对象",
        "Responses WebSocket 消息不是有效 JSON：",
    ) {
        Err(e) => Err(e),
        Ok(message) => accept_socket_message(message),
    }
}

/// How a request came in, as the log has it.
#[derive(Clone, Copy, Debug, PartialEq, Eq, Structural)]
pub enum RequestProtocol {
    Http,
    Sse,
    WebSocket,
}

pub open spec fn protocol_of(body: JsonV, downstream_websocket: bool) -> RequestProtocol {
    if downstream_websocket {
        RequestProtocol::WebSocket
    } else if body.get_bool("stream"@) == Some(true) {
        RequestProtocol::Sse
    } else {
        RequestProtocol::Http
    }
}

/// What the log notes at the start of a request.
#[derive(Debug)]
pub struct LogStart {
    pub protocol: RequestProtocol,
    pub kind: &'static str,
    pub requested_model: String,
    pub reasoning_effort: Option<String>,
    pub thinking_budget_tokens: Option<u64>,
}

/// The effort that the log notes.
pub open spec fn logged_effort(body: JsonV) -> Option<Seq<char>> {
    let place = match body.get2("reasoning"@, "effort"@) {
        Some(v) => Some(v),
        None => body.get("reasoning_effort"@),
    };
    match place {
        Some(JsonV::Str(s)) => Some(s),
        _ => None,
    }
}

/// The first of the places for a thinking budget that holds a number.
pub open spec fn logged_budget(body: JsonV) -> Option<u64> {
    match body.get2("thinking"@, "budget_tokens"@) {
        Some(JsonV::Unsigned(n)) => Some(n),
        _ => match body.get2("thinking"@, "budgetTokens"@) {
            Some(JsonV::Unsigned(n)) => Some(n),
            _ => match body.get_u64("thinking_budget_tokens"@) {
                Some(n) => Some(n),
                None => body.get_u64("thinkingBudgetTokens"@),
            },
        },
    }
}

fn number_in(value: Option<&Json>) -> (r: Option<u64>)
    ensures
        r == match opt_view(value) {
            Some(v) => v.as_u64(),
            None => None,
        },
{
    match value {
        Some(v) => v.as_u64(),
        None => None,
    }
}

/// The name of the kind of a request in the log.
pub open spec fn logged_kind(body: JsonV, kind: ResponsesRequestKind) -> Seq<char> {
    if kind == ResponsesRequestKind::Create && asks_compaction(body, kind) {
        "responses_compact_v2"@
    } else {
        kind.label_text()
    }
}

/// What the log notes at the start of a request.
pub fn proxy_parsed_responses(body: &Json, kind: ResponsesRequestKind, downstream_websocket: bool) -> (r:
    LogStart)
    ensures
        r.protocol == protocol_of(body@, downstream_websocket),
        r.kind@ == logged_kind(body@, kind),
        r.requested_model@ == body@.str_or_empty("model"@),
        string_view(r.reasoning_effort) == logged_effort(body@),
        r.thinking_budget_tokens == logged_budget(body@),
{
    let protocol = if downstream_websocket {
        RequestProtocol::WebSocket
    } else {
        match body.get_bool("stream") {
            Some(true) => RequestProtocol::Sse,
            _ => RequestProtocol::Http,
        }
    };
    let create = match kind {
        ResponsesRequestKind::Create => true,
        ResponsesRequestKind::Compact => false,
    };
    let label = if create && is_compaction_request(body, kind) {
        "responses_compact_v2"
    } else {
        kind.label()
    };
    let place = match body.get2("reasoning", "effort") {
        Some(v) => Some(v),
        None => body.get("reasoning_effort"),
    };
    let reasoning_effort = match place {
        Some(v) => owned(v.as_str()),
        None => None,
    };
    let thinking_budget_tokens = match number_in(body.get2("thinking", "budget_tokens")) {
        Some(n) => Some(n),
        None => match number_in(body.get2("thinking", "budgetTokens")) {
            Some(n) => Some(n),
            None => match body.get_u64("thinking_budget_tokens") {
                Some(n) => Some(n),
                None => body.get_u64("thinkingBudgetTokens"),
            },
        },
    };
    LogStart {
        protocol,
        kind: label,
        requested_model: body.str_or_empty("model"),
        reasoning_effort,
        thinking_budget_tokens,
    }
}

/// The body of a request as the router works on it: on a socket the id of the stream is the
/// socket's own matter, and the upstream is asked to stream.
pub open spec fn working_body(body: JsonV, downstream_websocket: bool) -> JsonV {
    if downstream_websocket {
        body.without("stream_id"@).with("stream"@, JsonV::Bool(true))
    } else {
        body
    }
}

/// The model that a request asks for: its own, or the default.
pub open spec fn asked_model(body: JsonV, default_model: Seq<char>) -> Seq<char> {
    let own = trim(body.str_or_empty("model"@));
    if own.len() > 0 {
        own
    } else {
        trim(default_model)
    }
}

/// A request that has a route.
#[derive(Debug)]
pub struct ResolvedRequest {
    pub body: Json,
    pub body_mutated: bool,
    pub model: String,
    pub selection: RouteSelection,
    pub subagent: bool,
}

/// What a request that has a route is.
#[verifier::ext_equal]
pub struct ResolvedV {
    pub headers: Seq<(Seq<char>, Seq<char>)>,
    pub bindings: BindingsV,
    pub body: JsonV,
    pub body_mutated: bool,
    pub model: Seq<char>,
    pub selection: SelectionV,
    pub subagent: bool,
}

pub open spec fn is_subagent(headers: Seq<(Seq<char>, Seq<char>)>) -> bool {
    header_value(headers, "x-openai-subagent"@) is Some || header_value(
        headers,
        "x-codex-parent-thread-id"@,
    ) is Some
}

/// The body that asks for the model.
pub open spec fn asking_body(body: JsonV, default_model: Seq<char>) -> JsonV {
    if trim(body.str_or_empty("model"@)).len() == 0 {
        body.with("model"@, JsonV::Str(asked_model(body, default_model)))
    } else {
        body
    }
}

/// A request is given a route. The route is remembered for its conversation; a hint of the client
/// refreshes a session's binding, unless the request is a subagent's.
pub open spec fn resolved_request(
    table: SnapshotV,
    history: Seq<(Seq<char>, Seq<char>)>,
    default_model: Seq<char>,
    bindings: BindingsV,
    headers: Seq<(Seq<char>, Seq<char>)>,
    sent: JsonV,
    downstream_websocket: bool,
) -> Result<ResolvedV, RefusalV> {
    let working = working_body(sent, downstream_websocket);
    let model = asked_model(working, default_model);
    let defaulted = trim(working.str_or_empty("model"@)).len() == 0;
    if model.len() == 0 {
        Err(
            RefusalV {
                status: 400,
                code: "model_required"@,
                words: "Responses 请求缺少有效的 model 字段"@,
            },
        )
    } else {
        match taken_hint(headers, asking_body(working, default_model)) {
            Err(e) => Err(
                RefusalV {
                    status: 400,
                    code: "route_metadata_invalid"@,
                    words: "Codey 线路元数据无效："@ + failure_words(e),
                },
            ),
            Ok(taken) => {
                let keys = binding_keys(taken.headers);
                let bound = first_bound(bindings.routes, keys);
                match select_route(table, history, model, taken.hint, bound) {
                    Err(e) => Err(
                        RefusalV {
                            status: 404,
                            code: "model_not_enabled"@,
                            words: failure_words(e),
                        },
                    ),
                    Ok(selection) => Ok(
                        ResolvedV {
                            headers: taken.headers,
                            bindings: remembered(
                                bindings,
                                keys,
                                selection.provider_id,
                                taken.hint is Some && !is_subagent(taken.headers),
                            ),
                            body: if model != selection.upstream_model {
                                taken.body.with("model"@, JsonV::Str(selection.upstream_model))
                            } else {
                                taken.body
                            },
                            body_mutated: taken.changed || defaulted || model
                                != selection.upstream_model,
                            model,
                            selection,
                            subagent: is_subagent(taken.headers),
                        },
                    ),
                }
            },
        }
    }
}

/// The headers of a request once the client's hint has been taken from them. Where the model is
/// missing, or the hint cannot be read, they stay as they came.
pub open spec fn headers_after(
    default_model: Seq<char>,
    headers: Seq<(Seq<char>, Seq<char>)>,
    sent: JsonV,
    downstream_websocket: bool,
) -> Seq<(Seq<char>, Seq<char>)> {
    let working = working_body(sent, downstream_websocket);
    if asked_model(working, default_model).len() == 0 {
        headers
    } else {
        hinted_headers(headers, asking_body(working, default_model))
    }
}

/// The headers of a request once a hint has been looked for in them and in a body.
pub open spec fn hinted_headers(headers: Seq<(Seq<char>, Seq<char>)>, body: JsonV) -> Seq<
    (Seq<char>, Seq<char>),
> {
    match taken_hint(headers, body) {
        Ok(taken) => taken.headers,
        Err(_) => headers,
    }
}

/// Gives a request a route. Nothing is remembered of a request that gets none.
pub fn resolve_responses_request(
    snapshot: &RouterSnapshot,
    bindings: &mut RouteBindings,
    headers: &mut Vec<(String, String)>,
    sent: Json,
    downstream_websocket: bool,
) -> (r: Result<ResolvedRequest, Refusal>)
    requires
        snapshot.inv(),
        old(bindings).inv(),
    ensures
        final(bindings).inv(),
        final(bindings).compacting == old(bindings).compacting,
        pairs_view(final(headers)@) == headers_after(
            snapshot.default_model@,
            pairs_view(old(headers)@),
            sent@,
            downstream_websocket,
        ),
        ({
            let spec = resolved_request(
                snapshot.table(),
                snapshot.model_alias_history@,
                snapshot.default_model@,
                old(bindings).state(),
                pairs_view(old(headers)@),
                sent@,
                downstream_websocket,
            );
            match r {
                Ok(x) => spec == Ok::<ResolvedV, RefusalV>(
                    ResolvedV {
                        headers: pairs_view(final(headers)@),
                        bindings: final(bindings).state(),
                        body: x.body@,
                        body_mutated: x.body_mutated,
                        model: x.model@,
                        selection: x.selection@,
                        subagent: x.subagent,
                    },
                ),
                Err(e) => spec == Err::<ResolvedV, RefusalV>(e@) && final(bindings).state()
                    == old(bindings).state(),
            }
        }),
{
    let mut body = sent;
    if downstream_websocket {
        let _ = body.remove("stream_id");
        body.insert("stream", Json::bool(true));
    }
    let own = trimmed(body.str_or_empty("model").as_str());
    let defaulted = own.as_str().is_empty();
    let model = if defaulted {
        trimmed(snapshot.default_model.as_str())
    } else {
        own
    };
    if model.as_str().is_empty() {
        return Err(refuse(400, "model_required", "Responses 请求缺少有效的 model 字段"));
    }
    if defaulted {
        body.insert("model", Json::str(model.as_str()));
    }
    let (hint, changed) = match take_codey_route_metadata(headers, &mut body) {
        Err(e) => {
            return Err(
                refuse_with(
                    400,
                    "route_metadata_invalid",
                    cat2("Codey 线路元数据无效：", words_of(&e).as_str()),
                ),
            );
        },
        Ok(x) => x,
    };
    let subagent = request_is_subagent(headers);
    let keys = request_binding_keys(headers);
    let bound = bindings.route_for_keys(&keys);
    let hint_text = match &hint {
        Some(h) => Some(h.as_str()),
        None => None,
    };
    let bound_text = match &bound {
        Some(b) => Some(b.as_str()),
        None => None,
    };
    let selection = match snapshot.resolve_request(model.as_str(), hint_text, bound_text) {
        Err(e) => {
            return Err(refuse_with(404, "model_not_enabled", words_of(&e)));
        },
        Ok(s) => s,
    };
    bindings.remember(&keys, selection.provider_id.as_str(), hint.is_some() && !subagent);
    let mut body_mutated = changed || defaulted;
    if !str_eq(model.as_str(), selection.upstream_model.as_str()) {
        body.insert("model", Json::str(selection.upstream_model.as_str()));
        body_mutated = true;
    }
    Ok(ResolvedRequest { body, body_mutated, model, selection, subagent })
}

/// A compaction is refused where the route cannot do it, and a history where the upstream cannot
/// read it.
pub open spec fn bridge_refusal(
    body: JsonV,
    compacting: bool,
    supports_remote_compaction: bool,
    bridge: ProtocolBridge,
) -> Option<RefusalV> {
    if compacting && !supports_remote_compaction {
        Some(
            RefusalV {
                status: 400,
                code: "compaction_unsupported"@,
                words: "当前线路未启用原生远程压缩，请使用 Codex 本地摘要"@,
            },
        )
    } else if bridge != ProtocolBridge::NativeResponses && compacting {
        Some(
            RefusalV {
                status: 400,
                code: "compaction_unsupported"@,
                words: "当前线路不支持原生远程压缩，请使用 Codex 本地摘要"@,
            },
        )
    } else if bridge != ProtocolBridge::NativeResponses && !portable(body) {
        Some(
            RefusalV {
                status: 400,
                code: "context_not_portable"@,
                words: failure_words(not_portable()),
            },
        )
    } else {
        None
    }
}

/// Whether a request cannot go over a bridge.
pub fn refuse_bridge(
    body: &Json,
    compacting: bool,
    supports_remote_compaction: bool,
    bridge: ProtocolBridge,
) -> (r: Option<Refusal>)
    ensures
        refusal_view(r) == bridge_refusal(body@, compacting, supports_remote_compaction, bridge),
{
    if compacting && !supports_remote_compaction {
        return Some(
            refuse(400, "compaction_unsupported", "当前线路未启用原生远程压缩，请使用 Codex 本地摘要"),
        );
    }
    let native = match bridge {
        ProtocolBridge::NativeResponses => true,
        _ => false,
    };
    if !native {
        if compacting {
            return Some(
                refuse(400, "compaction_unsupported", "当前线路不支持原生远程压缩，请使用 Codex 本地摘要"),
            );
        }
        if let Err(e) = validate_portable_context(body) {
            return Some(refuse_with(400, "context_not_portable", words_of(&e)));
        }
    }
    None
}

/// A request with all that is needed to send it on.
#[derive(Debug)]
pub struct AdmittedRequest {
    pub body: Json,
    pub body_mutated: bool,
    /// The text that was sent no longer stands for the request.
    pub discard_encoded: bool,
    pub stream_requested: bool,
    pub upstream_url: String,
}

#[verifier::ext_equal]
pub struct AdmittedV {
    pub history: HistoryV,
    pub body: JsonV,
    pub body_mutated: bool,
    pub discard_encoded: bool,
    pub stream_requested: bool,
    pub upstream_url: Seq<char>,
}

/// The conversation of a request, expanded where the upstream does not know it: on an adapted
/// route always, on a native one where the request goes on from a response of the router's own.
pub open spec fn expanded_request(history: HistoryV, body: JsonV, bridge: ProtocolBridge) -> Result<
    (HistoryV, JsonV, bool),
    RefusalV,
> {
    let context = if body.is_object() {
        adapted_context(history, body)
    } else {
        None
    };
    let noted = HistoryV { pending: context, ..history };
    let done = context is Some && continued_id(body) is Some;
    if bridge != ProtocolBridge::NativeResponses {
        Ok(
            (
                noted,
                if done {
                    expanded(body, context->0)
                } else {
                    body
                },
                false,
            ),
        )
    } else if !continues_own_response(body) {
        Ok((history, body, false))
    } else if done {
        Ok((noted, expanded(body, context->0), true))
    } else {
        Err(
            RefusalV {
                status: 400,
                code: "context_not_portable"@,
                words: "无法恢复旧线路的会话历史，请重新发送完整上下文；未删除历史引用"@,
            },
        )
    }
}

/// What a socket knows of its conversation once a request has been held against its route. A
/// request that the bridge turns down leaves it alone, and so does one that a native upstream can
/// go on from by itself.
pub open spec fn history_after(
    history: HistoryV,
    sent: JsonV,
    kind: ResponsesRequestKind,
    bridge: ProtocolBridge,
    route: RouteTargetV,
) -> HistoryV {
    if bridge_refusal(
        sent,
        asks_compaction(sent, kind),
        route.supports_remote_compaction,
        bridge,
    ) is Some {
        history
    } else if bridge == ProtocolBridge::NativeResponses && !continues_own_response(sent) {
        history
    } else {
        HistoryV {
            pending: if sent.is_object() {
                adapted_context(history, sent)
            } else {
                None
            },
            ..history
        }
    }
}

/// A request whose tools have been mended for a route. `mended` is what mending makes of the
/// request, where it changes it; the official account takes a request as it is.
pub open spec fn mended_request(body: JsonV, mended: Option<JsonV>, official_account: bool) -> JsonV {
    match mended {
        Some(made) => if official_account {
            body
        } else {
            taking_over(taking_over(body, made, "tools"@), made, "input"@)
        },
        None => body,
    }
}

/// A member of another document in place of the own one.
pub open spec fn taking_over(body: JsonV, other: JsonV, key: Seq<char>) -> JsonV {
    match other.get(key) {
        Some(value) => body.with(key, value),
        None => body,
    }
}

fn take_over(body: &mut Json, other: &Json, key: &str)
    ensures
        final(body)@ == taking_over(old(body)@, other@, key@),
{
    if let Some(value) = other.get(key) {
        body.insert(key, value.clone_json());
    }
}

/// Puts mended tools into a request, and says whether it did. Mending is about the roots of the
/// tools' parameters, which stand among the tools and in the input.
pub fn mend_tools(body: &mut Json, mended: Option<&Json>, official_account: bool) -> (r: bool)
    ensures
        final(body)@ == mended_request(old(body)@, opt_view(mended), official_account),
        r == (mended is Some && !official_account),
{
    match mended {
        Some(made) => {
            if official_account {
                return false;
            }
            take_over(body, made, "tools");
            take_over(body, made, "input");
            true
        },
        None => false,
    }
}

/// The last checks of a request before it is converted: its conversation is expanded where it has
/// to be, a stream is asked for where one can be collected, and the route's address is taken.
pub open spec fn admitted_request(
    history: HistoryV,
    sent: JsonV,
    body_mutated: bool,
    restated: bool,
    kind: ResponsesRequestKind,
    downstream_websocket: bool,
    bridge: ProtocolBridge,
    route: RouteTargetV,
) -> Result<AdmittedV, RefusalV> {
    let stream_requested = sent.get_bool("stream"@) == Some(true);
    let compacting = asks_compaction(sent, kind);
    match bridge_refusal(sent, compacting, route.supports_remote_compaction, bridge) {
        Some(refusal) => Err(refusal),
        None => match expanded_request(history, sent, bridge) {
            Err(refusal) => Err(refusal),
            Ok((noted, body, discard)) => {
                let force = kind == ResponsesRequestKind::Create && !downstream_websocket
                    && !stream_requested && bridge != ProtocolBridge::NativeResponses;
                let url = match kind {
                    ResponsesRequestKind::Create => route.upstream_url,
                    ResponsesRequestKind::Compact => route.upstream_compact_url,
                };
                match url {
                    Err(words) => Err(
                        RefusalV {
                            status: 502,
                            code: "route_configuration_error"@,
                            words: "线路「"@ + display_name(route) + "」的 "@ + words,
                        },
                    ),
                    Ok(upstream_url) => Ok(
                        AdmittedV {
                            history: noted,
                            body: if force {
                                body.with("stream"@, JsonV::Bool(true))
                            } else {
                                body
                            },
                            body_mutated: body_mutated || discard || force,
                            discard_encoded: restated || discard,
                            stream_requested,
                            upstream_url,
                        },
                    ),
                }
            },
        },
    }
}

/// Makes the last checks of a request before it is converted.
pub fn admit_responses_request(
    history: &mut AdaptedResponsesHistory,
    sent: Json,
    body_mutated: bool,
    restated: bool,
    kind: ResponsesRequestKind,
    downstream_websocket: bool,
    bridge: ProtocolBridge,
    route: &RouteTarget,
) -> (r: Result<AdmittedRequest, Refusal>)
    ensures
        final(history)@ == history_after(old(history)@, sent@, kind, bridge, route@),
        ({
            let spec = admitted_request(
                old(history)@,
                sent@,
                body_mutated,
                restated,
                kind,
                downstream_websocket,
                bridge,
                route@,
            );
            match r {
                Ok(x) => spec == Ok::<AdmittedV, RefusalV>(
                    AdmittedV {
                        history: final(history)@,
                        body: x.body@,
                        body_mutated: x.body_mutated,
                        discard_encoded: x.discard_encoded,
                        stream_requested: x.stream_requested,
                        upstream_url: x.upstream_url@,
                    },
                ),
                Err(e) => spec == Err::<AdmittedV, RefusalV>(e@),
            }
        }),
{
    let stream_requested = match body_stream(&sent) {
        Some(b) => b,
        None => false,
    };
    let compacting = is_compaction_request(&sent, kind);
    if let Some(refusal) = refuse_bridge(
        &sent,
        compacting,
        route.supports_remote_compaction,
        bridge,
    ) {
        return Err(refusal);
    }
    let mut body = sent;
    let mut discard = false;
    let native = match bridge {
        ProtocolBridge::NativeResponses => true,
        _ => false,
    };
    if !native {
        let _ = history.prepare(&mut body);
    } else if has_codey_synthetic_previous_response_id(&body) {
        if !history.prepare(&mut body) {
            return Err(
                refuse(
                    400,
                    "context_not_portable",
                    "无法恢复旧线路的会话历史，请重新发送完整上下文；未删除历史引用",
                ),
            );
        }
        discard = true;
    }
    let force = should_force_upstream_streaming(
        bridge,
        kind,
        downstream_websocket,
        stream_requested,
    );
    if force {
        body.insert("stream", Json::bool(true));
    }
    let url = match kind {
        ResponsesRequestKind::Create => &route.upstream_url,
        ResponsesRequestKind::Compact => &route.upstream_compact_url,
    };
    match url {
        Err(words) => Err(
            refuse_with(
                502,
                "route_configuration_error",
                cat4("线路「", route_display_name(route), "」的 ", words.as_str()),
            ),
        ),
        Ok(u) => Ok(
            AdmittedRequest {
                body,
                body_mutated: body_mutated || discard || force,
                discard_encoded: restated || discard,
                stream_requested,
                upstream_url: u.clone(),
            },
        ),
    }
}

fn body_stream(body: &Json) -> (r: Option<bool>)
    ensures
        r == body@.get_bool("stream"@),
{
    body.get_bool("stream")
}

/// Whether a request is first tried over a socket to the upstream.
pub fn tries_upstream_socket(
    downstream_websocket: bool,
    compacting: bool,
    kind: ResponsesRequestKind,
    stream_requested: bool,
    bridge: ProtocolBridge,
) -> (r: bool)
    ensures
        r == (downstream_websocket && !compacting && kind == ResponsesRequestKind::Create
            && stream_requested && bridge == ProtocolBridge::NativeResponses),
{
    let create = match kind {
        ResponsesRequestKind::Create => true,
        ResponsesRequestKind::Compact => false,
    };
    let native = match bridge {
        ProtocolBridge::NativeResponses => true,
        _ => false,
    };
    downstream_websocket && !compacting && create && stream_requested && native
}

/// How the body of a request reaches the upstream.
#[derive(Clone, Copy, Debug, PartialEq, Eq, Structural)]
pub enum BodyForm {
    /// The text that was sent.
    AsSent,
    /// The text that was sent, with the members that changed.
    Rewritten,
    /// The document written anew.
    Serialized,
}

/// How the body of a request reaches the upstream.
pub fn body_form(
    bridge: ProtocolBridge,
    has_encoded: bool,
    model: &str,
    upstream_model: &str,
    body_mutated: bool,
) -> (r: BodyForm)
    ensures
        r == if bridge != ProtocolBridge::NativeResponses || !has_encoded {
            BodyForm::Serialized
        } else if model@ == upstream_model@ && !body_mutated {
            BodyForm::AsSent
        } else {
            BodyForm::Rewritten
        },
{
    let native = match bridge {
        ProtocolBridge::NativeResponses => true,
        _ => false,
    };
    if !native || !has_encoded {
        BodyForm::Serialized
    } else if should_passthrough_native_responses(bridge, model, upstream_model, body_mutated) {
        BodyForm::AsSent
    } else {
        BodyForm::Rewritten
    }
}

/// Seconds to wait for the head of an answer: a whole answer comes only once it is complete.
pub fn response_header_timeout(stream: bool) -> (seconds: u64)
    ensures
        seconds == if stream {
            30u64
        } else {
            300u64
        },
{
    if stream {
        30
    } else {
        300
    }
}

/// Why no answer came from an upstream.
#[derive(Clone, Copy, Debug, PartialEq, Eq, Structural)]
pub enum SendFault {
    /// The whole exchange took too long.
    TimedOut,
    Unreachable,
    /// The head of the answer took too long.
    HeaderTimedOut,
}

/// What a client is told when no answer came.
pub open spec fn send_refusal(
    fault: SendFault,
    compacting: bool,
    route_name: Seq<char>,
    upstream: Seq<char>,
) -> RefusalV {
    match fault {
        SendFault::TimedOut => if compacting {
            RefusalV {
                status: 504,
                code: "compaction_timeout"@,
                words: "远程压缩超过总时限，原始会话历史未被 Codey 修改，请稍后重试"@,
            }
        } else {
            RefusalV {
                status: 504,
                code: "upstream_timeout"@,
                words: "Codey 线路「"@ + route_name + "」请求上游 "@ + upstream + " 超时；请检查上游服务状态或网络连接"@,
            }
        },
        SendFault::Unreachable => RefusalV {
            status: 424,
            code: "upstream_unreachable"@,
            words: "Codey 线路「"@ + route_name + "」无法连接上游 "@ + upstream
                + "；请确认上游服务已启动，并检查线路 URL、证书和网络设置"@,
        },
        SendFault::HeaderTimedOut => RefusalV {
            status: 504,
            code: "upstream_header_timeout"@,
            words: "Codey 线路「"@ + route_name + "」等待上游 "@ + upstream + " 返回响应头超时"@,
        },
    }
}

/// What a client is told when no answer came.
pub fn refuse_send(fault: SendFault, compacting: bool, route_name: &str, upstream: &str) -> (r: Refusal)
    ensures
        r@ == send_refusal(fault, compacting, route_name@, upstream@),
{
    match fault {
        SendFault::TimedOut => if compacting {
            refuse(504, "compaction_timeout", "远程压缩超过总时限，原始会话历史未被 Codey 修改，请稍后重试")
        } else {
            refuse_with(
                504,
                "upstream_timeout",
                cat5(
                    "Codey 线路「",
                    route_name,
                    "」请求上游 ",
                    upstream,
                    " 超时；请检查上游服务状态或网络连接",
                ),
            )
        },
        SendFault::Unreachable => refuse_with(
            424,
            "upstream_unreachable",
            cat5(
                "Codey 线路「",
                route_name,
                "」无法连接上游 ",
                upstream,
                "；请确认上游服务已启动，并检查线路 URL、证书和网络设置",
            ),
        ),
        SendFault::HeaderTimedOut => refuse_with(
            504,
            "upstream_header_timeout",
            cat5("Codey 线路「", route_name, "」等待上游 ", upstream, " 返回响应头超时"),
        ),
    }
}

/// What is done with an answer of an upstream.
#[derive(Clone, Copy, Debug, PartialEq, Eq, Structural)]
pub enum AnswerMode {
    /// Its error is told in the router's words, with its status.
    Error,
    Compaction,
    Chat,
    Messages,
    /// It is handed on as it comes.
    Relay,
}

/// What is done with an answer of an upstream.
pub fn answer_mode(status: u16, compacting: bool, bridge: ProtocolBridge) -> (r: AnswerMode)
    ensures
        r == if !(200 <= status < 300) {
            AnswerMode::Error
        } else if compacting {
            AnswerMode::Compaction
        } else {
            match bridge {
                ProtocolBridge::NativeResponses => AnswerMode::Relay,
                ProtocolBridge::ResponsesToChatCompletions => AnswerMode::Chat,
                ProtocolBridge::ResponsesToAnthropicMessages => AnswerMode::Messages,
            }
        },
{
    if !(200 <= status && status < 300) {
        return AnswerMode::Error;
    }
    if compacting {
        return AnswerMode::Compaction;
    }
    match bridge {
        ProtocolBridge::NativeResponses => AnswerMode::Relay,
        ProtocolBridge::ResponsesToChatCompletions => AnswerMode::Chat,
        ProtocolBridge::ResponsesToAnthropicMessages => AnswerMode::Messages,
    }
}

/// What a client is told when a compaction failed.
pub open spec fn compaction_refusal(failure: FailureV, timed_out: bool) -> RefusalV {
    if timed_out {
        RefusalV { status: 504, code: "compaction_timeout"@, words: failure_words(failure) }
    } else if failure == FailureV::ContextLength {
        RefusalV { status: 400, code: "context_length_exceeded"@, words: failure_words(failure) }
    } else {
        RefusalV {
            status: 502,
            code: "invalid_compaction_response"@,
            words: failure_words(failure),
        }
    }
}

/// What a client is told when a compaction failed.
pub fn refuse_compaction(failure: &Failure, timed_out: bool) -> (r: Refusal)
    ensures
        r@ == compaction_refusal(failure@, timed_out),
{
    let words = words_of(failure);
    if timed_out {
        return refuse_with(504, "compaction_timeout", words);
    }
    match failure {
        Failure::ContextLength => refuse_with(400, "context_length_exceeded", words),
        Failure::Text(_) => refuse_with(502, "invalid_compaction_response", words),
    }
}

/// The result of a compaction that came whole.
pub open spec fn compaction_body(parsed: Result<JsonV, Seq<char>>, v2: bool) -> Result<
    JsonV,
    FailureV,
> {
    match parsed {
        Err(_) => Err(FailureV::Text("远程压缩返回无效 JSON"@)),
        Ok(v) => match compaction_check(v, v2) {
            Ok(()) => Ok(v),
            Err(e) => Err(e),
        },
    }
}

/// Checks the document of a compaction.
pub fn check_compaction_body(parsed: Result<Json, String>, v2: bool) -> (r: Result<Json, Failure>)
    ensures
        json_result(r) == compaction_body(parsed_view(parsed), v2),
{
    match parsed {
        Err(_) => Err(fail("远程压缩返回无效 JSON")),
        Ok(v) => match validate_compaction_result(&v, v2) {
            Ok(()) => Ok(v),
            Err(e) => Err(e),
        },
    }
}

/// Reads the result of a compaction that came whole.
pub fn write_validated_compaction(body: &Vec<u8>, v2: bool) -> (r: Result<Json, Failure>)
    ensures
        json_result(r) == compaction_body(json_parsed(body@), v2),
{
    check_compaction_body(parse_bytes(body.as_slice()), v2)
}

/// What reading an answer of the chat protocol that came whole may come to: a document, or a
/// stream that is not marked as one.
pub open spec fn chat_answer_read(
    body: Seq<u8>,
    now: i64,
    model: Seq<char>,
    read: Result<JsonV, FailureV>,
) -> bool {
    match json_parsed(body) {
        Ok(v) => read == Ok::<JsonV, FailureV>(v),
        Err(words) => if looks_like_data_stream(body) {
            exists|streamed: Result<JsonV, FailureV>|
                chat_stream_read(body, now, model, streamed) && read == #[trigger] stream_or_neither(
                    streamed,
                    "Chat Completions 上游响应既不是有效 JSON，也无法作为 SSE 解析："@ + words,
                )
        } else {
            read == Err::<JsonV, FailureV>(
                FailureV::Text("Chat Completions 上游响应不是有效 JSON"@),
            )
        },
    }
}

/// Reads an answer of the chat protocol that came whole.
pub fn read_chat_answer(body: &Vec<u8>, now: i64, model: &str) -> (r: Result<Json, Failure>)
    ensures
        chat_answer_read(body@, now, model@, json_result(r)),
{
    match parse_bytes(body.as_slice()) {
        Ok(v) => Ok(v),
        Err(words) => {
            if !body_is_data_stream(body) {
                return Err(fail("Chat Completions 上游响应不是有效 JSON"));
            }
            let read = parse_chat_completion_sse_bytes(body, now, model);
            let ghost streamed = json_result(read);
            let r = match read {
                Ok(v) => Ok(v),
                Err(_) => Err(
                    fail_with(
                        "Chat Completions 上游响应既不是有效 JSON，也无法作为 SSE 解析：",
                        words.as_str(),
                    ),
                ),
            };
            proof {
                assert(json_result(r) == stream_or_neither(
                    streamed,
                    "Chat Completions 上游响应既不是有效 JSON，也无法作为 SSE 解析："@ + words@,
                ));
            }
            r
        },
    }
}

/// An answer of another protocol: the Responses document, or, where it has tool calls, the
/// answer and its calls, whose items have to be made before the document can be.
#[derive(Debug)]
pub enum AdaptedAnswer {
    Whole(Json),
    Calls { answer: Json, calls: Vec<ToolCall> },
}

pub enum AdaptedAnswerV {
    Whole(JsonV),
    Calls { answer: JsonV, calls: Seq<ToolCallV> },
}

impl View for AdaptedAnswer {
    type V = AdaptedAnswerV;

    open spec fn view(&self) -> AdaptedAnswerV {
        match self {
            AdaptedAnswer::Whole(document) => AdaptedAnswerV::Whole(document@),
            AdaptedAnswer::Calls { answer, calls } => AdaptedAnswerV::Calls {
                answer: answer@,
                calls: calls_view(calls@),
            },
        }
    }
}

pub open spec fn answer_result(r: Result<AdaptedAnswer, Failure>) -> Result<
    AdaptedAnswerV,
    FailureV,
> {
    match r {
        Ok(answer) => Ok(answer@),
        Err(e) => Err(e@),
    }
}

/// What an answer of the chat protocol becomes.
pub open spec fn chat_answer(
    read: Result<JsonV, FailureV>,
    model: Seq<char>,
    message_id: Seq<char>,
    response_id: Seq<char>,
    now: i64,
) -> Result<AdaptedAnswerV, FailureV> {
    match read {
        Err(e) => Err(e),
        Ok(chat) => match chat_parts(chat) {
            Err(e) => Err(e),
            Ok(parts) => if parts.calls.len() > 0 {
                Ok(AdaptedAnswerV::Calls { answer: chat, calls: parts.calls })
            } else {
                Ok(
                    AdaptedAnswerV::Whole(
                        chat_response(
                            chat,
                            model,
                            Seq::empty(),
                            message_id,
                            response_id,
                            now,
                        )->Ok_0,
                    ),
                )
            },
        },
    }
}

/// Turns an answer of the chat protocol that has been read into a Responses document.
pub fn adapt_chat_answer(
    read: Result<Json, Failure>,
    model: &str,
    message_id: &str,
    response_id: &str,
    now: i64,
) -> (r: Result<AdaptedAnswer, Failure>)
    ensures
        answer_result(r) == chat_answer(
            json_result(read),
            model@,
            message_id@,
            response_id@,
            now,
        ),
{
    let chat = match read {
        Err(e) => {
            return Err(e);
        },
        Ok(chat) => chat,
    };
    match read_chat_completion(&chat) {
        Err(e) => Err(e),
        Ok(parts) => {
            proof {
                assert(calls_view(parts.calls@).len() == parts.calls.len());
            }
            if parts.calls.len() > 0 {
                return Ok(AdaptedAnswer::Calls { answer: chat, calls: parts.calls });
            }
            let none: Vec<Json> = Vec::new();
            proof {
                assert(views(none@) =~= Seq::<JsonV>::empty());
            }
            Ok(
                AdaptedAnswer::Whole(
                    make_chat_document(&chat, model, parts, none, message_id, response_id, now),
                ),
            )
        },
    }
}

/// Reads an answer of the chat protocol that came whole, and turns it into a Responses document
/// with fresh ids.
pub fn read_chat_completions_as_responses(body: &Vec<u8>, now: i64, model: &str) -> (r: Result<
    AdaptedAnswer,
    Failure,
>)
    ensures
        exists|read: Result<JsonV, FailureV>, message_id: Seq<char>, response_id: Seq<char>|
            chat_answer_read(body@, now, model@, read) && has_form(message_id, "msg_codey_"@)
                && has_form(response_id, "resp_codey_"@) && answer_result(r)
                == #[trigger] chat_answer(read, model@, message_id, response_id, now),
{
    let read = read_chat_answer(body, now, model);
    let message_id = fresh_id("msg_codey_");
    let response_id = fresh_id("resp_codey_");
    adapt_chat_answer(read, model, message_id.as_str(), response_id.as_str(), now)
}

/// A stream's result, or the words for a body that is neither a document nor a stream.
pub open spec fn stream_or_neither(read: Result<JsonV, FailureV>, words: Seq<char>) -> Result<
    JsonV,
    FailureV,
> {
    match read {
        Ok(v) => Ok(v),
        Err(_) => Err(FailureV::Text(words)),
    }
}

/// What reading an answer of the Messages protocol that came whole may come to: a document, or a
/// stream that is not marked as one.
pub open spec fn message_answer_read(
    body: Seq<u8>,
    model: Seq<char>,
    read: Result<JsonV, FailureV>,
) -> bool {
    match json_parsed(body) {
        Ok(v) => read == Ok::<JsonV, FailureV>(v),
        Err(words) => if looks_like_event_stream(body) {
            exists|id: Seq<char>|
                has_form(id, "msg_codey_"@) && read == stream_or_neither(
                    #[trigger] parsed_message(body, id, model),
                    "Anthropic Messages 上游响应既不是有效 JSON，也无法作为 SSE 解析："@ + words,
                )
        } else {
            read == Err::<JsonV, FailureV>(
                FailureV::Text("Anthropic Messages 上游响应不是有效 JSON"@),
            )
        },
    }
}

/// Reads an answer of the Messages protocol that came whole.
pub fn read_message_answer(body: &Vec<u8>, model: &str) -> (r: Result<Json, Failure>)
    ensures
        message_answer_read(body@, model@, json_result(r)),
{
    match parse_bytes(body.as_slice()) {
        Ok(v) => Ok(v),
        Err(words) => {
            if !body_is_event_stream(body) {
                return Err(fail("Anthropic Messages 上游响应不是有效 JSON"));
            }
            let read = parse_anthropic_message_sse_bytes(body, model);
            let ghost id = choose|id: Seq<char>|
                has_form(id, "msg_codey_"@) && json_result(read) == #[trigger] parsed_message(
                    body@,
                    id,
                    model@,
                );
            let r = match read {
                Ok(v) => Ok(v),
                Err(_) => Err(
                    fail_with(
                        "Anthropic Messages 上游响应既不是有效 JSON，也无法作为 SSE 解析：",
                        words.as_str(),
                    ),
                ),
            };
            proof {
                assert(json_result(r) == stream_or_neither(
                    parsed_message(body@, id, model@),
                    "Anthropic Messages 上游响应既不是有效 JSON，也无法作为 SSE 解析："@ + words@,
                ));
            }
            r
        },
    }
}

/// What an answer of the Messages protocol becomes.
pub open spec fn message_answer(
    read: Result<JsonV, FailureV>,
    model: Seq<char>,
    message_id: Seq<char>,
    response_id: Seq<char>,
    now: i64,
) -> Result<AdaptedAnswerV, FailureV> {
    match read {
        Err(e) => Err(e),
        Ok(message) => match message_parts(message) {
            Err(e) => Err(e),
            Ok(parts) => if parts.calls.len() > 0 {
                Ok(AdaptedAnswerV::Calls { answer: message, calls: parts.calls })
            } else {
                Ok(
                    AdaptedAnswerV::Whole(
                        anthropic_response(
                            message,
                            model,
                            Seq::empty(),
                            message_id,
                            response_id,
                            now,
                        )->Ok_0,
                    ),
                )
            },
        },
    }
}

/// Turns an answer of the Messages protocol that has been read into a Responses document.
pub fn adapt_message_answer(
    read: Result<Json, Failure>,
    model: &str,
    message_id: &str,
    response_id: &str,
    now: i64,
) -> (r: Result<AdaptedAnswer, Failure>)
    ensures
        answer_result(r) == message_answer(
            json_result(read),
            model@,
            message_id@,
            response_id@,
            now,
        ),
{
    let message = match read {
        Err(e) => {
            return Err(e);
        },
        Ok(message) => message,
    };
    match read_anthropic_message(&message) {
        Err(e) => Err(e),
        Ok(parts) => {
            proof {
                assert(calls_view(parts.calls@).len() == parts.calls.len());
            }
            if parts.calls.len() > 0 {
                return Ok(AdaptedAnswer::Calls { answer: message, calls: parts.calls });
            }
            let none: Vec<Json> = Vec::new();
            proof {
                assert(views(none@) =~= Seq::<JsonV>::empty());
            }
            Ok(
                AdaptedAnswer::Whole(
                    make_message_document(
                        &message,
                        model,
                        parts,
                        none,
                        message_id,
                        response_id,
                        now,
                    ),
                ),
            )
        },
    }
}

/// Reads an answer of the Messages protocol that came whole, and turns it into a Responses
/// document with fresh ids.
pub fn read_anthropic_messages_as_responses(body: &Vec<u8>, now: i64, model: &str) -> (r: Result<
    AdaptedAnswer,
    Failure,
>)
    ensures
        exists|read: Result<JsonV, FailureV>, message_id: Seq<char>, response_id: Seq<char>|
            message_answer_read(body@, model@, read) && has_form(message_id, "msg_codey_"@)
                && has_form(response_id, "resp_codey_"@) && answer_result(r)
                == #[trigger] message_answer(read, model@, message_id, response_id, now),
{
    let read = read_message_answer(body, model);
    let message_id = fresh_id("msg_codey_");
    let response_id = fresh_id("resp_codey_");
    adapt_message_answer(read, model, message_id.as_str(), response_id.as_str(), now)
}

/// What a client is told when a whole answer could not be converted.
pub fn refuse_adapted(route_name: &str, messages: bool, failure: &Failure) -> (r: Refusal)
    ensures
        r@ == (RefusalV {
            status: 502,
            code: "upstream_protocol_error"@,
            words: "线路「"@ + route_name@ + "」的 "@ + (if messages {
                "Anthropic Messages"@
            } else {
                "Chat Completions"@
            }) + " 响应无法转换为 Responses："@ + failure_words(failure@),
        }),
{
    let label = if messages {
        "Anthropic Messages"
    } else {
        "Chat Completions"
    };
    let words = cat2(
        cat5("线路「", route_name, "」的 ", label, " 响应无法转换为 Responses：").as_str(),
        words_of(failure).as_str(),
    );
    refuse_with(502, "upstream_protocol_error", words)
}

/// What a client is told when a stream broke off.
pub open spec fn stream_failure(failure: FailureV, idle: bool, route_name: Seq<char>) -> (
    Seq<char>,
    Seq<char>,
) {
    if failure == FailureV::ContextLength {
        ("context_length_exceeded"@, failure_words(failure))
    } else if idle {
        ("upstream_idle_timeout"@, "线路「"@ + route_name + "」的上游流长时间没有返回新数据"@)
    } else {
        ("upstream_stream_error"@, "线路「"@ + route_name + "」返回了无法继续处理的流式响应"@)
    }
}

/// What a client is told when a stream broke off.
pub fn streaming_failure_message(failure: &Failure, idle: bool, route_name: &str) -> (r: (
    &'static str,
    String,
))
    ensures
        (r.0@, r.1@) == stream_failure(failure@, idle, route_name@),
{
    match failure {
        Failure::ContextLength => {
            return ("context_length_exceeded", words_of(failure));
        },
        Failure::Text(_) => {},
    }
    if idle {
        ("upstream_idle_timeout", cat3("线路「", route_name, "」的上游流长时间没有返回新数据"))
    } else {
        ("upstream_stream_error", cat3("线路「", route_name, "」返回了无法继续处理的流式响应"))
    }
}

/// A request for images that has a route.
#[derive(Debug)]
pub struct ImageRequest {
    pub body: Json,
    pub body_mutated: bool,
    pub provider_id: String,
    pub model: String,
    pub stream: bool,
}

#[verifier::ext_equal]
pub struct ImageV {
    pub headers: Seq<(Seq<char>, Seq<char>)>,
    pub body: JsonV,
    pub body_mutated: bool,
    pub provider_id: Seq<char>,
    pub model: Seq<char>,
    pub stream: bool,
}

/// A request for images is given a route. One that speaks the Messages protocol has no images.
pub open spec fn image_request(
    table: SnapshotV,
    history: Seq<(Seq<char>, Seq<char>)>,
    default_model: Seq<char>,
    bindings: Seq<(Seq<char>, (Seq<char>, u64))>,
    headers: Seq<(Seq<char>, Seq<char>)>,
    body: JsonV,
) -> Result<ImageV, RefusalV> {
    match taken_hint(headers, body) {
        Err(e) => Err(
            RefusalV {
                status: 400,
                code: "route_metadata_invalid"@,
                words: "Codey 线路元数据无效："@ + failure_words(e),
            },
        ),
        Ok(taken) => {
            let bound = first_bound(bindings, binding_keys(taken.headers));
            match select_auxiliary(table, history, default_model, taken.hint, bound) {
                Err(e) => Err(
                    RefusalV {
                        status: 404,
                        code: "route_not_enabled"@,
                        words: "图片生成请求没有可用线路："@ + failure_words(e),
                    },
                ),
                Ok(provider_id) => {
                    let route = lookup(table.routes, provider_id)->0;
                    if route.protocol == UpstreamProtocol::AnthropicMessages {
                        Err(
                            RefusalV {
                                status: 400,
                                code: "image_generation_not_supported"@,
                                words: "线路「"@ + display_name(route)
                                    + "」使用 Anthropic Messages，不能转发 OpenAI Images 请求"@,
                            },
                        )
                    } else {
                        match route.upstream_url {
                            Err(words) => Err(
                                RefusalV {
                                    status: 502,
                                    code: "route_configuration_error"@,
                                    words: "线路「"@ + display_name(route) + "」的 "@ + words,
                                },
                            ),
                            Ok(_) => Ok(
                                ImageV {
                                    headers: taken.headers,
                                    body: taken.body,
                                    body_mutated: taken.changed,
                                    provider_id,
                                    model: taken.body.str_or_empty("model"@),
                                    stream: taken.body.get_bool("stream"@) == Some(true),
                                },
                            ),
                        }
                    }
                },
            }
        },
    }
}

/// Gives a request for images a route.
pub fn proxy_image_generation(
    snapshot: &RouterSnapshot,
    bindings: &RouteBindings,
    headers: &mut Vec<(String, String)>,
    sent: Json,
) -> (r: Result<ImageRequest, Refusal>)
    requires
        snapshot.inv(),
        bindings.inv(),
    ensures
        pairs_view(final(headers)@) == hinted_headers(pairs_view(old(headers)@), sent@),
        ({
            let spec = image_request(
                snapshot.table(),
                snapshot.model_alias_history@,
                snapshot.default_model@,
                bindings.routes@,
                pairs_view(old(headers)@),
                sent@,
            );
            match r {
                Ok(x) => spec == Ok::<ImageV, RefusalV>(
                    ImageV {
                        headers: pairs_view(final(headers)@),
                        body: x.body@,
                        body_mutated: x.body_mutated,
                        provider_id: x.provider_id@,
                        model: x.model@,
                        stream: x.stream,
                    },
                ),
                Err(e) => spec == Err::<ImageV, RefusalV>(e@),
            }
        }),
{
    let mut body = sent;
    let (hint, changed) = match take_codey_route_metadata(headers, &mut body) {
        Err(e) => {
            return Err(
                refuse_with(
                    400,
                    "route_metadata_invalid",
                    cat2("Codey 线路元数据无效：", words_of(&e).as_str()),
                ),
            );
        },
        Ok(x) => x,
    };
    let keys = request_binding_keys(headers);
    let bound = bindings.route_for_keys(&keys);
    let hint_text = match &hint {
        Some(h) => Some(h.as_str()),
        None => None,
    };
    let bound_text = match &bound {
        Some(b) => Some(b.as_str()),
        None => None,
    };
    let provider_id = match snapshot.target_for_auxiliary_request(hint_text, bound_text) {
        Err(e) => {
            return Err(
                refuse_with(
                    404,
                    "route_not_enabled",
                    cat2("图片生成请求没有可用线路：", words_of(&e).as_str()),
                ),
            );
        },
        Ok(id) => id,
    };
    proof {
        let default_model = trim(snapshot.default_model@);
        let chosen = select_route(
            snapshot.table(),
            snapshot.model_alias_history@,
            default_model,
            None,
            None,
        );
        if chosen is Ok {
            a_selected_route_has_the_model(
                snapshot.table(),
                snapshot.model_alias_history@,
                default_model,
                None,
                None,
            );
        }
    }
    let route = match snapshot.routes.get(provider_id.as_str()) {
        None => {
            proof {
                assert(false);
            }
            return Err(refuse(404, "route_not_enabled", ""));
        },
        Some(t) => t,
    };
    let messages = match route.protocol {
        UpstreamProtocol::AnthropicMessages => true,
        _ => false,
    };
    if messages {
        return Err(
            refuse_with(
                400,
                "image_generation_not_supported",
                cat3(
                    "线路「",
                    route_display_name(route),
                    "」使用 Anthropic Messages，不能转发 OpenAI Images 请求",
                ),
            ),
        );
    }
    if let Err(words) = &route.upstream_url {
        return Err(
            refuse_with(
                502,
                "route_configuration_error",
                cat4("线路「", route_display_name(route), "」的 ", words.as_str()),
            ),
        );
    }
    let model = body.str_or_empty("model");
    let stream = match body.get_bool("stream") {
        Some(b) => b,
        None => false,
    };
    Ok(ImageRequest { body, body_mutated: changed, provider_id, model, stream })
}

/// The document of a request for images.
pub fn read_image_request(body: &Vec<u8>) -> (r: Result<Json, Refusal>)
    ensures
        object_result(r) == object_or_refusal(
            json_parsed(body@),
            "Images 请求体必须是 JSON 对象"@,
            "Images 请求体不是有效 JSON："@,
        ),
{
    require_object(
        parse_bytes(body.as_slice()),
        "Images 请求体必须是 JSON 对象",
        "Images 请求体不是有效 JSON：",
    )
}

/// What a client is told when the route has no address for images.
pub fn refuse_image_address(route_name: &str, error: &str) -> (r: Refusal)
    ensures
        r@ == (RefusalV {
            status: 502,
            code: "route_configuration_error"@,
            words: "线路「"@ + route_name@ + "」的 Images API URL 无效："@ + error@,
        }),
{
    refuse_with(
        502,
        "route_configuration_error",
        cat4("线路「", route_name, "」的 Images API URL 无效：", error),
    )
}

/// What a client is told when no images came.
pub open spec fn image_send_refusal(fault: SendFault, route_name: Seq<char>) -> RefusalV {
    match fault {
        SendFault::TimedOut => RefusalV {
            status: 504,
            code: "upstream_timeout"@,
            words: "Codey 线路「"@ + route_name + "」请求图片生成上游超时"@,
        },
        SendFault::Unreachable => RefusalV {
            status: 424,
            code: "upstream_unreachable"@,
            words: "Codey 线路「"@ + route_name + "」无法连接图片生成上游"@,
        },
        SendFault::HeaderTimedOut => RefusalV {
            status: 504,
            code: "upstream_header_timeout"@,
            words: "Codey 线路「"@ + route_name + "」等待图片生成上游返回响应头超时"@,
        },
    }
}

/// What a client is told when no images came.
pub fn refuse_image_send(fault: SendFault, route_name: &str) -> (r: Refusal)
    ensures
        r@ == image_send_refusal(fault, route_name@),
{
    match fault {
        SendFault::TimedOut => refuse_with(
            504,
            "upstream_timeout",
            cat3("Codey 线路「", route_name, "」请求图片生成上游超时"),
        ),
        SendFault::Unreachable => refuse_with(
            424,
            "upstream_unreachable",
            cat3("Codey 线路「", route_name, "」无法连接图片生成上游"),
        ),
        SendFault::HeaderTimedOut => refuse_with(
            504,
            "upstream_header_timeout",
            cat3("Codey 线路「", route_name, "」等待图片生成上游返回响应头超时"),
        ),
    }
}

/// A request that is turned down leaves no trace in the bindings, and one that is given a route
/// goes to a route that is there and has the model.
pub proof fn a_resolved_request_has_a_live_route(
    table: SnapshotV,
    history: Seq<(Seq<char>, Seq<char>)>,
    default_model: Seq<char>,
    bindings: BindingsV,
    headers: Seq<(Seq<char>, Seq<char>)>,
    sent: JsonV,
    downstream_websocket: bool,
)
    requires
        resolved_request(
            table,
            history,
            default_model,
            bindings,
            headers,
            sent,
            downstream_websocket,
        ) is Ok,
    ensures
        ({
            let x = resolved_request(
                table,
                history,
                default_model,
                bindings,
                headers,
                sent,
                downstream_websocket,
            )->Ok_0;
            exists|id: Seq<char>| #[trigger]
                lookup(table.routes, id) matches Some(t) && t.models.contains(
                    x.selection.upstream_model,
                ) && t.provider_id == x.selection.provider_id
        }),
{
}

/// The model that a body asks for in words of its own.
pub open spec fn says_model(body: JsonV, model: Seq<char>) -> bool {
    body.get("model"@) matches Some(JsonV::Str(m)) && trim(m) == model && model.len() > 0
}

/// A request that names a route is sent there, where that route can be used and has the model that
/// the request means: wherever the request names it, and whatever its conversation is bound to.
pub proof fn a_named_route_is_gone_to(
    inputs: Seq<RouteInput>,
    account: bool,
    history: Seq<(Seq<char>, Seq<char>)>,
    default_model: Seq<char>,
    bindings: BindingsV,
    headers: Seq<(Seq<char>, Seq<char>)>,
    sent: JsonV,
    downstream_websocket: bool,
    asked: Seq<char>,
    route: JsonV,
    i: int,
)
    requires
        sent.is_object(),
        says_model(sent, asked),
        names_route(headers, sent, route),
        is_route_text(route, route_id(inputs, i)),
        taken_hint(headers, working_body(sent, downstream_websocket)) is Ok,
        !is_selector(inputs, account, asked),
        serves(inputs, account, i, meant_model(inputs, account, history, asked)),
        forall|j: int|
            in_use(inputs, account, j) && j != i ==> #[trigger] route_id(inputs, j) != route_id(
                inputs,
                i,
            ),
    ensures
        resolved_request(
            whole_table(inputs, account),
            history,
            default_model,
            bindings,
            headers,
            sent,
            downstream_websocket,
        ) matches Ok(given) && is_given(
            inputs,
            i,
            meant_model(inputs, account, history, asked),
            asked,
            Ok(given.selection),
        ),
{
    let working = working_body(sent, downstream_websocket);
    lemma_stream_keys();
    lemma_working_body(sent, downstream_websocket, "model"@);
    lemma_working_body(sent, downstream_websocket, "client_metadata"@);
    assert(working.str_or_empty("model"@) == (sent.get("model"@)->0)->Str_0);
    trim_leaves_clean_ends((sent.get("model"@)->0)->Str_0);
    assert(client_metadata(working) == client_metadata(sent));
    assert(names_route(headers, working, route));
    the_named_route_is_taken(headers, working, route);
    let taken = taken_hint(headers, working)->Ok_0;
    assert(taken.hint == Some(route_id(inputs, i)));
    a_picked_route_wins(
        inputs,
        account,
        history,
        asked,
        i,
        first_bound(bindings.routes, binding_keys(taken.headers)),
    );
}

proof fn lemma_stream_keys()
    ensures
        "model"@ != "stream_id"@,
        "model"@ != "stream"@,
        "model"@ != "client_metadata"@,
        "client_metadata"@ != "stream_id"@,
        "client_metadata"@ != "stream"@,
        "stream"@ != "stream_id"@,
{
    reveal_strlit("model");
    reveal_strlit("stream");
    reveal_strlit("stream_id");
    reveal_strlit("client_metadata");
    assert("model"@.len() == 5 && "stream"@.len() == 6 && "stream_id"@.len() == 9
        && "client_metadata"@.len() == 15);
}

proof fn lemma_working_body(sent: JsonV, downstream_websocket: bool, key: Seq<char>)
    requires
        sent.is_object(),
        key != "stream_id"@,
        key != "stream"@,
    ensures
        working_body(sent, downstream_websocket).is_object(),
        working_body(sent, downstream_websocket).get(key) == sent.get(key),
{
}

/// What goes upstream asks for the model of the route, and is otherwise the body that was sent, but
/// for the router's own words in it and, on a socket, for how it is streamed.
pub proof fn a_body_goes_upstream_as_it_was_sent(
    table: SnapshotV,
    history: Seq<(Seq<char>, Seq<char>)>,
    default_model: Seq<char>,
    bindings: BindingsV,
    headers: Seq<(Seq<char>, Seq<char>)>,
    sent: JsonV,
    downstream_websocket: bool,
    key: Seq<char>,
)
    requires
        sent.is_object(),
        resolved_request(
            table,
            history,
            default_model,
            bindings,
            headers,
            sent,
            downstream_websocket,
        ) is Ok,
    ensures
        ({
            let given = resolved_request(
                table,
                history,
                default_model,
                bindings,
                headers,
                sent,
                downstream_websocket,
            )->Ok_0;
            &&& says_model(given.body, trim(given.selection.upstream_model)) || given.body.get(
                "model"@,
            ) == Some(JsonV::Str(given.selection.upstream_model))
            &&& key != "model"@ && key != "client_metadata"@ && (downstream_websocket ==> key
                != "stream"@ && key != "stream_id"@) ==> given.body.get(key) == sent.get(key)
            &&& key != "codey_route"@ && key != "x-codex-turn-metadata"@ ==> given.body.get2(
                "client_metadata"@,
                key,
            ) == sent.get2("client_metadata"@, key)
            &&& downstream_websocket ==> given.body.get("stream"@) == Some(JsonV::Bool(true))
                && given.body.get("stream_id"@) is None
        }),
{
    lemma_stream_keys();
    lemma_working_body(sent, downstream_websocket, "model"@);
    lemma_working_body(sent, downstream_websocket, "client_metadata"@);
    let working = working_body(sent, downstream_websocket);
    let asking = asking_body(working, default_model);
    trim_leaves_clean_ends(working.str_or_empty("model"@));
    the_rest_of_the_body_stays(headers, asking, key);
    the_rest_of_the_body_stays(headers, asking, "model"@);
    the_rest_of_the_body_stays(headers, asking, "stream"@);
    the_rest_of_the_body_stays(headers, asking, "stream_id"@);
}

/// The conversation of a request that was given a route is bound to it, as long as no other binding
/// has to be given up: its thread always, and its session where it was not bound or where the request
/// named a route and is not a subagent's.
pub proof fn a_given_route_is_kept_for_the_conversation(
    table: SnapshotV,
    history: Seq<(Seq<char>, Seq<char>)>,
    default_model: Seq<char>,
    bindings: BindingsV,
    headers: Seq<(Seq<char>, Seq<char>)>,
    sent: JsonV,
    downstream_websocket: bool,
    key: Seq<char>,
)
    requires
        bindings.routes.len() + 2 <= MAX_ROUTE_BINDINGS,
        resolved_request(
            table,
            history,
            default_model,
            bindings,
            headers,
            sent,
            downstream_websocket,
        ) is Ok,
    ensures
        ({
            let given = resolved_request(
                table,
                history,
                default_model,
                bindings,
                headers,
                sent,
                downstream_websocket,
            )->Ok_0;
            let keys = binding_keys(given.headers);
            let bound = lookup(bindings.routes, key) is Some;
            &&& keys.contains(key) && !(starts_with(key, "session-id:"@) && bound) ==> (lookup(
                given.bindings.routes,
                key,
            ) matches Some((id, _)) && id == given.selection.provider_id)
            &&& !keys.contains(key) ==> lookup(given.bindings.routes, key) == lookup(
                bindings.routes,
                key,
            )
        }),
{
    let given = resolved_request(
        table,
        history,
        default_model,
        bindings,
        headers,
        sent,
        downstream_websocket,
    )->Ok_0;
    let taken = taken_hint(
        headers,
        asking_body(working_body(sent, downstream_websocket), default_model),
    )->Ok_0;
    a_conversation_is_found_again(
        bindings,
        binding_keys(given.headers),
        given.selection.provider_id,
        taken.hint is Some && !is_subagent(taken.headers),
        key,
    );
}

proof fn lemma_paths()
    ensures
        "GET"@.len() == 3,
        "POST"@.len() == 4,
        "/healthz"@.len() == 8,
        "/codey/request-logs"@.len() == 19,
        "/codey/request-logs.js"@.len() == 22,
        "/v1/models"@.len() == 10,
        "/models"@.len() == 7,
        "/codey/api/load_codey_config"@.len() == 28,
        "/codey/api/query_route_request_logs"@.len() == 35,
        "/codey/api/query_route_request_logs"@[11] == 'q',
        "/codey/api/query_route_request_log_stats"@.len() == 40,
        "/codey/api/clear_route_request_logs"@.len() == 35,
        "/codey/api/clear_route_request_logs"@[11] == 'c',
        "/v1/responses"@.len() == 13,
        "/responses"@.len() == 10,
        "/v1/images/generations"@.len() == 22,
        "/images/generations"@.len() == 19,
        "/v1/responses/compact"@.len() == 21,
        "/responses/compact"@.len() == 18,
        "/v1/v1/responses/compact"@.len() == 24,
        "/codex/v1/responses/compact"@.len() == 27,
{
    reveal_strlit("GET");
    reveal_strlit("POST");
    reveal_strlit("/healthz");
    reveal_strlit("/codey/request-logs");
    reveal_strlit("/codey/request-logs.js");
    reveal_strlit("/v1/models");
    reveal_strlit("/models");
    reveal_strlit("/codey/api/load_codey_config");
    reveal_strlit("/codey/api/query_route_request_logs");
    reveal_strlit("/codey/api/query_route_request_log_stats");
    reveal_strlit("/codey/api/clear_route_request_logs");
    reveal_strlit("/v1/responses");
    reveal_strlit("/responses");
    reveal_strlit("/v1/images/generations");
    reveal_strlit("/images/generations");
    reveal_strlit("/v1/responses/compact");
    reveal_strlit("/responses/compact");
    reveal_strlit("/v1/v1/responses/compact");
    reveal_strlit("/codex/v1/responses/compact");
}

/// Every service is reached under its own paths, by its own method and with the router's token, and in
/// no other way; the health check alone is reached by any method and without the token.
pub proof fn every_service_has_its_paths(method: Seq<char>, path: Seq<char>, authorized: bool)
    ensures
        ({
            let e = endpoint_of(method, path, authorized);
            let posted = authorized && method == "POST"@;
            let got = method == "GET"@;
            &&& e == Endpoint::Health <==> path == "/healthz"@
            &&& e == Endpoint::LogPage <==> got && path == "/codey/request-logs"@
            &&& e == Endpoint::LogScript <==> got && path == "/codey/request-logs.js"@
            &&& e == Endpoint::Models <==> authorized && got && (path == "/v1/models"@ || path
                == "/models"@)
            &&& e == Endpoint::Responses <==> posted && (path == "/v1/responses"@ || path
                == "/responses"@)
            &&& e == Endpoint::Images <==> posted && (path == "/v1/images/generations"@ || path
                == "/images/generations"@)
            &&& e == Endpoint::Compact <==> posted && (path == "/v1/responses/compact"@ || path
                == "/responses/compact"@ || path == "/v1/v1/responses/compact"@ || path
                == "/codex/v1/responses/compact"@)
            &&& e == Endpoint::LogCatalog <==> posted && path == "/codey/api/load_codey_config"@
            &&& e == Endpoint::LogQuery <==> posted && path
                == "/codey/api/query_route_request_logs"@
            &&& e == Endpoint::LogStatistics <==> posted && path
                == "/codey/api/query_route_request_log_stats"@
            &&& e == Endpoint::LogClear <==> posted && path
                == "/codey/api/clear_route_request_logs"@
            &&& e == Endpoint::Unauthorized ==> !authorized
            &&& e == Endpoint::NotFound ==> authorized
        }),
{
    lemma_paths();
}

/// A message on a socket is taken where it asks for a response, in a stream and not in the background,
/// under a name that fits; and what it asks for is all that it says but for these.
pub proof fn a_socket_message_is_taken_as_it_is(message: JsonV, key: Seq<char>)
    requires
        message is Object,
    ensures
        ({
            let r = socket_request(message);
            let (body, id) = r->Ok_0;
            let name = message.get("stream_id"@);
            let fits = name is None || (name->0 matches JsonV::Str(n) && 0 < n.len() <= 256
                && forall|i: int| 0 <= i < n.len() ==> is_stream_char(#[trigger] n[i]));
            &&& r is Ok <==> message.get("type"@) == Some(JsonV::Str("response.create"@)) && fits && (
            message.get("stream"@) is None || message.get("stream"@) == Some(JsonV::Bool(true))) && (
            message.get("background"@) is None || message.get("background"@) == Some(
                JsonV::Bool(false),
            ))
            &&& r is Ok && name is None ==> id is None
            &&& r is Ok && name is Some ==> id is Some && name == Some(JsonV::Str(id->0))
            &&& r is Ok ==> body.get("type"@) is None && body.get("stream"@) is None && body.get(
                "background"@,
            ) is None
            &&& r is Ok && key != "type"@ && key != "stream"@ && key != "background"@ ==> body.get(
                key,
            ) == message.get(key)
            &&& r is Err ==> r->Err_0.status == 400
        }),
{
    reveal_strlit("type");
    reveal_strlit("stream");
    reveal_strlit("background");
    reveal_strlit("stream_id");
    assert("type"@.len() == 4 && "stream"@.len() == 6 && "background"@.len() == 10
        && "stream_id"@.len() == 9);
    let body = message.without("type"@);
    assert(body.get("stream_id"@) == message.get("stream_id"@));
    assert(body.get("stream"@) == message.get("stream"@));
    assert(body.get("background"@) == message.get("background"@));
}

/// The official account takes a request as it is. For any other route the tools and the input are the
/// mended ones, where mending made some; nothing else changes.
pub proof fn only_tools_and_input_are_mended(body: JsonV, mended: JsonV, official: bool, key: Seq<char>)
    requires
        body is Object,
    ensures
        official ==> mended_request(body, Some(mended), official) == body,
        mended_request(body, None, official) == body,
        !official && (key == "tools"@ || key == "input"@) && mended.get(key) is Some
            ==> mended_request(body, Some(mended), official).get(key) == mended.get(key),
        (key != "tools"@ && key != "input"@) || mended.get(key) is None ==> mended_request(
            body,
            Some(mended),
            official,
        ).get(key) == body.get(key),
{
    reveal_strlit("tools");
    reveal_strlit("input");
    assert("tools"@[0] == 't' && "input"@[0] == 'i');
}

/// A request that its route admits goes to the route's own address for what it asks, and asks for what
/// it asked: on an adapted route as a stream, so that it can be collected. Only where it goes on from
/// a response is its input another one.
pub proof fn an_admitted_request_asks_for_the_same(
    history: HistoryV,
    sent: JsonV,
    body_mutated: bool,
    restated: bool,
    kind: ResponsesRequestKind,
    downstream_websocket: bool,
    bridge: ProtocolBridge,
    route: RouteTargetV,
    key: Seq<char>,
)
    requires
        sent is Object,
        admitted_request(
            history,
            sent,
            body_mutated,
            restated,
            kind,
            downstream_websocket,
            bridge,
            route,
        ) is Ok,
    ensures
        ({
            let given = admitted_request(
                history,
                sent,
                body_mutated,
                restated,
                kind,
                downstream_websocket,
                bridge,
                route,
            )->Ok_0;
            let native = bridge == ProtocolBridge::NativeResponses;
            let create = kind == ResponsesRequestKind::Create;
            let goes_on = sent.get("previous_response_id"@) is Some && sent.get(
                "previous_response_id"@,
            )->0 is Str;
            &&& create ==> route.upstream_url == Ok::<Seq<char>, Seq<char>>(given.upstream_url)
            &&& !create ==> route.upstream_compact_url == Ok::<Seq<char>, Seq<char>>(
                given.upstream_url,
            )
            &&& given.stream_requested == (sent.get("stream"@) == Some(JsonV::Bool(true)))
            &&& asks_compaction(sent, kind) ==> native && route.supports_remote_compaction
            &&& !native ==> portable(sent)
            &&& create && !native && !downstream_websocket ==> given.body.get("stream"@) == Some(
                JsonV::Bool(true),
            )
            &&& native || !create || downstream_websocket ==> given.body.get("stream"@) == sent.get(
                "stream"@,
            )
            &&& !goes_on ==> given.body.get("input"@) == sent.get("input"@) && given.body.get(
                "previous_response_id"@,
            ) == sent.get("previous_response_id"@)
            &&& key != "stream"@ && key != "input"@ && key != "previous_response_id"@
                ==> given.body.get(key) == sent.get(key)
        }),
{
    reveal_strlit("stream");
    reveal_strlit("input");
    reveal_strlit("previous_response_id");
    assert("stream"@.len() == 6 && "input"@.len() == 5 && "previous_response_id"@.len() == 20);
}

/// A request is admitted where its route can do what it asks: a compaction on a native route that
/// does them, a history that the route can read, and an address to send it to.
pub proof fn what_the_route_can_do_is_admitted(
    history: HistoryV,
    sent: JsonV,
    body_mutated: bool,
    restated: bool,
    kind: ResponsesRequestKind,
    downstream_websocket: bool,
    bridge: ProtocolBridge,
    route: RouteTargetV,
)
    requires
        sent is Object,
        sent.get("previous_response_id"@) is None,
    ensures
        ({
            let native = bridge == ProtocolBridge::NativeResponses;
            let create = kind == ResponsesRequestKind::Create;
            let compacting = asks_compaction(sent, kind);
            admitted_request(
                history,
                sent,
                body_mutated,
                restated,
                kind,
                downstream_websocket,
                bridge,
                route,
            ) is Ok <==> (compacting ==> native && route.supports_remote_compaction) && (native
                || portable(sent)) && (create ==> route.upstream_url is Ok) && (!create
                ==> route.upstream_compact_url is Ok)
        }),
{
}

/// A request for images goes to the route that it names, where that route is there, speaks of images
/// and has an address; it goes as it was sent but for the router's own words in it.
pub proof fn images_come_from_the_named_route(
    table: SnapshotV,
    history: Seq<(Seq<char>, Seq<char>)>,
    default_model: Seq<char>,
    bindings: Seq<(Seq<char>, (Seq<char>, u64))>,
    headers: Seq<(Seq<char>, Seq<char>)>,
    body: JsonV,
    route: JsonV,
    id: Seq<char>,
    key: Seq<char>,
)
    requires
        body is Object,
        names_route(headers, body, route),
        is_route_text(route, id),
        taken_hint(headers, body) is Ok,
        lookup(table.routes, id) is Some,
    ensures
        ({
            let target = lookup(table.routes, id)->0;
            let r = image_request(table, history, default_model, bindings, headers, body);
            let given = r->Ok_0;
            &&& r is Ok <==> target.protocol != UpstreamProtocol::AnthropicMessages
                && target.upstream_url is Ok
            &&& r is Ok ==> given.provider_id == id
            &&& r is Ok && key != "client_metadata"@ ==> given.body.get(key) == body.get(key)
            &&& r is Ok ==> given.stream == (body.get("stream"@) == Some(JsonV::Bool(true)))
            &&& r is Ok && (body.get("model"@) matches Some(JsonV::Str(_))) ==> body.get("model"@)
                == Some(JsonV::Str(given.model))
        }),
{
    lemma_stream_keys();
    the_named_route_is_taken(headers, body, route);
    the_rest_of_the_body_stays(headers, body, key);
    the_rest_of_the_body_stays(headers, body, "stream"@);
    the_rest_of_the_body_stays(headers, body, "model"@);
}

/// Every model is listed, in its place, by its id.
pub proof fn every_model_is_listed(ids: Seq<Seq<char>>, i: int)
    requires
        0 <= i < ids.len(),
    ensures
        ({
            let list = model_list(ids).get("data"@);
            &&& list is Some && list->0 is Array
            &&& (list->0)->Array_0.len() == ids.len()
            &&& (list->0)->Array_0[i].get("id"@) == Some(JsonV::Str(ids[i]))
            &&& (list->0)->Array_0[i].get("object"@) == Some(JsonV::Str("model"@))
            &&& model_list(ids).get("object"@) == Some(JsonV::Str("list"@))
        }),
{
    reveal_strlit("object");
    reveal_strlit("data");
    reveal_strlit("id");
    reveal_strlit("owned_by");
    assert("object"@.len() == 6 && "data"@.len() == 4 && "id"@.len() == 2 && "owned_by"@.len() == 8);
}

/// An answer without tool calls becomes a response at once, with what it said; one with tool calls is
/// handed on with each of them, in order; and one that cannot be read is no response.
pub proof fn an_answer_becomes_a_response(
    answer: JsonV,
    model: Seq<char>,
    message_id: Seq<char>,
    response_id: Seq<char>,
    now: i64,
)
    ensures
        ({
            let read = chat_parts(answer);
            let r = chat_answer(Ok(answer), model, message_id, response_id, now);
            &&& read is Err ==> r is Err
            &&& read is Ok && read->Ok_0.calls.len() > 0 ==> r == Ok::<AdaptedAnswerV, FailureV>(
                AdaptedAnswerV::Calls { answer, calls: read->Ok_0.calls },
            )
            &&& read is Ok && read->Ok_0.calls.len() == 0 ==> r is Ok && (
            r->Ok_0 matches AdaptedAnswerV::Whole(response) && response.get("output_text"@) == Some(
                JsonV::Str(read->Ok_0.text),
            ) && response.get("model"@) == Some(JsonV::Str(model)))
        }),
        ({
            let read = message_parts(answer);
            let r = message_answer(Ok(answer), model, message_id, response_id, now);
            &&& read is Err ==> r is Err
            &&& read is Ok && read->Ok_0.calls.len() > 0 ==> r == Ok::<AdaptedAnswerV, FailureV>(
                AdaptedAnswerV::Calls { answer, calls: read->Ok_0.calls },
            )
            &&& read is Ok && read->Ok_0.calls.len() == 0 ==> r is Ok && (
            r->Ok_0 matches AdaptedAnswerV::Whole(response) && response.get("output_text"@) == Some(
                JsonV::Str(read->Ok_0.text),
            ) && response.get("id"@) == Some(JsonV::Str(response_id)))
        }),
{
    if chat_parts(answer) is Ok {
        a_response_says_what_the_completion_said(
            answer,
            model,
            Seq::empty(),
            message_id,
            response_id,
            now,
        );
    }
    if message_parts(answer) is Ok {
        a_response_says_what_the_message_said(
            answer,
            model,
            message_parts(answer)->Ok_0,
            Seq::empty(),
            message_id,
            response_id,
            now,
        );
    }
}

} // verus!
