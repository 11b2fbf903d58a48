//! What is kept of a conversation, so that it can go on over another connection or route.
use crate::digest::{Fingerprint, add_all, add_text, sha256, sha256_of, with_length};
use crate::json::{Json, JsonV, copy_items, string_view, views, views_push};
use crate::local_router::errors::{Failure, FailureV, done_view, fail};
use crate::local_router::request_meta::{
    CHATGPT_ACCOUNT_ID_HEADER, header_value, incoming_header, is_codey_synthetic_response_id,
    is_own_response_id,
};
use crate::local_router::routing::RouteTarget;
use crate::text::{byte_len, cat3, pairs_view, str_eq, text_byte_len, trim, trimmed, words};
use vstd::prelude::*;
use vstd::string::*;
use vstd::utf8::*;

verus! {

/// The last response with the whole conversation up to it, and the conversation that the present
/// request goes on from.
pub struct AdaptedResponsesHistory {
    pub last: Option<(String, Vec<Json>)>,
    pub pending_input: Option<Vec<Json>>,
}

#[verifier::ext_equal]
pub struct HistoryV {
    pub last: Option<(Seq<char>, Seq<JsonV>)>,
    pub pending: Option<Seq<JsonV>>,
}

impl View for AdaptedResponsesHistory {
    type V = HistoryV;

    open spec fn view(&self) -> HistoryV {
        HistoryV {
            last: match self.last {
                Some((id, items)) => Some((id@, views(items@))),
                None => None,
            },
            pending: match self.pending_input {
                Some(items) => Some(views(items@)),
                None => None,
            },
        }
    }
}

/// The input of a request as items. Other values than an array, an object, a string or null are
/// none.
pub open spec fn input_list(body: JsonV) -> Option<Seq<JsonV>> {
    match body.get("input"@) {
        None => Some(Seq::empty()),
        Some(JsonV::Null) => Some(Seq::empty()),
        Some(JsonV::Array(items)) => Some(items),
        Some(JsonV::Str(s)) => Some(seq![JsonV::Str(s)]),
        Some(v) => if v.is_object() {
            Some(seq![v])
        } else {
            None
        },
    }
}

/// The response that a request goes on from.
pub open spec fn continued_id(body: JsonV) -> Option<Seq<char>> {
    match body.get_str("previous_response_id"@) {
        Some(id) => Some(trim(id)),
        None => None,
    }
}

/// The conversation that a request of an adapted route goes on from. Only a response that the
/// router made itself, and the last one, can be gone on from.
pub open spec fn adapted_context(history: HistoryV, body: JsonV) -> Option<Seq<JsonV>> {
    match (input_list(body), continued_id(body)) {
        (None, _) => None,
        (Some(input), None) => Some(input),
        (Some(input), Some(id)) => match history.last {
            Some((last, context)) => if is_own_response_id(id) && last == id {
                Some(context + input)
            } else {
                None
            },
            None => None,
        },
    }
}

/// The body that goes upstream: where it went on from a response, the whole conversation.
pub open spec fn expanded(body: JsonV, context: Seq<JsonV>) -> JsonV {
    body.without("previous_response_id"@).with("input"@, JsonV::Array(context))
}

fn add_items(out: &mut Vec<Json>, items: &Vec<Json>)
    ensures
        views(final(out)@) == views(old(out)@) + views(items@),
{
    let ghost before = views(out@);
    let mut i: usize = 0;
    proof {
        assert(before =~= before + views(items@).subrange(0, 0));
    }
    while i < items.len()
        invariant
            i <= items.len(),
            before == views(old(out)@),
            views(out@) == before + views(items@).subrange(0, i as int),
        decreases items.len() - i,
    {
        let item = items[i].clone_json();
        proof {
            views_push(out@, item);
        }
        out.push(item);
        i = i + 1;
        proof {
            assert(views(out@) =~= before + views(items@).subrange(0, i as int));
        }
    }
    proof {
        assert(views(items@).subrange(0, i as int) =~= views(items@));
    }
}

fn input_items_of(body: &Json) -> (r: Option<Vec<Json>>)
    ensures
        match r {
            Some(items) => input_list(body@) == Some(views(items@)),
            None => input_list(body@) is None,
        },
{
    let mut out: Vec<Json> = Vec::new();
    proof {
        assert(views(out@) =~= Seq::<JsonV>::empty());
    }
    match body.get("input") {
        None => Some(out),
        Some(v) => {
            if v.is_null() {
                return Some(out);
            }
            if let Some(items) = v.as_array() {
                return Some(copy_items(items));
            }
            if v.as_str().is_some() || v.is_object() {
                let item = v.clone_json();
                out.push(item);
                proof {
                    assert(views(out@) =~= seq![item@]);
                }
                return Some(out);
            }
            None
        },
    }
}

fn continued_id_of(body: &Json) -> (r: Option<String>)
    ensures
        string_view(r) == continued_id(body@),
{
    match body.get_str("previous_response_id") {
        Some(id) => Some(trimmed(id)),
        None => None,
    }
}

impl AdaptedResponsesHistory {
    pub fn new() -> (r: AdaptedResponsesHistory)
        ensures
            r@ == (HistoryV { last: None, pending: None }),
    {
        AdaptedResponsesHistory { last: None, pending_input: None }
    }

    pub fn clear_pending(&mut self)
        ensures
            final(self)@ == (HistoryV { pending: None, ..old(self)@ }),
    {
        self.pending_input = None;
    }

    /// Notes the conversation of a request for an adapted route, and puts the whole of it into a
    /// body that goes on from a response. Says whether it did.
    pub fn prepare(&mut self, body: &mut Json) -> (r: bool)
        ensures
            ({
                let context = if old(body)@.is_object() {
                    adapted_context(old(self)@, old(body)@)
                } else {
                    None
                };
                &&& final(self)@ == (HistoryV { pending: context, ..old(self)@ })
                &&& r == (context is Some && continued_id(old(body)@) is Some)
                &&& final(body)@ == if r {
                    expanded(old(body)@, context->0)
                } else {
                    old(body)@
                }
            }),
    {
        self.pending_input = None;
        if !body.is_object() {
            return false;
        }
        let input = match input_items_of(body) {
            Some(items) => items,
            None => {
                return false;
            },
        };
        match continued_id_of(body) {
            None => {
                self.pending_input = Some(input);
                false
            },
            Some(id) => {
                if !is_codey_synthetic_response_id(id.as_str()) {
                    return false;
                }
                let mut context = match &self.last {
                    Some((last, items)) => if str_eq(last.as_str(), id.as_str()) {
                        copy_items(items)
                    } else {
                        return false;
                    },
                    None => {
                        return false;
                    },
                };
                add_items(&mut context, &input);
                self.pending_input = Some(copy_items(&context));
                let _ = body.remove("previous_response_id");
                body.insert("input", Json::array(context));
                true
            },
        }
    }

    /// Keeps the conversation with the response to it.
    pub fn remember(&mut self, response_id: &str, output: &Vec<Json>)
        ensures
            final(self)@ == after_response(old(self)@, response_id@, views(output@)),
    {
        let mut taken: Option<Vec<Json>> = None;
        std::mem::swap(&mut taken, &mut self.pending_input);
        if let Some(items) = taken {
            let mut context = items;
            add_items(&mut context, output);
            self.last = Some((response_id.to_owned(), context));
        }
    }

    /// Notes the conversation of a request for a native route.
    pub fn stage_native(&mut self, body: &Json) -> (r: Result<(), Failure>)
        ensures
            match r {
                Ok(()) => native_context(old(self)@, body@) == Ok::<Seq<JsonV>, FailureV>(
                    final(self)@.pending->0,
                ) && final(self)@ == (HistoryV { pending: final(self)@.pending, ..old(self)@ })
                    && final(self)@.pending is Some,
                Err(e) => native_context(old(self)@, body@) == Err::<Seq<JsonV>, FailureV>(e@)
                    && final(self)@ == (HistoryV { pending: None, ..old(self)@ }),
            },
    {
        self.pending_input = None;
        if !body.is_object() {
            return Err(fail("Responses 请求必须是 JSON 对象"));
        }
        let input = match native_items_of(body) {
            Some(items) => items,
            None => {
                return Err(fail("Responses input 无法保存为续接历史"));
            },
        };
        match continued_id_of(body) {
            None => {
                self.pending_input = Some(input);
                Ok(())
            },
            Some(id) => {
                let mut context = match &self.last {
                    Some((last, items)) => if str_eq(last.as_str(), id.as_str()) {
                        copy_items(items)
                    } else {
                        return Err(fail("未找到上一次响应的完整历史"));
                    },
                    None => {
                        return Err(fail("未找到上一次响应的完整历史"));
                    },
                };
                add_items(&mut context, &input);
                self.pending_input = Some(context);
                Ok(())
            },
        }
    }
}

/// The conversation with the response to it, where a request is under way.
pub open spec fn after_response(history: HistoryV, response_id: Seq<char>, output: Seq<JsonV>) -> HistoryV {
    match history.pending {
        None => history,
        Some(context) => HistoryV { last: Some((response_id, context + output)), pending: None },
    }
}

/// The input of a native request as items: a text is a message of the user.
pub open spec fn native_input(body: JsonV) -> Option<Seq<JsonV>> {
    match body.get("input"@) {
        Some(JsonV::Str(s)) => Some(
            seq![
                JsonV::obj().with("role"@, JsonV::Str("user"@)).with("content"@, JsonV::Str(s)),
            ],
        ),
        _ => input_list(body),
    }
}

fn native_items_of(body: &Json) -> (r: Option<Vec<Json>>)
    ensures
        match r {
            Some(items) => native_input(body@) == Some(views(items@)),
            None => native_input(body@) is None,
        },
{
    if let Some(v) = body.get("input") {
        if let Some(s) = v.as_str() {
            let message = Json::obj().with("role", Json::str("user")).with("content", Json::str(s));
            let mut out: Vec<Json> = Vec::new();
            out.push(message);
            proof {
                assert(views(out@) =~= seq![message@]);
            }
            return Some(out);
        }
    }
    input_items_of(body)
}

/// The conversation that a request of a native route goes on from.
pub open spec fn native_context(history: HistoryV, body: JsonV) -> Result<Seq<JsonV>, FailureV> {
    if !body.is_object() {
        Err(FailureV::Text("Responses 请求必须是 JSON 对象"@))
    } else {
        match (native_input(body), continued_id(body)) {
            (None, _) => Err(FailureV::Text("Responses input 无法保存为续接历史"@)),
            (Some(input), None) => Ok(input),
            (Some(input), Some(id)) => match history.last {
                Some((last, context)) => if last == id {
                    Ok(context + input)
                } else {
                    Err(FailureV::Text("未找到上一次响应的完整历史"@))
                },
                None => Err(FailureV::Text("未找到上一次响应的完整历史"@)),
            },
        }
    }
}

/// What a response brought is there when the next request goes on from it: its conversation is
/// the one before, the response, and the new input.
pub proof fn a_continuation_holds_the_whole_conversation(
    history: HistoryV,
    response_id: Seq<char>,
    output: Seq<JsonV>,
    body: JsonV,
)
    requires
        history.pending is Some,
        body.is_object(),
        continued_id(body) == Some(response_id),
        native_input(body) is Some,
    ensures
        native_context(after_response(history, response_id, output), body) == Ok::<
            Seq<JsonV>,
            FailureV,
        >(history.pending->0 + output + native_input(body)->0),
{
}

/// The digests of the logins on a socket.
pub struct UpstreamWebSocketAuthIdentity {
    pub authorization: Option<Fingerprint>,
    pub account_id: Option<Fingerprint>,
}

pub open spec fn print_view(p: Option<Fingerprint>) -> Option<Seq<u8>> {
    match p {
        Some(f) => Some(f@),
        None => None,
    }
}

/// The digest of a header line.
pub open spec fn header_print(headers: Seq<(Seq<char>, Seq<char>)>, name: Seq<char>) -> Option<
    Seq<u8>,
> {
    match header_value(headers, name) {
        Some(v) => Some(sha256_of(encode_utf8(v))),
        None => None,
    }
}

/// The digest of a header line.
pub fn websocket_header_fingerprint(headers: &Vec<(String, String)>, name: &str) -> (r: Option<
    Fingerprint,
>)
    ensures
        print_view(r) == header_print(pairs_view(headers@), name@),
{
    match incoming_header(headers, name) {
        None => None,
        Some(v) => {
            let mut bytes: Vec<u8> = Vec::new();
            add_all(&mut bytes, v.as_bytes());
            proof {
                assert(bytes@ =~= encode_utf8(v@));
            }
            Some(sha256(&bytes))
        },
    }
}

impl UpstreamWebSocketAuthIdentity {
    pub fn from_headers(headers: &Vec<(String, String)>) -> (r: UpstreamWebSocketAuthIdentity)
        ensures
            print_view(r.authorization) == header_print(
                pairs_view(headers@),
                "authorization"@,
            ),
            print_view(r.account_id) == header_print(
                pairs_view(headers@),
                CHATGPT_ACCOUNT_ID_HEADER@,
            ),
    {
        UpstreamWebSocketAuthIdentity {
            authorization: websocket_header_fingerprint(headers, "authorization"),
            account_id: websocket_header_fingerprint(headers, CHATGPT_ACCOUNT_ID_HEADER),
        }
    }
}

/// The bytes of an optional digest.
pub open spec fn print_bytes(p: Option<Seq<u8>>) -> Seq<u8> {
    match p {
        Some(b) => seq![1u8] + b,
        None => seq![0u8],
    }
}

/// What identifies whose conversation it is: the route and its settings, the model, the logins.
pub open spec fn history_key(
    context_config: Seq<u8>,
    provider_id: Seq<char>,
    authorization: Option<Seq<u8>>,
    account_id: Option<Seq<u8>>,
    body: JsonV,
) -> Seq<u8> {
    sha256_of(
        context_config + with_length(encode_utf8(provider_id)) + with_length(
            encode_utf8(body.str_or_empty("model"@)),
        ) + print_bytes(authorization) + print_bytes(account_id),
    )
}

fn add_print(out: &mut Vec<u8>, p: &Option<Fingerprint>)
    ensures
        final(out)@ == old(out)@ + print_bytes(print_view(*p)),
{
    let ghost before = out@;
    match p {
        Some(f) => {
            out.push(1);
            add_all(out, f.bytes.as_slice());
        },
        None => {
            out.push(0);
        },
    }
    proof {
        assert(out@ =~= before + print_bytes(print_view(*p)));
    }
}

/// What identifies whose conversation it is.
pub fn native_history_key(
    route: &RouteTarget,
    auth: &UpstreamWebSocketAuthIdentity,
    body: &Json,
) -> (r: Fingerprint)
    ensures
        r@ == history_key(
            route.context_config@,
            route.provider_id@,
            print_view(auth.authorization),
            print_view(auth.account_id),
            body@,
        ),
{
    let mut bytes: Vec<u8> = Vec::new();
    add_all(&mut bytes, route.context_config.bytes.as_slice());
    proof {
        assert(bytes@ =~= route.context_config@);
    }
    add_text(&mut bytes, route.provider_id.as_str());
    add_text(&mut bytes, body.str_or_empty("model").as_str());
    add_print(&mut bytes, &auth.authorization);
    add_print(&mut bytes, &auth.account_id);
    sha256(&bytes)
}

/// The calls whose results are still to come, as they stand after some items. A call is told by
/// whether it is of a custom tool, and by its id.
pub open spec fn drop_call(calls: Seq<(bool, Seq<char>)>, call: (bool, Seq<char>)) -> Seq<
    (bool, Seq<char>),
>
    decreases calls.len(),
{
    if calls.len() == 0 {
        calls
    } else if calls.last() == call {
        drop_call(calls.drop_last(), call)
    } else {
        drop_call(calls.drop_last(), call).push(calls.last())
    }
}

/// One more item of a conversation.
pub open spec fn open_calls_step(calls: Seq<(bool, Seq<char>)>, item: JsonV, restoring: bool) -> Result<
    Seq<(bool, Seq<char>)>,
    FailureV,
> {
    let kind = item.str_or_empty("type"@);
    if restoring && (kind == "item_reference"@ || kind == "compaction"@ || kind
        == "compaction_trigger"@) {
        Err(FailureV::Text("历史包含无法在协议切换时展开的引用，请重新发送完整上下文"@))
    } else if restoring && kind == "reasoning"@ && item.str_or_empty("encrypted_content"@).len()
        == 0 {
        Err(FailureV::Text("推理历史缺少可恢复内容，请重新发送完整上下文"@))
    } else if kind == "function_call"@ || kind == "custom_tool_call"@ {
        match item.get_text("call_id"@) {
            None => Err(FailureV::Text("工具调用缺少 call_id，请重新发送完整上下文"@)),
            Some(id) => {
                let call = (kind == "custom_tool_call"@, id);
                if calls.contains(call) {
                    Err(FailureV::Text("历史中工具调用 ID 重复，请重新发送完整上下文"@))
                } else {
                    Ok(calls.push(call))
                }
            },
        }
    } else if kind == "function_call_output"@ || kind == "custom_tool_call_output"@ {
        let call = (kind == "custom_tool_call_output"@, item.str_or_empty("call_id"@));
        if calls.contains(call) {
            Ok(drop_call(calls, call))
        } else {
            Err(FailureV::Text("工具结果缺少对应的完整调用历史，请重新发送完整上下文"@))
        }
    } else {
        Ok(calls)
    }
}

/// The calls whose results are still to come after the first items, or what is wrong with those.
pub open spec fn open_calls(items: Seq<JsonV>, restoring: bool, n: int) -> Result<
    Seq<(bool, Seq<char>)>,
    FailureV,
>
    decreases n,
{
    if n <= 0 {
        Ok(Seq::empty())
    } else {
        match open_calls(items, restoring, n - 1) {
            Err(e) => Err(e),
            Ok(calls) => open_calls_step(calls, items[n - 1], restoring),
        }
    }
}

/// What is wrong with a conversation, if anything is: every result of a tool must follow its
/// call, and what is restored must be readable in full.
pub open spec fn tool_history_check(items: Seq<JsonV>, restoring: bool) -> Result<(), FailureV> {
    match open_calls(items, restoring, items.len() as int) {
        Ok(_) => Ok(()),
        Err(e) => Err(e),
    }
}

proof fn lemma_history_error_stays(items: Seq<JsonV>, restoring: bool, n: int, m: int)
    requires
        0 <= n <= m,
        open_calls(items, restoring, n) is Err,
    ensures
        open_calls(items, restoring, m) == open_calls(items, restoring, n),
    decreases m - n,
{
    if n < m {
        lemma_history_error_stays(items, restoring, n, m - 1);
    }
}

pub open spec fn call_list(calls: Seq<(bool, String)>) -> Seq<(bool, Seq<char>)> {
    Seq::new(calls.len(), |i: int| (calls[i].0, calls[i].1@))
}

fn has_call(calls: &Vec<(bool, String)>, custom: bool, id: &str) -> (r: bool)
    ensures
        r == call_list(calls@).contains((custom, id@)),
{
    let mut i: usize = 0;
    while i < calls.len()
        invariant
            i <= calls.len(),
            forall|j: int| 0 <= j < i ==> #[trigger] call_list(calls@)[j] != (custom, id@),
        decreases calls.len() - i,
    {
        if calls[i].0 == custom && str_eq(calls[i].1.as_str(), id) {
            proof {
                assert(call_list(calls@)[i as int] == (custom, id@));
            }
            return true;
        }
        i = i + 1;
    }
    false
}

fn without_call(calls: Vec<(bool, String)>, custom: bool, id: &str) -> (r: Vec<(bool, String)>)
    ensures
        call_list(r@) == drop_call(call_list(calls@), (custom, id@)),
{
    let ghost all = call_list(calls@);
    let mut out: Vec<(bool, String)> = Vec::new();
    let mut i: usize = 0;
    proof {
        assert(call_list(out@) =~= drop_call(all.subrange(0, 0), (custom, id@)));
    }
    while i < calls.len()
        invariant
            i <= calls.len(),
            all == call_list(calls@),
            call_list(out@) == drop_call(all.subrange(0, i as int), (custom, id@)),
        decreases calls.len() - i,
    {
        proof {
            assert(all.subrange(0, i + 1).drop_last() =~= all.subrange(0, i as int));
            assert(all.subrange(0, i + 1).last() == (calls@[i as int].0, calls@[i as int].1@));
        }
        if !(calls[i].0 == custom && str_eq(calls[i].1.as_str(), id)) {
            let ghost before = out@;
            out.push((calls[i].0, calls[i].1.clone()));
            proof {
                assert(call_list(out@) =~= call_list(before).push(all[i as int]));
            }
        }
        i = i + 1;
    }
    proof {
        assert(all.subrange(0, i as int) =~= all);
    }
    out
}

fn check_item(calls: Vec<(bool, String)>, item: &Json, restoring: bool) -> (r: Result<
    Vec<(bool, String)>,
    Failure,
>)
    ensures
        match r {
            Ok(c) => open_calls_step(call_list(calls@), item@, restoring) == Ok::<
                Seq<(bool, Seq<char>)>,
                FailureV,
            >(call_list(c@)),
            Err(e) => open_calls_step(call_list(calls@), item@, restoring) == Err::<
                Seq<(bool, Seq<char>)>,
                FailureV,
            >(e@),
        },
{
    let kind_text = item.str_or_empty("type");
    let kind = kind_text.as_str();
    if restoring && (str_eq(kind, "item_reference") || str_eq(kind, "compaction") || str_eq(
        kind,
        "compaction_trigger",
    )) {
        return Err(fail("历史包含无法在协议切换时展开的引用，请重新发送完整上下文"));
    }
    if restoring && str_eq(kind, "reasoning") && item.str_or_empty(
        "encrypted_content",
    ).as_str().is_empty() {
        return Err(fail("推理历史缺少可恢复内容，请重新发送完整上下文"));
    }
    let custom_call = str_eq(kind, "custom_tool_call");
    if custom_call || str_eq(kind, "function_call") {
        let id = match item.get_text("call_id") {
            Some(id) => id,
            None => {
                return Err(fail("工具调用缺少 call_id，请重新发送完整上下文"));
            },
        };
        if has_call(&calls, custom_call, id) {
            return Err(fail("历史中工具调用 ID 重复，请重新发送完整上下文"));
        }
        let mut out = calls;
        let ghost before = out@;
        out.push((custom_call, id.to_owned()));
        proof {
            assert(call_list(out@) =~= call_list(before).push((custom_call, id@)));
        }
        return Ok(out);
    }
    let custom_result = str_eq(kind, "custom_tool_call_output");
    if custom_result || str_eq(kind, "function_call_output") {
        let id = item.str_or_empty("call_id");
        if has_call(&calls, custom_result, id.as_str()) {
            return Ok(without_call(calls, custom_result, id.as_str()));
        }
        return Err(fail("工具结果缺少对应的完整调用历史，请重新发送完整上下文"));
    }
    Ok(calls)
}

/// Checks the tool calls and results of a conversation.
pub fn validate_native_tool_history(items: &Vec<Json>, restoring: bool) -> (r: Result<(), Failure>)
    ensures
        done_view(r) == tool_history_check(views(items@), restoring),
{
    let ghost all = views(items@);
    let mut calls: Vec<(bool, String)> = Vec::new();
    let mut i: usize = 0;
    proof {
        assert(call_list(calls@) =~= Seq::<(bool, Seq<char>)>::empty());
    }
    while i < items.len()
        invariant
            i <= items.len(),
            all == views(items@),
            open_calls(all, restoring, i as int) == Ok::<Seq<(bool, Seq<char>)>, FailureV>(
                call_list(calls@),
            ),
        decreases items.len() - i,
    {
        proof {
            assert(all[i as int] == items@[i as int]@);
        }
        match check_item(calls, &items[i], restoring) {
            Err(e) => {
                proof {
                    lemma_history_error_stays(all, restoring, i + 1, items.len() as int);
                }
                return Err(e);
            },
            Ok(next) => {
                calls = next;
            },
        }
        i = i + 1;
    }
    Ok(())
}

/// The item is a call of the kind, with the id.
pub open spec fn is_call(item: JsonV, custom: bool, id: Seq<char>) -> bool {
    &&& item.str_or_empty("type"@) == if custom {
        "custom_tool_call"@
    } else {
        "function_call"@
    }
    &&& item.get_text("call_id"@) == Some(id)
}

proof fn lemma_open_calls_were_made(items: Seq<JsonV>, restoring: bool, n: int, call: (bool, Seq<char>))
    requires
        0 <= n <= items.len(),
        open_calls(items, restoring, n) matches Ok(c) && c.contains(call),
    ensures
        exists|i: int| 0 <= i < n && is_call(#[trigger] items[i], call.0, call.1),
    decreases n,
{
    if n > 0 {
        let before = open_calls(items, restoring, n - 1)->Ok_0;
        let item = items[n - 1];
        let kind = item.str_or_empty("type"@);
        let after = open_calls(items, restoring, n)->Ok_0;
        if before.contains(call) {
            lemma_open_calls_were_made(items, restoring, n - 1, call);
            let i = choose|i: int| 0 <= i < n - 1 && is_call(#[trigger] items[i], call.0, call.1);
            assert(is_call(items[i], call.0, call.1));
        } else if kind == "function_call"@ || kind == "custom_tool_call"@ {
            let k = choose|k: int| 0 <= k < after.len() && after[k] == call;
            if k < before.len() {
                assert(before[k] == call);
            }
            assert(is_call(items[n - 1], call.0, call.1));
        } else if kind == "function_call_output"@ || kind == "custom_tool_call_output"@ {
            let done = (kind == "custom_tool_call_output"@, item.str_or_empty("call_id"@));
            lemma_drop_keeps(before, done, call);
        }
    }
}

proof fn lemma_drop_keeps(calls: Seq<(bool, Seq<char>)>, gone: (bool, Seq<char>), call: (bool, Seq<char>))
    requires
        drop_call(calls, gone).contains(call),
    ensures
        calls.contains(call),
    decreases calls.len(),
{
    if calls.len() > 0 {
        let rest = drop_call(calls.drop_last(), gone);
        let after = drop_call(calls, gone);
        let k = choose|k: int| 0 <= k < after.len() && after[k] == call;
        if calls.last() != gone && k == rest.len() {
            assert(calls[calls.len() - 1] == call);
        } else {
            assert(rest[k] == call);
            lemma_drop_keeps(calls.drop_last(), gone, call);
            let m = choose|m: int|
                0 <= m < calls.drop_last().len() && calls.drop_last()[m] == call;
            assert(calls[m] == call);
        }
    }
}

/// In a conversation that passes, every result of a tool follows the call that it answers.
pub proof fn every_result_follows_its_call(items: Seq<JsonV>, restoring: bool, j: int)
    requires
        tool_history_check(items, restoring) is Ok,
        0 <= j < items.len(),
        items[j].str_or_empty("type"@) == "function_call_output"@,
    ensures
        exists|i: int|
            0 <= i < j && is_call(
                #[trigger] items[i],
                false,
                items[j].str_or_empty("call_id"@),
            ),
{
    let id = items[j].str_or_empty("call_id"@);
    if open_calls(items, restoring, j + 1) is Err {
        lemma_history_error_stays(items, restoring, j + 1, items.len() as int);
    }
    reveal_strlit("function_call_output");
    reveal_strlit("custom_tool_call_output");
    reveal_strlit("function_call");
    reveal_strlit("custom_tool_call");
    assert("function_call_output"@.len() == 20);
    assert("custom_tool_call_output"@.len() == 23);
    assert("function_call"@.len() == 13);
    assert("custom_tool_call"@.len() == 16);
    lemma_open_calls_were_made(items, restoring, j, (false, id));
}

/// The conversation on a socket to a native upstream, and whose it is.
pub struct NativeResponsesHistory {
    pub owner: Option<Fingerprint>,
    pub history: AdaptedResponsesHistory,
    /// Why the conversation cannot be restored.
    pub unavailable: Option<String>,
}

#[verifier::ext_equal]
pub struct NativeV {
    pub owner: Option<Seq<u8>>,
    pub history: HistoryV,
    pub unavailable: Option<FailureV>,
}

impl View for NativeResponsesHistory {
    type V = NativeV;

    open spec fn view(&self) -> NativeV {
        NativeV {
            owner: print_view(self.owner),
            history: self.history@,
            unavailable: match self.unavailable {
                Some(words) => Some(FailureV::Text(words@)),
                None => None,
            },
        }
    }
}

/// A request is noted. Another owner starts anew. What cannot be restored is only noted as such: a
/// healthy socket goes on.
pub open spec fn native_prepared(state: NativeV, owner: Seq<u8>, body: JsonV) -> NativeV {
    let history = if state.owner == Some(owner) {
        state.history
    } else {
        HistoryV { last: None, pending: None }
    };
    match native_context(history, body) {
        Ok(context) => NativeV {
            owner: Some(owner),
            history: HistoryV { pending: Some(context), ..history },
            unavailable: None,
        },
        Err(e) => NativeV {
            owner: Some(owner),
            history: HistoryV { pending: None, ..history },
            unavailable: Some(e),
        },
    }
}

/// The body with the whole conversation, for an upstream that does not know it. A body that goes
/// on from nothing stays as it is.
pub open spec fn restored(state: NativeV, owner: Seq<u8>, body: JsonV) -> Result<
    Option<JsonV>,
    FailureV,
> {
    if body.get_str("previous_response_id"@) is None {
        match body.get_array("input"@) {
            Some(input) => match tool_history_check(input, false) {
                Ok(()) => Ok(None),
                Err(e) => Err(e),
            },
            None => Ok(None),
        }
    } else if state.owner != Some(owner) {
        Err(FailureV::Text("上游身份已变化，无法安全恢复续接历史；请重新发送完整上下文"@))
    } else {
        match (state.unavailable, state.history.pending) {
            (Some(FailureV::Text(reason)), _) => Err(
                FailureV::Text("无法恢复原生续接历史："@ + reason + "；请重新发送完整上下文"@),
            ),
            (_, None) => Err(FailureV::Text("缺少完整续接历史，请重新发送完整上下文"@)),
            (_, Some(context)) => match tool_history_check(context, true) {
                Err(e) => Err(e),
                Ok(()) => Ok(
                    Some(
                        body.with("input"@, JsonV::Array(context)).without(
                            "previous_response_id"@,
                        ),
                    ),
                ),
            },
        }
    }
}

/// The event ends a response.
pub open spec fn ends_response(event: JsonV) -> bool {
    let kind = event.get_str("type"@);
    ||| kind == Some("response.completed"@)
    ||| kind == Some("response.failed"@)
    ||| kind == Some("response.incomplete"@)
    ||| kind == Some("error"@)
}

/// Whether an event ends a response.
pub fn responses_event_is_terminal(event: &Json) -> (r: bool)
    ensures
        r == ends_response(event@),
{
    match event.get_str("type") {
        Some(t) => str_eq(t, "response.completed") || str_eq(t, "response.failed") || str_eq(
            t,
            "response.incomplete",
        ) || str_eq(t, "error"),
        None => false,
    }
}

/// The id and the output of a response that has come to a good end.
pub open spec fn completed_output(event: JsonV) -> Option<(Seq<char>, Seq<JsonV>)> {
    let response = event.at("response"@);
    let status = response.get_str("status"@);
    let complete = event.get_str("type"@) == Some("response.completed"@) && (status is None
        || status == Some("completed"@));
    match (response.get_text("id"@), response.get_array("output"@)) {
        (Some(id), Some(output)) => if complete && byte_len(id) <= 1024 {
            Some((id, output))
        } else {
            None
        },
        _ => None,
    }
}

/// An event of the upstream. The end of a response is the end of the request; a good one is kept.
pub open spec fn native_observed(state: NativeV, event: JsonV) -> NativeV {
    if state.history.pending is None || !ends_response(event) {
        state
    } else {
        match completed_output(event) {
            Some((id, output)) => NativeV {
                history: after_response(state.history, id, output),
                unavailable: None,
                ..state
            },
            None => NativeV {
                history: HistoryV { pending: None, ..state.history },
                ..state
            },
        }
    }
}

impl NativeResponsesHistory {
    pub fn new() -> (r: NativeResponsesHistory)
        ensures
            r@ == (NativeV {
                owner: None,
                history: HistoryV { last: None, pending: None },
                unavailable: None,
            }),
    {
        NativeResponsesHistory {
            owner: None,
            history: AdaptedResponsesHistory::new(),
            unavailable: None,
        }
    }

    pub fn has_history(&self) -> (r: bool)
        ensures
            r == (self@.history.last is Some),
    {
        self.history.last.is_some()
    }

    pub fn clear_pending(&mut self)
        ensures
            final(self)@ == (NativeV {
                history: HistoryV { pending: None, ..old(self)@.history },
                ..old(self)@
            }),
    {
        self.history.clear_pending();
    }

    fn is_owned_by(&self, owner: &Fingerprint) -> (r: bool)
        ensures
            r == (self@.owner == Some(owner@)),
    {
        match &self.owner {
            Some(o) => o.same(owner),
            None => false,
        }
    }

    /// Notes a request.
    pub fn prepare(&mut self, owner: &Fingerprint, body: &Json)
        ensures
            final(self)@ == native_prepared(old(self)@, owner@, body@),
    {
        if !self.is_owned_by(owner) {
            self.history = AdaptedResponsesHistory::new();
            self.owner = Some(owner.copy());
        }
        match self.history.stage_native(body) {
            Ok(()) => {
                self.unavailable = None;
            },
            Err(Failure::Text(words)) => {
                self.unavailable = Some(words);
            },
            Err(Failure::ContextLength) => {
                self.unavailable = None;
            },
        }
    }

    /// Puts the whole conversation into a body that goes on from a response. Says whether it did.
    /// A body that cannot be restored is left as it was.
    pub fn restore(&self, owner: &Fingerprint, body: &mut Json) -> (r: Result<bool, Failure>)
        ensures
            match r {
                Ok(true) => restored(self@, owner@, old(body)@) == Ok::<Option<JsonV>, FailureV>(
                    Some(final(body)@),
                ),
                Ok(false) => restored(self@, owner@, old(body)@) == Ok::<Option<JsonV>, FailureV>(
                    None,
                ) && final(body)@ == old(body)@,
                Err(e) => restored(self@, owner@, old(body)@) == Err::<Option<JsonV>, FailureV>(e@)
                    && final(body)@ == old(body)@,
            },
    {
        if body.get_str("previous_response_id").is_none() {
            if let Some(input) = body.get_array("input") {
                if let Err(e) = validate_native_tool_history(input, false) {
                    return Err(e);
                }
            }
            return Ok(false);
        }
        if !self.is_owned_by(owner) {
            return Err(fail("上游身份已变化，无法安全恢复续接历史；请重新发送完整上下文"));
        }
        if let Some(reason) = &self.unavailable {
            return Err(
                Failure::Text(
                    cat3("无法恢复原生续接历史：", reason.as_str(), "；请重新发送完整上下文"),
                ),
            );
        }
        let context = match &self.history.pending_input {
            Some(items) => items,
            None => {
                return Err(fail("缺少完整续接历史，请重新发送完整上下文"));
            },
        };
        if let Err(e) = validate_native_tool_history(context, true) {
            return Err(e);
        }
        body.insert("input", Json::array(copy_items(context)));
        let _ = body.remove("previous_response_id");
        Ok(true)
    }

    /// Takes in an event of the upstream.
    pub fn observe(&mut self, event: &Json)
        ensures
            final(self)@ == native_observed(old(self)@, event@),
    {
        if self.history.pending_input.is_none() || !responses_event_is_terminal(event) {
            return ;
        }
        let mut good = false;
        if let Some(kind) = event.get_str("type") {
            if str_eq(kind, "response.completed") {
                if let Some(response) = event.get("response") {
                    let complete = match response.get_str("status") {
                        Some(s) => str_eq(s, "completed"),
                        None => true,
                    };
                    if complete {
                        if let Some(id) = response.get_text("id") {
                            if text_byte_len(id) <= 1024 {
                                if let Some(output) = response.get_array("output") {
                                    self.history.remember(id, output);
                                    self.unavailable = None;
                                    good = true;
                                }
                            }
                        }
                    }
                }
            }
        }
        self.history.clear_pending();
        proof {
            if !good {
                assert(completed_output(event@) is None);
            }
        }
    }
}

/// A conversation is restored only for the one whose it is.
pub proof fn only_the_owner_restores(state: NativeV, owner: Seq<u8>, body: JsonV)
    requires
        restored(state, owner, body) matches Ok(b) && b is Some,
    ensures
        state.owner == Some(owner),
        tool_history_check(state.history.pending->0, true) is Ok,
{
}

proof fn lemma_history_names()
    ensures
        "input"@.len() == 5,
        "previous_response_id"@.len() == 20,
        "item_reference"@.len() == 14,
        "compaction"@.len() == 10,
        "compaction_trigger"@.len() == 18,
        "reasoning"@.len() == 9,
        "function_call"@.len() == 13,
        "custom_tool_call"@.len() == 16,
        "function_call_output"@.len() == 20,
        "custom_tool_call_output"@.len() == 23,
        "response.completed"@.len() == 18,
        "response.failed"@.len() == 15,
        "response.incomplete"@.len() == 19,
        "error"@.len() == 5,
{
    reveal_strlit("input");
    reveal_strlit("previous_response_id");
    reveal_strlit("item_reference");
    reveal_strlit("compaction");
    reveal_strlit("compaction_trigger");
    reveal_strlit("reasoning");
    reveal_strlit("function_call");
    reveal_strlit("custom_tool_call");
    reveal_strlit("function_call_output");
    reveal_strlit("custom_tool_call_output");
    reveal_strlit("response.completed");
    reveal_strlit("response.failed");
    reveal_strlit("response.incomplete");
    reveal_strlit("error");
}

/// The body sends these items and goes on from no response.
pub open spec fn starts_with_items(body: JsonV, items: Seq<JsonV>) -> bool {
    &&& body is Object
    &&& body.get("input"@) == Some(JsonV::Array(items))
    &&& body.get("previous_response_id"@) is None
}

/// The body sends these items and goes on from this response.
pub open spec fn goes_on_with_items(body: JsonV, id: Seq<char>, items: Seq<JsonV>) -> bool {
    &&& body is Object
    &&& body.get("input"@) == Some(JsonV::Array(items))
    &&& body.get("previous_response_id"@) is Some && (body.get(
        "previous_response_id"@,
    )->0 matches JsonV::Str(s) && trim(s) == id)
}

/// The body holds the whole conversation: all of its items, no response to go on from, and everything
/// else as it was sent.
pub open spec fn holds_conversation(
    body: JsonV,
    sent: JsonV,
    items: Seq<JsonV>,
    key: Seq<char>,
) -> bool {
    &&& body.get("input"@) == Some(JsonV::Array(items))
    &&& body.get("previous_response_id"@) is None
    &&& key != "input"@ && key != "previous_response_id"@ ==> body.get(key) == sent.get(key)
}

/// On an adapted route a request that goes on from the router's last response is sent with the whole
/// conversation: what was sent at first, what was answered, and what is sent now.
pub proof fn an_adapted_conversation_goes_on(
    history: HistoryV,
    first: JsonV,
    sent: Seq<JsonV>,
    id: Seq<char>,
    answer: Seq<JsonV>,
    next: JsonV,
    more: Seq<JsonV>,
    key: Seq<char>,
)
    requires
        starts_with_items(first, sent),
        is_own_response_id(id),
        goes_on_with_items(next, id, more),
    ensures
        ({
            let asked = HistoryV { pending: adapted_context(history, first), ..history };
            let answered = after_response(asked, id, answer);
            let context = adapted_context(answered, next);
            &&& context is Some
            &&& holds_conversation(expanded(next, context->0), next, sent + answer + more, key)
        }),
{
    lemma_history_names();
}

/// A response that is not the router's own last one cannot be gone on from on an adapted route.
pub proof fn a_foreign_response_is_not_gone_on_from(
    history: HistoryV,
    id: Seq<char>,
    next: JsonV,
    more: Seq<JsonV>,
)
    requires
        goes_on_with_items(next, id, more),
        !is_own_response_id(id) || history.last is None || (history.last->0).0 != id,
    ensures
        adapted_context(history, next) is None,
{
}

/// The event says that this response has come to a good end with this output.
pub open spec fn completes(event: JsonV, id: Seq<char>, output: Seq<JsonV>) -> bool {
    &&& event.get("type"@) == Some(JsonV::Str("response.completed"@))
    &&& event.get2("response"@, "id"@) == Some(JsonV::Str(id))
    &&& id.len() > 0 && byte_len(id) <= 1024
    &&& event.get2("response"@, "output"@) == Some(JsonV::Array(output))
    &&& event.get2("response"@, "status"@) is None || event.get2("response"@, "status"@) == Some(
        JsonV::Str("completed"@),
    )
}

/// On a native route a request that goes on from the last response can be sent anew with the whole
/// conversation, for the one whose it is and for no one else.
pub proof fn a_native_conversation_is_restored(
    state: NativeV,
    owner: Seq<u8>,
    other: Seq<u8>,
    first: JsonV,
    sent: Seq<JsonV>,
    event: JsonV,
    id: Seq<char>,
    answer: Seq<JsonV>,
    next: JsonV,
    more: Seq<JsonV>,
    key: Seq<char>,
)
    requires
        starts_with_items(first, sent),
        completes(event, id, answer),
        goes_on_with_items(next, id, more),
        tool_history_check(sent + answer + more, true) is Ok,
        other != owner,
    ensures
        ({
            let asked = native_prepared(state, owner, first);
            let answered = native_observed(asked, event);
            let ready = native_prepared(answered, owner, next);
            let body = restored(ready, owner, next);
            &&& body is Ok && body->Ok_0 is Some
            &&& holds_conversation(body->Ok_0->0, next, sent + answer + more, key)
            &&& restored(ready, other, next) is Err
        }),
{
    lemma_history_names();
    let asked = native_prepared(state, owner, first);
    assert(asked.history.pending == Some(sent));
    assert(event.at("response"@).get("id"@) == event.get2("response"@, "id"@));
    assert(event.at("response"@).get("output"@) == event.get2("response"@, "output"@));
    assert(event.at("response"@).get("status"@) == event.get2("response"@, "status"@));
    assert(completed_output(event) == Some((id, answer)));
    let answered = native_observed(asked, event);
    assert(answered.history.last == Some((id, sent + answer)));
}

/// A response that did not come to a good end leaves no trace: what could be gone on from before can
/// be gone on from still, and nothing else.
pub proof fn a_failed_response_is_not_kept(state: NativeV, event: JsonV)
    requires
        event.get("type"@) != Some(JsonV::Str("response.completed"@)),
    ensures
        native_observed(state, event).history.last == state.history.last,
        native_observed(state, event).owner == state.owner,
        event.get("type"@) == Some(JsonV::Str("response.failed"@)) || event.get("type"@) == Some(
            JsonV::Str("response.incomplete"@),
        ) || event.get("type"@) == Some(JsonV::Str("error"@)) ==> native_observed(
            state,
            event,
        ).history.pending is None,
{
    lemma_history_names();
}

/// The item is neither a tool's nor one that only its upstream can read.
pub open spec fn is_plain_item(item: JsonV) -> bool {
    item.get("type"@) is Some ==> (item.get("type"@)->0 matches JsonV::Str(kind) ==> kind
        != "item_reference"@ && kind != "compaction"@ && kind != "compaction_trigger"@ && kind
        != "reasoning"@ && kind != "function_call"@ && kind != "custom_tool_call"@ && kind
        != "function_call_output"@ && kind != "custom_tool_call_output"@)
}

/// Plain items stand in nobody's way: a conversation passes with them where it passes without.
pub proof fn plain_items_pass(items: Seq<JsonV>, more: Seq<JsonV>, restoring: bool)
    requires
        tool_history_check(items, restoring) is Ok,
        forall|i: int| 0 <= i < more.len() ==> is_plain_item(#[trigger] more[i]),
    ensures
        tool_history_check(items + more, restoring) is Ok,
{
    let n = items.len() as int;
    lemma_open_calls_prefix(items, more, restoring, n);
    lemma_plain_rest(items + more, restoring, n, n + more.len());
}

proof fn lemma_open_calls_prefix(items: Seq<JsonV>, more: Seq<JsonV>, restoring: bool, n: int)
    requires
        0 <= n <= items.len(),
    ensures
        open_calls(items + more, restoring, n) == open_calls(items, restoring, n),
    decreases n,
{
    if n > 0 {
        lemma_open_calls_prefix(items, more, restoring, n - 1);
        assert((items + more)[n - 1] == items[n - 1]);
    }
}

proof fn lemma_plain_rest(items: Seq<JsonV>, restoring: bool, n: int, m: int)
    requires
        0 <= n <= m <= items.len(),
        open_calls(items, restoring, n) is Ok,
        forall|i: int| n <= i < m ==> is_plain_item(#[trigger] items[i]),
    ensures
        open_calls(items, restoring, m) == open_calls(items, restoring, n),
    decreases m - n,
{
    lemma_history_names();
    if n < m {
        lemma_plain_rest(items, restoring, n, m - 1);
        assert(is_plain_item(items[m - 1]));
    }
}

/// What only its upstream can read is not restored: a conversation with a reference, a compaction, or
/// reasoning without its content does not pass.
pub proof fn what_only_the_upstream_reads_is_not_restored(items: Seq<JsonV>, i: int)
    requires
        0 <= i < items.len(),
        items[i].get("type"@) == Some(JsonV::Str("item_reference"@)) || items[i].get("type"@)
            == Some(JsonV::Str("compaction"@)) || items[i].get("type"@) == Some(
            JsonV::Str("compaction_trigger"@),
        ) || (items[i].get("type"@) == Some(JsonV::Str("reasoning"@)) && items[i].get(
            "encrypted_content"@,
        ) is None),
    ensures
        tool_history_check(items, true) is Err,
{
    lemma_history_names();
    assert(open_calls(items, true, i + 1) is Err);
    lemma_history_error_stays(items, true, i + 1, items.len() as int);
}

/// A call and its result pass, one after the other, where the call is not open already; and then the
/// same calls are open as before.
pub proof fn an_answered_call_passes(
    items: Seq<JsonV>,
    call: JsonV,
    result: JsonV,
    custom: bool,
    id: Seq<char>,
    restoring: bool,
)
    requires
        open_calls(items, restoring, items.len() as int) is Ok,
        !open_calls(items, restoring, items.len() as int)->Ok_0.contains((custom, id)),
        is_call(call, custom, id),
        result.get("type"@) == Some(
            JsonV::Str(
                if custom {
                    "custom_tool_call_output"@
                } else {
                    "function_call_output"@
                },
            ),
        ),
        result.get("call_id"@) == Some(JsonV::Str(id)),
    ensures
        open_calls(
            items.push(call).push(result),
            restoring,
            items.push(call).push(result).len() as int,
        ) == open_calls(items, restoring, items.len() as int),
{
    lemma_history_names();
    let all = items.push(call).push(result);
    let n = items.len() as int;
    assert(all =~= items + seq![call, result]);
    lemma_open_calls_prefix(items, seq![call, result], restoring, n);
    let calls = open_calls(items, restoring, n)->Ok_0;
    assert(all[n] == call && all[n + 1] == result);
    assert(open_calls(all, restoring, n + 1) == Ok::<Seq<(bool, Seq<char>)>, FailureV>(
        calls.push((custom, id)),
    ));
    let opened = calls.push((custom, id));
    assert(opened[calls.len() as int] == (custom, id));
    assert(opened.drop_last() =~= calls);
    lemma_nothing_to_drop(calls, (custom, id));
}

proof fn lemma_nothing_to_drop(calls: Seq<(bool, Seq<char>)>, call: (bool, Seq<char>))
    requires
        !calls.contains(call),
    ensures
        drop_call(calls, call) == calls,
    decreases calls.len(),
{
    if calls.len() > 0 {
        let rest = calls.drop_last();
        if rest.contains(call) {
            let i = choose|i: int| 0 <= i < rest.len() && rest[i] == call;
            assert(calls[i] == call);
        }
        if calls.last() == call {
            assert(calls[calls.len() - 1] == call);
        }
        lemma_nothing_to_drop(rest, call);
        assert(rest.push(calls.last()) =~= calls);
    }
}

} // verus!
