//! Chat Completions: whole completions and completion streams, as Responses documents.
use crate::ids::{fresh_id, fresh_ids, has_form};
use crate::json::{
    Json, JsonV, json_text, opt_view, own_view, owned, string_view, views, views_push,
};
use crate::local_router::adapt::{
    StreamAction, StreamActionV, ToolCall, ToolCallV, actions_push, actions_view, add_capped,
    calls_push, calls_view, capped_sum, incomplete_details, make_output_text, make_refusal,
    make_response_document, make_response_output, make_usage_document, output_text, refusal_part,
    response_document, response_output, usage_document,
};
use crate::local_router::errors::{
    Failure, FailureV, context_length_error, done_view, error_code_places, fail, fail_with,
    first_string, is_context_length_error, json_result,
};
use crate::local_router::sse::{
    SseFrameAccumulator, drive_all, json_frame, parse_sse_frames, sse_json_frame,
};
use crate::slots::{Slots, put, put_fills_one_slot, rising, slot, take_then_put};
use crate::text::{
    cat3, head, join, joined, listed, str_eq, texts, texts_push, trim, trimmed, words,
};
use vstd::prelude::*;
use vstd::string::*;

verus! {

/// A value as the text that the chat protocol wants: a string as it is, null as nothing, any other
/// value as its document.
pub open spec fn chat_string(value: Option<JsonV>) -> Option<Seq<char>> {
    match value {
        None => None,
        Some(JsonV::Null) => None,
        Some(JsonV::Str(s)) => Some(s),
        Some(v) => Some(json_text(v)),
    }
}

pub fn json_value_as_chat_string(value: Option<&Json>) -> (r: Option<String>)
    ensures
        string_view(r) == chat_string(opt_view(value)),
{
    match value {
        None => None,
        Some(v) => if v.is_null() {
            None
        } else {
            match v.as_str() {
                Some(s) => Some(s.to_owned()),
                None => Some(v.to_text()),
            }
        },
    }
}

pub open spec fn text_or_empty(value: Option<Seq<char>>) -> Seq<char> {
    match value {
        Some(s) => s,
        None => Seq::empty(),
    }
}

/// The text in one part of a message's content.
pub open spec fn part_text(part: JsonV) -> Option<Seq<char>> {
    match part.get_either("text"@, "content"@) {
        Some(JsonV::Str(s)) => Some(s),
        _ => None,
    }
}

/// The texts in the parts of a message's content.
pub open spec fn part_texts(parts: Seq<JsonV>) -> Seq<Seq<char>>
    decreases parts.len(),
{
    if parts.len() == 0 {
        Seq::empty()
    } else {
        let rest = part_texts(parts.drop_last());
        match part_text(parts.last()) {
            Some(s) => rest.push(s),
            None => rest,
        }
    }
}

/// The text of a message's content.
pub open spec fn content_text(content: JsonV) -> Seq<char> {
    match content {
        JsonV::Str(s) => s,
        JsonV::Array(parts) => joined(part_texts(parts), "\n"@),
        _ => Seq::empty(),
    }
}

pub fn chat_message_content_text(content: &Json) -> (r: String)
    ensures
        r@ == content_text(content@),
{
    if let Some(s) = content.as_str() {
        return s.to_owned();
    }
    match content.as_array() {
        None => String::new(),
        Some(parts) => {
            let ghost all = views(parts@);
            let mut out: Vec<String> = Vec::new();
            let mut i: usize = 0;
            proof {
                assert(texts(out@) =~= Seq::<Seq<char>>::empty());
            }
            while i < parts.len()
                invariant
                    i <= parts.len(),
                    all == views(parts@),
                    texts(out@) == part_texts(all.subrange(0, i as int)),
                decreases parts.len() - i,
            {
                proof {
                    assert(all.subrange(0, i + 1).drop_last() =~= all.subrange(0, i as int));
                    assert(all.subrange(0, i + 1).last() == parts@[i as int]@);
                }
                if let Some(v) = parts[i].get_either("text", "content") {
                    if let Some(s) = v.as_str() {
                        let piece = s.to_owned();
                        proof {
                            texts_push(out@, piece);
                        }
                        out.push(piece);
                    }
                }
                i = i + 1;
            }
            proof {
                assert(all.subrange(0, i as int) =~= all);
            }
            join(&out, "\n")
        },
    }
}

/// The annotations of a message: an array, or none.
pub open spec fn annotations_of(message: JsonV) -> JsonV {
    match message.get("annotations"@) {
        Some(JsonV::Array(a)) => JsonV::Array(a),
        _ => JsonV::Array(Seq::empty()),
    }
}

pub fn chat_message_annotations(message: &Json) -> (r: Json)
    ensures
        r@ == annotations_of(message@),
{
    if let Some(v) = message.get("annotations") {
        if v.as_array().is_some() {
            return v.clone_json();
        }
    }
    let none: Vec<Json> = Vec::new();
    proof {
        assert(views(none@) =~= Seq::<JsonV>::empty());
    }
    Json::array(none)
}

/// What the first choice of a completion comes to.
#[derive(Debug)]
pub struct ChatParts {
    pub text: String,
    pub refusal: String,
    pub annotations: Json,
    pub calls: Vec<ToolCall>,
    pub finish_reason: Option<String>,
}

pub struct ChatPartsV {
    pub text: Seq<char>,
    pub refusal: Seq<char>,
    pub annotations: JsonV,
    pub calls: Seq<ToolCallV>,
    pub finish_reason: Option<Seq<char>>,
}

impl View for ChatParts {
    type V = ChatPartsV;

    open spec fn view(&self) -> ChatPartsV {
        ChatPartsV {
            text: self.text@,
            refusal: self.refusal@,
            annotations: self.annotations@,
            calls: calls_view(self.calls@),
            finish_reason: string_view(self.finish_reason),
        }
    }
}

pub open spec fn chat_parts_result(r: Result<ChatParts, Failure>) -> Result<ChatPartsV, FailureV> {
    match r {
        Ok(p) => Ok(p@),
        Err(e) => Err(e@),
    }
}

/// The arguments of a call: an empty object where there are none.
pub open spec fn call_arguments(function: JsonV) -> Seq<char> {
    match chat_string(function.get("arguments"@)) {
        Some(s) => s,
        None => "{}"@,
    }
}

fn arguments_of_call(function: &Json) -> (r: String)
    ensures
        r@ == call_arguments(function@),
{
    match json_value_as_chat_string(function.get("arguments")) {
        Some(s) => s,
        None => "{}".to_owned(),
    }
}

/// One tool call of a completion.
pub open spec fn chat_call(call: JsonV) -> Result<ToolCallV, FailureV> {
    let kind = match call.get_str("type"@) {
        Some(t) => t,
        None => "function"@,
    };
    if !call.is_object() {
        Err(FailureV::Text("Chat tool_call 必须是对象"@))
    } else if kind != "function"@ {
        Err(FailureV::Text("Chat tool_call 类型 "@ + kind + " 不能转换为 Responses item"@))
    } else {
        match call.get_object("function"@) {
            None => Err(FailureV::Text("Chat tool_call 缺少 function"@)),
            Some(function) => match function.get_text("name"@) {
                None => Err(FailureV::Text("Chat tool_call.function 缺少 name"@)),
                Some(name) => Ok(
                    ToolCallV {
                        call_id: call.get_text("id"@),
                        name,
                        arguments: call_arguments(function),
                    },
                ),
            },
        }
    }
}

fn read_chat_call(call: &Json) -> (r: Result<ToolCall, Failure>)
    ensures
        match r {
            Ok(c) => chat_call(call@) == Ok::<ToolCallV, FailureV>(c@),
            Err(e) => chat_call(call@) == Err::<ToolCallV, FailureV>(e@),
        },
{
    if !call.is_object() {
        return Err(fail("Chat tool_call 必须是对象"));
    }
    if let Some(kind) = call.get_str("type") {
        if !str_eq(kind, "function") {
            return Err(
                Failure::Text(cat3("Chat tool_call 类型 ", kind, " 不能转换为 Responses item")),
            );
        }
    }
    let function = match call.get_object("function") {
        Some(f) => f,
        None => {
            return Err(fail("Chat tool_call 缺少 function"));
        },
    };
    let name = match function.get_text("name") {
        Some(n) => n,
        None => {
            return Err(fail("Chat tool_call.function 缺少 name"));
        },
    };
    Ok(
        ToolCall {
            call_id: owned(call.get_text("id")),
            name: name.to_owned(),
            arguments: arguments_of_call(function),
        },
    )
}

/// The tool calls of a completion, or the first error among them.
pub open spec fn chat_calls(calls: Seq<JsonV>) -> Result<Seq<ToolCallV>, FailureV>
    decreases calls.len(),
{
    if calls.len() == 0 {
        Ok(Seq::empty())
    } else {
        match chat_calls(calls.drop_last()) {
            Err(e) => Err(e),
            Ok(rest) => match chat_call(calls.last()) {
                Err(e) => Err(e),
                Ok(c) => Ok(rest.push(c)),
            },
        }
    }
}

proof fn lemma_call_error_stays(calls: Seq<JsonV>, n: int)
    requires
        0 <= n <= calls.len(),
        chat_calls(calls.subrange(0, n)) is Err,
    ensures
        chat_calls(calls) == chat_calls(calls.subrange(0, n)),
    decreases calls.len() - n,
{
    if n < calls.len() {
        assert(calls.subrange(0, n + 1).drop_last() =~= calls.subrange(0, n));
        lemma_call_error_stays(calls, n + 1);
    } else {
        assert(calls.subrange(0, n) =~= calls);
    }
}

/// The tool calls of a message: those in its list, then the one of the older form.
pub open spec fn message_calls(message: JsonV) -> Result<Seq<ToolCallV>, FailureV> {
    let listed = match message.get("tool_calls"@) {
        None => Ok(Seq::empty()),
        Some(JsonV::Array(calls)) => chat_calls(calls),
        Some(_) => Err(FailureV::Text("Chat message.tool_calls 必须是数组"@)),
    };
    match (listed, message.get("function_call"@)) {
        (Err(e), _) => Err(e),
        (Ok(calls), None) => Ok(calls),
        (Ok(calls), Some(function)) => if !function.is_object() {
            Err(FailureV::Text("Chat message.function_call 必须是对象"@))
        } else {
            match function.get_text("name"@) {
                None => Err(FailureV::Text("Chat message.function_call 缺少 name"@)),
                Some(name) => Ok(
                    calls.push(
                        ToolCallV { call_id: None, name, arguments: call_arguments(function) },
                    ),
                ),
            }
        },
    }
}

/// Reads the tool calls of a message.
pub fn append_chat_tool_calls_to_responses_output(message: &Json) -> (r: Result<
    Vec<ToolCall>,
    Failure,
>)
    ensures
        match r {
            Ok(c) => message_calls(message@) == Ok::<Seq<ToolCallV>, FailureV>(calls_view(c@)),
            Err(e) => message_calls(message@) == Err::<Seq<ToolCallV>, FailureV>(e@),
        },
{
    let mut out: Vec<ToolCall> = Vec::new();
    proof {
        assert(calls_view(out@) =~= Seq::<ToolCallV>::empty());
    }
    if let Some(value) = message.get("tool_calls") {
        let calls = match value.as_array() {
            Some(c) => c,
            None => {
                return Err(fail("Chat message.tool_calls 必须是数组"));
            },
        };
        let ghost all = views(calls@);
        let mut i: usize = 0;
        while i < calls.len()
            invariant
                i <= calls.len(),
                all == views(calls@),
                message@.get("tool_calls"@) == Some(JsonV::Array(all)),
                chat_calls(all.subrange(0, i as int)) == Ok::<Seq<ToolCallV>, FailureV>(
                    calls_view(out@),
                ),
            decreases calls.len() - i,
        {
            proof {
                assert(all.subrange(0, i + 1).drop_last() =~= all.subrange(0, i as int));
                assert(all.subrange(0, i + 1).last() == calls@[i as int]@);
            }
            match read_chat_call(&calls[i]) {
                Err(e) => {
                    proof {
                        lemma_call_error_stays(all, i + 1);
                    }
                    return Err(e);
                },
                Ok(c) => {
                    proof {
                        calls_push(out@, c);
                    }
                    out.push(c);
                },
            }
            i = i + 1;
        }
        proof {
            assert(all.subrange(0, i as int) =~= all);
        }
    }
    if let Some(function) = message.get("function_call") {
        if !function.is_object() {
            return Err(fail("Chat message.function_call 必须是对象"));
        }
        let name = match function.get_text("name") {
            Some(n) => n,
            None => {
                return Err(fail("Chat message.function_call 缺少 name"));
            },
        };
        let call = ToolCall {
            call_id: None,
            name: name.to_owned(),
            arguments: arguments_of_call(function),
        };
        proof {
            calls_push(out@, call);
        }
        out.push(call);
    }
    Ok(out)
}

/// The first choice of a completion.
pub open spec fn first_choice(chat: JsonV) -> Option<JsonV> {
    match chat.get_array("choices"@) {
        Some(choices) => if choices.len() > 0 && choices[0].is_object() {
            Some(choices[0])
        } else {
            None
        },
        None => None,
    }
}

/// The message of a choice.
pub open spec fn choice_message(choice: JsonV) -> Option<JsonV> {
    match choice.get_either("message"@, "delta"@) {
        Some(v) => if v.is_object() {
            Some(v)
        } else {
            None
        },
        None => None,
    }
}

/// What a completion comes to.
pub open spec fn chat_parts(chat: JsonV) -> Result<ChatPartsV, FailureV> {
    if context_length_error(chat) {
        Err(FailureV::ContextLength)
    } else {
        match first_choice(chat) {
            None => Err(FailureV::Text("Chat Completions 响应缺少 choices[0]"@)),
            Some(choice) => match choice_message(choice) {
                None => Err(FailureV::Text("Chat Completions 响应缺少 assistant message"@)),
                Some(message) => match message_calls(message) {
                    Err(e) => Err(e),
                    Ok(calls) => Ok(
                        ChatPartsV {
                            text: match message.get("content"@) {
                                Some(c) => content_text(c),
                                None => Seq::empty(),
                            },
                            refusal: message.str_or_empty("refusal"@),
                            annotations: annotations_of(message),
                            calls,
                            finish_reason: choice.get_str("finish_reason"@),
                        },
                    ),
                },
            },
        }
    }
}

/// Reads what a completion comes to. The names in its tool calls are the upstream's.
pub fn read_chat_completion(chat: &Json) -> (r: Result<ChatParts, Failure>)
    ensures
        chat_parts_result(r) == chat_parts(chat@),
{
    if is_context_length_error(chat) {
        return Err(Failure::ContextLength);
    }
    let choice = match chat.get_array("choices") {
        Some(choices) => if choices.len() > 0 && choices[0].is_object() {
            proof {
                assert(views(choices@)[0] == choices@[0]@);
            }
            &choices[0]
        } else {
            return Err(fail("Chat Completions 响应缺少 choices[0]"));
        },
        None => {
            return Err(fail("Chat Completions 响应缺少 choices[0]"));
        },
    };
    let message = match choice.get_either("message", "delta") {
        Some(v) => if v.is_object() {
            v
        } else {
            return Err(fail("Chat Completions 响应缺少 assistant message"));
        },
        None => {
            return Err(fail("Chat Completions 响应缺少 assistant message"));
        },
    };
    let calls = match append_chat_tool_calls_to_responses_output(message) {
        Err(e) => {
            return Err(e);
        },
        Ok(c) => c,
    };
    let text = match message.get("content") {
        Some(c) => chat_message_content_text(c),
        None => String::new(),
    };
    Ok(
        ChatParts {
            text,
            refusal: message.str_or_empty("refusal"),
            annotations: chat_message_annotations(message),
            calls,
            finish_reason: owned(choice.get_str("finish_reason")),
        },
    )
}

/// The parts of the assistant's message.
pub open spec fn chat_content(parts: ChatPartsV) -> Seq<JsonV> {
    let said = if parts.text.len() > 0 {
        seq![output_text(parts.text, parts.annotations)]
    } else {
        Seq::empty()
    };
    if parts.refusal.len() > 0 {
        said.push(refusal_part(parts.refusal))
    } else {
        said
    }
}

/// Tokens of a usage member of the chat protocol.
pub open spec fn chat_usage(usage: JsonV) -> JsonV {
    let input = number_at(usage.get_either("prompt_tokens"@, "input_tokens"@));
    let output = number_at(usage.get_either("completion_tokens"@, "output_tokens"@));
    let total = match usage.get_u64("total_tokens"@) {
        Some(n) => n,
        None => capped_sum(input as int, output as int),
    };
    let cached = detail_at(
        usage.get_either("prompt_tokens_details"@, "input_tokens_details"@),
        "cached_tokens"@,
    );
    let reasoning = detail_at(
        usage.get_either("completion_tokens_details"@, "output_tokens_details"@),
        "reasoning_tokens"@,
    );
    usage_document(input, cached, output, reasoning, total)
}

pub open spec fn number_at(value: Option<JsonV>) -> u64 {
    match value {
        Some(JsonV::Unsigned(n)) => n,
        _ => 0,
    }
}

pub open spec fn detail_at(value: Option<JsonV>, key: Seq<char>) -> u64 {
    match value {
        Some(v) => v.u64_or_zero(key),
        None => 0,
    }
}

fn read_number(value: Option<&Json>) -> (r: u64)
    ensures
        r == number_at(opt_view(value)),
{
    match value {
        Some(v) => match v.as_u64() {
            Some(n) => n,
            None => 0,
        },
        None => 0,
    }
}

fn read_detail(value: Option<&Json>, key: &str) -> (r: u64)
    ensures
        r == detail_at(opt_view(value), key@),
{
    match value {
        Some(v) => v.u64_or_zero(key),
        None => 0,
    }
}

/// The usage of a completion in a Responses document.
pub fn chat_usage_to_responses_usage(usage: &Json) -> (r: Json)
    ensures
        r@ == chat_usage(usage@),
{
    let input = read_number(usage.get_either("prompt_tokens", "input_tokens"));
    let output = read_number(usage.get_either("completion_tokens", "output_tokens"));
    let total = match usage.get_u64("total_tokens") {
        Some(n) => n,
        None => add_capped(input, output),
    };
    let cached = read_detail(
        usage.get_either("prompt_tokens_details", "input_tokens_details"),
        "cached_tokens",
    );
    let reasoning = read_detail(
        usage.get_either("completion_tokens_details", "output_tokens_details"),
        "reasoning_tokens",
    );
    make_usage_document(input, cached, output, reasoning, total)
}

/// Why a completion is incomplete, if it is.
pub open spec fn chat_incomplete(finish_reason: Option<Seq<char>>) -> Option<Seq<char>> {
    if finish_reason == Some("length"@) {
        Some("max_output_tokens"@)
    } else if finish_reason == Some("content_filter"@) {
        Some("content_filter"@)
    } else {
        None
    }
}

/// The Responses document of a completion. Its id and its time are the upstream's, where that gave
/// them.
pub open spec fn chat_response(
    chat: JsonV,
    model: Seq<char>,
    calls: Seq<JsonV>,
    message_id: Seq<char>,
    response_id: Seq<char>,
    now: i64,
) -> Result<JsonV, FailureV> {
    match chat_parts(chat) {
        Err(e) => Err(e),
        Ok(parts) => Ok(chat_document(chat, model, parts, calls, message_id, response_id, now)),
    }
}

/// The Responses document of a completion that comes to the given parts.
pub open spec fn chat_document(
    chat: JsonV,
    model: Seq<char>,
    parts: ChatPartsV,
    calls: Seq<JsonV>,
    message_id: Seq<char>,
    response_id: Seq<char>,
    now: i64,
) -> JsonV {
    response_document(
        match chat.get_str("id"@) {
            Some(id) => if trim(id).len() > 0 {
                id
            } else {
                response_id
            },
            None => response_id,
        },
        match chat.get("created"@) {
            Some(v) => match v.as_i64() {
                Some(t) => t,
                None => now,
            },
            None => now,
        },
        model,
        response_output(message_id, chat_content(parts), calls),
        parts.text,
        chat_incomplete(parts.finish_reason),
        match chat.get("usage"@) {
            Some(u) => Some(chat_usage(u)),
            None => None,
        },
    )
}

/// Builds the Responses document of a completion, with the given ids and time. The items of its
/// tool calls are handed in, in the order of the calls that `read_chat_completion` gives.
pub fn chat_completion_to_responses_body_with_tool_bridge(
    chat: &Json,
    model: &str,
    calls: Vec<Json>,
    message_id: &str,
    response_id: &str,
    now: i64,
) -> (r: Result<Json, Failure>)
    ensures
        json_result(r) == chat_response(
            chat@,
            model@,
            views(calls@),
            message_id@,
            response_id@,
            now,
        ),
{
    match read_chat_completion(chat) {
        Err(e) => Err(e),
        Ok(parts) => Ok(
            make_chat_document(chat, model, parts, calls, message_id, response_id, now),
        ),
    }
}

/// Builds the Responses document of a completion that comes to the given parts.
pub(crate) fn make_chat_document(
    chat: &Json,
    model: &str,
    parts: ChatParts,
    calls: Vec<Json>,
    message_id: &str,
    response_id: &str,
    now: i64,
) -> (r: Json)
    ensures
        r@ == chat_document(
            chat@,
            model@,
            parts@,
            views(calls@),
            message_id@,
            response_id@,
            now,
        ),
{
    let mut content: Vec<Json> = Vec::new();
    proof {
        assert(views(content@) =~= Seq::<JsonV>::empty());
    }
    if !parts.text.as_str().is_empty() {
        let part = make_output_text(parts.text.as_str(), parts.annotations);
        content.push(part);
        proof {
            assert(views(content@) =~= seq![part@]);
        }
    }
    if !parts.refusal.as_str().is_empty() {
        let part = make_refusal(parts.refusal.as_str());
        proof {
            views_push(content@, part);
        }
        content.push(part);
    }
    proof {
        assert(views(content@) =~= chat_content(parts@));
    }
    let output = make_response_output(message_id, content, calls);
    let id = match chat.get_str("id") {
        Some(id) => if trimmed(id).as_str().is_empty() {
            response_id
        } else {
            id
        },
        None => response_id,
    };
    let created_at = match chat.get("created") {
        Some(v) => match v.as_i64() {
            Some(t) => t,
            None => now,
        },
        None => now,
    };
    let incomplete = match &parts.finish_reason {
        Some(reason) => if str_eq(reason.as_str(), "length") {
            Some("max_output_tokens")
        } else if str_eq(reason.as_str(), "content_filter") {
            Some("content_filter")
        } else {
            None
        },
        None => None,
    };
    let usage = match chat.get("usage") {
        Some(u) => Some(chat_usage_to_responses_usage(u)),
        None => None,
    };
    make_response_document(id, created_at, model, output, parts.text.as_str(), incomplete, usage)
}

/// A tool call of a stream, as far as it has come.
#[derive(Debug)]
pub struct ChatSseToolCall {
    pub id: String,
    pub name: String,
    pub arguments: String,
}

pub struct ChatCallV {
    pub id: Seq<char>,
    pub name: Seq<char>,
    pub arguments: Seq<char>,
}

impl View for ChatSseToolCall {
    type V = ChatCallV;

    open spec fn view(&self) -> ChatCallV {
        ChatCallV { id: self.id@, name: self.name@, arguments: self.arguments@ }
    }
}

pub open spec fn empty_call() -> ChatCallV {
    ChatCallV { id: Seq::empty(), name: Seq::empty(), arguments: Seq::empty() }
}

/// A call with a further piece of its function.
pub open spec fn function_delta(call: ChatCallV, function: JsonV) -> ChatCallV {
    ChatCallV {
        name: call.name + function.str_or_empty("name"@),
        arguments: call.arguments + text_or_empty(chat_string(function.get("arguments"@))),
        ..call
    }
}

/// A call with a further piece.
pub open spec fn call_delta(call: ChatCallV, piece: JsonV) -> (ChatCallV, Result<(), FailureV>) {
    let named = ChatCallV {
        id: match piece.get_text("id"@) {
            Some(id) => id,
            None => call.id,
        },
        ..call
    };
    match piece.get_str("type"@) {
        Some(kind) => if kind != "function"@ {
            (named, Err(FailureV::Text("Chat stream tool_call 类型 "@ + kind + " 不受支持"@)))
        } else {
            (with_function(named, piece), Ok(()))
        },
        None => (with_function(named, piece), Ok(())),
    }
}

pub open spec fn with_function(call: ChatCallV, piece: JsonV) -> ChatCallV {
    match piece.get_object("function"@) {
        Some(function) => function_delta(call, function),
        None => call,
    }
}

/// The call in a slot, or an empty one.
pub open spec fn call_at(calls: Seq<(u64, ChatCallV)>, index: u64) -> ChatCallV {
    match slot(calls, index) {
        Some(c) => c,
        None => empty_call(),
    }
}

/// The calls with the pieces of a list put in from a position on.
pub open spec fn put_calls(calls: Seq<(u64, ChatCallV)>, pieces: Seq<JsonV>, i: int) -> (Seq<
    (u64, ChatCallV),
>, Result<(), FailureV>)
    decreases pieces.len() - i,
{
    if i < 0 || i >= pieces.len() {
        (calls, Ok(()))
    } else if !pieces[i].is_object() {
        (calls, Err(FailureV::Text("Chat stream tool_call delta 必须是对象"@)))
    } else {
        let index = pieces[i].u64_or_zero("index"@);
        let (changed, r) = call_delta(call_at(calls, index), pieces[i]);
        let after = put(calls, index, changed);
        if r is Err {
            (after, r)
        } else {
            put_calls(after, pieces, i + 1)
        }
    }
}

/// What a completion stream has brought so far.
pub struct ChatState {
    pub retain_text: bool,
    pub id: Seq<char>,
    pub created: i64,
    pub model: Seq<char>,
    pub content: Seq<char>,
    pub refusal: Seq<char>,
    pub tool_calls: Seq<(u64, ChatCallV)>,
    pub finish_reason: Option<Seq<char>>,
    pub usage: Option<JsonV>,
    pub done: bool,
}

/// The delta of a choice.
pub open spec fn choice_delta(choice: JsonV) -> Option<JsonV> {
    match choice.get_either("delta"@, "message"@) {
        Some(v) => if v.is_object() {
            Some(v)
        } else {
            None
        },
        None => None,
    }
}

/// The state with the listed pieces of tool calls of a delta.
pub open spec fn listed_step(state: ChatState, delta: JsonV) -> (ChatState, Result<(), FailureV>) {
    match delta.get("tool_calls"@) {
        None => (state, Ok(())),
        Some(JsonV::Null) => (state, Ok(())),
        Some(JsonV::Array(pieces)) => {
            let (tool_calls, r) = put_calls(state.tool_calls, pieces, 0);
            (ChatState { tool_calls, ..state }, r)
        },
        Some(_) => (state, Err(FailureV::Text("Chat stream delta.tool_calls 必须是数组"@))),
    }
}

/// The state with the call of the older form in a delta.
pub open spec fn legacy_step(state: ChatState, delta: JsonV) -> (ChatState, Result<(), FailureV>) {
    match delta.get("function_call"@) {
        None => (state, Ok(())),
        Some(function) => if !function.is_object() {
            (state, Err(FailureV::Text("Chat stream function_call delta 必须是对象"@)))
        } else {
            (
                ChatState {
                    tool_calls: put(
                        state.tool_calls,
                        0,
                        function_delta(call_at(state.tool_calls, 0), function),
                    ),
                    ..state
                },
                Ok(()),
            )
        },
    }
}

/// The state with the text of a delta.
pub open spec fn said_step(state: ChatState, delta: JsonV) -> ChatState {
    if state.retain_text {
        ChatState {
            content: match delta.get("content"@) {
                Some(c) => state.content + content_text(c),
                None => state.content,
            },
            refusal: state.refusal + delta.str_or_empty("refusal"@),
            ..state
        }
    } else {
        state
    }
}

/// One choice of a chunk. Only the choice with index 0 counts.
pub open spec fn choice_step(state: ChatState, choice: JsonV) -> (ChatState, Result<(), FailureV>) {
    if choice.u64_or_zero("index"@) != 0 {
        (state, Ok(()))
    } else {
        let ended = ChatState {
            finish_reason: match choice.get_str("finish_reason"@) {
                Some(s) => Some(s),
                None => state.finish_reason,
            },
            ..state
        };
        match choice_delta(choice) {
            None => (ended, Ok(())),
            Some(delta) => {
                let (listed, r) = listed_step(said_step(ended, delta), delta);
                if r is Err {
                    (listed, r)
                } else {
                    legacy_step(listed, delta)
                }
            },
        }
    }
}

/// The choices of a chunk from a position on.
pub open spec fn choices_step(state: ChatState, choices: Seq<JsonV>, i: int) -> (ChatState, Result<
    (),
    FailureV,
>)
    decreases choices.len() - i,
{
    if i < 0 || i >= choices.len() {
        (state, Ok(()))
    } else {
        let (next, r) = choice_step(state, choices[i]);
        if r is Err {
            (next, r)
        } else {
            choices_step(next, choices, i + 1)
        }
    }
}

/// What a chunk says of the completion as a whole.
pub open spec fn head_step(state: ChatState, chunk: JsonV) -> ChatState {
    ChatState {
        id: match chunk.get_text("id"@) {
            Some(id) => id,
            None => state.id,
        },
        created: match chunk.get("created"@) {
            Some(v) => match v.as_i64() {
                Some(t) => t,
                None => state.created,
            },
            None => state.created,
        },
        model: match chunk.get_text("model"@) {
            Some(m) => m,
            None => state.model,
        },
        usage: match chunk.get("usage"@) {
            None => state.usage,
            Some(JsonV::Null) => state.usage,
            Some(u) => Some(u),
        },
        ..state
    }
}

/// One chunk of a completion stream.
pub open spec fn chat_step(state: ChatState, chunk: JsonV) -> (ChatState, Result<(), FailureV>) {
    if context_length_error(chunk) {
        (state, Err(FailureV::ContextLength))
    } else if chunk.has("error"@) {
        (
            state,
            Err(FailureV::Text("Chat Completions 流返回错误："@ + json_text(chunk.at("error"@)))),
        )
    } else {
        match chunk.get_array("choices"@) {
            None => (head_step(state, chunk), Ok(())),
            Some(choices) => choices_step(head_step(state, chunk), choices, 0),
        }
    }
}

/// The tool calls of a completion, or the first error among them. A call without an id gets the
/// fresh id of its place.
pub open spec fn call_values(calls: Seq<(u64, ChatCallV)>, fresh: Seq<Seq<char>>) -> Result<
    Seq<JsonV>,
    FailureV,
>
    decreases calls.len(),
{
    if calls.len() == 0 {
        Ok(Seq::empty())
    } else {
        let call = calls.last().1;
        match call_values(calls.drop_last(), fresh) {
            Err(e) => Err(e),
            Ok(rest) => if call.name.len() == 0 {
                Err(FailureV::Text("Chat stream tool_call 缺少 function.name"@))
            } else {
                Ok(rest.push(call_value(call, fresh[calls.len() - 1])))
            },
        }
    }
}

pub open spec fn call_value(call: ChatCallV, fresh: Seq<char>) -> JsonV {
    JsonV::obj().with(
        "id"@,
        JsonV::Str(
            if call.id.len() == 0 {
                fresh
            } else {
                call.id
            },
        ),
    ).with("type"@, JsonV::Str("function"@)).with(
        "function"@,
        JsonV::obj().with("name"@, JsonV::Str(call.name)).with(
            "arguments"@,
            JsonV::Str(call.arguments),
        ),
    )
}

proof fn lemma_value_error_stays(calls: Seq<(u64, ChatCallV)>, fresh: Seq<Seq<char>>, n: int)
    requires
        0 <= n <= calls.len(),
        call_values(calls.subrange(0, n), fresh) is Err,
    ensures
        call_values(calls, fresh) == call_values(calls.subrange(0, n), fresh),
    decreases calls.len() - n,
{
    if n < calls.len() {
        assert(calls.subrange(0, n + 1).drop_last() =~= calls.subrange(0, n));
        lemma_value_error_stays(calls, fresh, n + 1);
    } else {
        assert(calls.subrange(0, n) =~= calls);
    }
}

/// The message of a completion stream.
pub open spec fn streamed_chat_message(state: ChatState, calls: Seq<JsonV>) -> JsonV {
    let said = JsonV::obj().with("role"@, JsonV::Str("assistant"@)).with(
        "content"@,
        if state.content.len() > 0 {
            JsonV::Str(state.content)
        } else {
            JsonV::Null
        },
    );
    let refused = if state.refusal.len() > 0 {
        said.with("refusal"@, JsonV::Str(state.refusal))
    } else {
        said
    };
    if state.tool_calls.len() > 0 {
        refused.with("tool_calls"@, JsonV::Array(calls))
    } else {
        refused
    }
}

/// The completion of a stream at its end. A stream that broke off before its end marker and before
/// it said why it finished has none.
pub open spec fn streamed_chat(state: ChatState, done: bool, fresh: Seq<Seq<char>>) -> Result<
    JsonV,
    FailureV,
> {
    let reason = text_or_empty(state.finish_reason);
    if !done && trim(reason).len() == 0 {
        Err(FailureV::Text("Chat Completions SSE 在 [DONE] 或 finish_reason 前断开"@))
    } else {
        match call_values(state.tool_calls, fresh) {
            Err(e) => Err(e),
            Ok(calls) => {
                let choice = JsonV::obj().with("index"@, JsonV::Unsigned(0)).with(
                    "message"@,
                    streamed_chat_message(state, calls),
                ).with(
                    "finish_reason"@,
                    match state.finish_reason {
                        Some(s) => JsonV::Str(s),
                        None => JsonV::Null,
                    },
                );
                let chat = JsonV::obj().with("id"@, JsonV::Str(state.id)).with(
                    "object"@,
                    JsonV::Str("chat.completion"@),
                ).with("created"@, JsonV::signed(state.created)).with(
                    "model"@,
                    JsonV::Str(state.model),
                ).with("choices"@, JsonV::Array(seq![choice]));
                Ok(
                    match state.usage {
                        Some(u) => chat.with("usage"@, u),
                        None => chat,
                    },
                )
            },
        }
    }
}

/// Collects a completion from a stream.
pub struct ChatSseAccumulator {
    pub retain_text: bool,
    pub id: String,
    pub created: i64,
    pub model: String,
    pub content: String,
    pub refusal: String,
    pub tool_calls: Slots<ChatSseToolCall>,
    pub finish_reason: Option<String>,
    pub usage: Option<Json>,
    /// The upstream has sent its end marker.
    pub done: bool,
}

/// The state before the first chunk.
pub open spec fn fresh_chat(id: Seq<char>, created: i64, model: Seq<char>, retain_text: bool) -> ChatState {
    ChatState {
        retain_text,
        id,
        created,
        model,
        content: Seq::empty(),
        refusal: Seq::empty(),
        tool_calls: Seq::empty(),
        finish_reason: None,
        usage: None,
        done: false,
    }
}

fn new_call() -> (r: ChatSseToolCall)
    ensures
        r@ == empty_call(),
{
    ChatSseToolCall { id: String::new(), name: String::new(), arguments: String::new() }
}

fn apply_function(call: &mut ChatSseToolCall, function: &Json)
    ensures
        final(call)@ == function_delta(old(call)@, function@),
{
    call.name.append(function.str_or_empty("name").as_str());
    if let Some(arguments) = json_value_as_chat_string(function.get("arguments")) {
        call.arguments.append(arguments.as_str());
    } else {
        proof {
            assert(call.arguments@ + Seq::<char>::empty() =~= call.arguments@);
        }
    }
}

fn apply_piece(call: &mut ChatSseToolCall, piece: &Json) -> (r: Result<(), Failure>)
    ensures
        (final(call)@, done_view(r)) == call_delta(old(call)@, piece@),
{
    if let Some(id) = piece.get_text("id") {
        call.id = id.to_owned();
    }
    if let Some(kind) = piece.get_str("type") {
        if !str_eq(kind, "function") {
            return Err(Failure::Text(cat3("Chat stream tool_call 类型 ", kind, " 不受支持")));
        }
    }
    if let Some(function) = piece.get_object("function") {
        apply_function(call, function);
    }
    Ok(())
}

impl ChatSseAccumulator {
    /// The accumulator for a completion that is collected whole, with the id and the time that it
    /// has until the upstream gives them.
    pub fn new(id: &str, created: i64, model: &str) -> (r: ChatSseAccumulator)
        ensures
            r.state() == fresh_chat(id@, created, model@, true),
            r.inv(),
    {
        ChatSseAccumulator {
            retain_text: true,
            id: id.to_owned(),
            created,
            model: model.to_owned(),
            content: String::new(),
            refusal: String::new(),
            tool_calls: Slots::new(),
            finish_reason: None,
            usage: None,
            done: false,
        }
    }

    /// The accumulator for a completion whose text is handed on as it comes.
    pub fn for_streaming(id: &str, created: i64, model: &str) -> (r: ChatSseAccumulator)
        ensures
            r.state() == fresh_chat(id@, created, model@, false),
            r.inv(),
    {
        let mut r = ChatSseAccumulator::new(id, created, model);
        r.retain_text = false;
        r
    }

    /// Takes in the listed pieces of tool calls.
    pub fn ingest_tool_calls(&mut self, pieces: &Vec<Json>) -> (r: Result<(), Failure>)
        requires
            old(self).inv(),
        ensures
            final(self).inv(),
            ({
                let (tool_calls, out) = put_calls(old(self).tool_calls@, views(pieces@), 0);
                &&& final(self).state() == (ChatState { tool_calls, ..old(self).state() })
                &&& done_view(r) == out
            }),
    {
        let ghost all = views(pieces@);
        let mut i: usize = 0;
        while i < pieces.len()
            invariant
                i <= pieces.len(),
                self.inv(),
                all == views(pieces@),
                self.state() == (ChatState { tool_calls: self.tool_calls@, ..old(self).state() }),
                put_calls(old(self).tool_calls@, all, 0) == put_calls(
                    self.tool_calls@,
                    all,
                    i as int,
                ),
            decreases pieces.len() - i,
        {
            let piece = &pieces[i];
            proof {
                assert(all[i as int] == piece@);
            }
            if !piece.is_object() {
                return Err(fail("Chat stream tool_call delta 必须是对象"));
            }
            let index = piece.u64_or_zero("index");
            let ghost before = self.tool_calls@;
            let mut call = match self.tool_calls.take(index) {
                Some(c) => c,
                None => new_call(),
            };
            let r = apply_piece(&mut call, piece);
            proof {
                put_fills_one_slot(before, index, call@);
                if slot(before, index) is Some {
                    take_then_put(before, index, call@);
                }
            }
            self.tool_calls.put(index, call);
            if r.is_err() {
                return r;
            }
            i = i + 1;
        }
        Ok(())
    }

    /// Takes in a piece of a call of the older form.
    pub fn ingest_legacy_function_call(&mut self, function: &Json) -> (r: Result<(), Failure>)
        requires
            old(self).inv(),
        ensures
            final(self).inv(),
            ({
                let changed = function_delta(call_at(old(self).tool_calls@, 0), function@);
                if function@.is_object() {
                    &&& r is Ok
                    &&& final(self).state() == (ChatState {
                        tool_calls: put(old(self).tool_calls@, 0, changed),
                        ..old(self).state()
                    })
                } else {
                    &&& final(self).state() == old(self).state()
                    &&& r matches Err(e) && e@ == FailureV::Text(
                        "Chat stream function_call delta 必须是对象"@,
                    )
                }
            }),
    {
        if !function.is_object() {
            return Err(fail("Chat stream function_call delta 必须是对象"));
        }
        let ghost before = self.tool_calls@;
        let mut call = match self.tool_calls.take(0) {
            Some(c) => c,
            None => new_call(),
        };
        apply_function(&mut call, function);
        proof {
            put_fills_one_slot(before, 0, call@);
            if slot(before, 0) is Some {
                take_then_put(before, 0, call@);
            }
        }
        self.tool_calls.put(0, call);
        Ok(())
    }

    fn choice(&mut self, choice: &Json) -> (r: Result<(), Failure>)
        requires
            old(self).inv(),
        ensures
            final(self).inv(),
            (final(self).state(), done_view(r)) == choice_step(old(self).state(), choice@),
    {
        if choice.u64_or_zero("index") != 0 {
            return Ok(());
        }
        if let Some(reason) = choice.get_str("finish_reason") {
            self.finish_reason = Some(reason.to_owned());
        }
        let delta = match choice.get_either("delta", "message") {
            Some(v) => if v.is_object() {
                v
            } else {
                return Ok(());
            },
            None => {
                return Ok(());
            },
        };
        if self.retain_text {
            if let Some(content) = delta.get("content") {
                self.content.append(chat_message_content_text(content).as_str());
            }
            self.refusal.append(delta.str_or_empty("refusal").as_str());
        }
        if let Some(value) = delta.get("tool_calls") {
            if !value.is_null() {
                match value.as_array() {
                    None => {
                        return Err(fail("Chat stream delta.tool_calls 必须是数组"));
                    },
                    Some(pieces) => {
                        let r = self.ingest_tool_calls(pieces);
                        if r.is_err() {
                            return r;
                        }
                    },
                }
            }
        }
        match delta.get("function_call") {
            None => Ok(()),
            Some(function) => self.ingest_legacy_function_call(function),
        }
    }

    /// Takes in one chunk.
    pub fn ingest(&mut self, chunk: &Json) -> (r: Result<(), Failure>)
        requires
            old(self).inv(),
        ensures
            final(self).inv(),
            (final(self).state(), done_view(r)) == chat_step(old(self).state(), chunk@),
    {
        if is_context_length_error(chunk) {
            return Err(Failure::ContextLength);
        }
        if let Some(error) = chunk.get("error") {
            return Err(fail_with("Chat Completions 流返回错误：", error.to_text().as_str()));
        }
        if let Some(id) = chunk.get_text("id") {
            self.id = id.to_owned();
        }
        if let Some(v) = chunk.get("created") {
            if let Some(created) = v.as_i64() {
                self.created = created;
            }
        }
        if let Some(model) = chunk.get_text("model") {
            self.model = model.to_owned();
        }
        if let Some(usage) = chunk.get("usage") {
            if !usage.is_null() {
                self.usage = Some(usage.clone_json());
            }
        }
        let ghost headed = self.state();
        let choices = match chunk.get_array("choices") {
            Some(c) => c,
            None => {
                return Ok(());
            },
        };
        let ghost all = views(choices@);
        let mut i: usize = 0;
        while i < choices.len()
            invariant
                i <= choices.len(),
                self.inv(),
                all == views(choices@),
                chat_step(old(self).state(), chunk@) == choices_step(headed, all, 0),
                choices_step(headed, all, 0) == choices_step(self.state(), all, i as int),
            decreases choices.len() - i,
        {
            proof {
                assert(all[i as int] == choices@[i as int]@);
            }
            let r = self.choice(&choices[i]);
            if r.is_err() {
                return r;
            }
            i = i + 1;
        }
        Ok(())
    }

    /// The completion of the stream. `fresh` holds an id for each tool call.
    pub fn into_chat_completion(self, done: bool, fresh: &Vec<String>) -> (r: Result<Json, Failure>)
        requires
            fresh.len() >= self.tool_calls@.len(),
        ensures
            json_result(r) == streamed_chat(self.state(), done, texts(fresh@)),
    {
        let silent = match &self.finish_reason {
            Some(s) => trimmed(s.as_str()).as_str().is_empty(),
            None => true,
        };
        proof {
            assert(trim(Seq::<char>::empty()).len() == 0);
        }
        if !done && silent {
            return Err(fail("Chat Completions SSE 在 [DONE] 或 finish_reason 前断开"));
        }
        let ghost all = self.tool_calls@;
        let mut calls: Vec<Json> = Vec::new();
        let mut i: usize = 0;
        proof {
            assert(views(calls@) =~= Seq::<JsonV>::empty());
        }
        while i < self.tool_calls.len()
            invariant
                i <= all.len(),
                all == self.tool_calls@,
                fresh.len() >= all.len(),
                call_values(all.subrange(0, i as int), texts(fresh@)) == Ok::<
                    Seq<JsonV>,
                    FailureV,
                >(views(calls@)),
                call_values(all, texts(fresh@)) is Err ==> streamed_chat(
                    self.state(),
                    done,
                    texts(fresh@),
                ) == Err::<JsonV, FailureV>(call_values(all, texts(fresh@))->Err_0),
            decreases all.len() - i,
        {
            proof {
                assert(all.subrange(0, i + 1).drop_last() =~= all.subrange(0, i as int));
                assert(all.subrange(0, i + 1).last() == all[i as int]);
            }
            let call = self.tool_calls.value_at(i);
            if call.name.as_str().is_empty() {
                proof {
                    lemma_value_error_stays(all, texts(fresh@), i + 1);
                }
                return Err(fail("Chat stream tool_call 缺少 function.name"));
            }
            let id = if call.id.as_str().is_empty() {
                fresh[i].as_str()
            } else {
                call.id.as_str()
            };
            let value = Json::obj().with("id", Json::str(id)).with(
                "type",
                Json::str("function"),
            ).with(
                "function",
                Json::obj().with("name", Json::str(call.name.as_str())).with(
                    "arguments",
                    Json::str(call.arguments.as_str()),
                ),
            );
            proof {
                views_push(calls@, value);
            }
            calls.push(value);
            i = i + 1;
        }
        proof {
            assert(all.subrange(0, i as int) =~= all);
        }
        let has_calls = self.tool_calls.len() > 0;
        let content = if self.content.as_str().is_empty() {
            Json::null()
        } else {
            Json::string(self.content)
        };
        let mut message = Json::obj().with("role", Json::str("assistant")).with(
            "content",
            content,
        );
        if !self.refusal.as_str().is_empty() {
            message.insert("refusal", Json::string(self.refusal));
        }
        if has_calls {
            message.insert("tool_calls", Json::array(calls));
        }
        let reason = match self.finish_reason {
            Some(s) => Json::string(s),
            None => Json::null(),
        };
        let choice = Json::obj().with("index", Json::unsigned(0)).with("message", message).with(
            "finish_reason",
            reason,
        );
        let mut choices: Vec<Json> = Vec::new();
        choices.push(choice);
        proof {
            assert(views(choices@) =~= seq![choice@]);
        }
        let mut chat = Json::obj().with("id", Json::string(self.id)).with(
            "object",
            Json::str("chat.completion"),
        ).with("created", Json::signed(self.created)).with("model", Json::string(self.model)).with(
            "choices",
            Json::array(choices),
        );
        if let Some(usage) = self.usage {
            chat.insert("usage", usage);
        }
        Ok(chat)
    }
}

impl SseFrameAccumulator for ChatSseAccumulator {
    type S = ChatState;

    open spec fn state(&self) -> ChatState {
        ChatState {
            retain_text: self.retain_text,
            id: self.id@,
            created: self.created,
            model: self.model@,
            content: self.content@,
            refusal: self.refusal@,
            tool_calls: self.tool_calls@,
            finish_reason: string_view(self.finish_reason),
            usage: own_view(self.usage),
            done: self.done,
        }
    }

    open spec fn step(state: ChatState, data: Seq<char>, trailing: bool) -> (ChatState, Result<
        (),
        FailureV,
    >) {
        if trim(data) == "[DONE]"@ {
            (ChatState { done: true, ..state }, Ok(()))
        } else {
            match json_frame(data, "Chat Completions"@, trailing) {
                Err(e) => (state, Err(e)),
                Ok(chunk) => chat_step(state, chunk),
            }
        }
    }

    open spec fn is_finished(state: ChatState) -> bool {
        state.done
    }

    open spec fn inv(&self) -> bool {
        rising(self.tool_calls@)
    }

    fn ingest_frame(&mut self, data: &str, trailing: bool) -> (r: Result<(), Failure>) {
        if str_eq(trimmed(data).as_str(), "[DONE]") {
            self.done = true;
            return Ok(());
        }
        match sse_json_frame(data, "Chat Completions", trailing) {
            Err(e) => Err(e),
            Ok(chunk) => self.ingest(&chunk),
        }
    }

    fn finished(&self) -> (r: bool) {
        self.done
    }
}

/// The completion of a stream that has been read whole, with the given ids.
pub open spec fn parsed_chat(
    bytes: Seq<u8>,
    id: Seq<char>,
    now: i64,
    model: Seq<char>,
    fresh: Seq<Seq<char>>,
) -> Result<JsonV, FailureV> {
    let (state, r) = drive_all::<ChatSseAccumulator>(fresh_chat(id, now, model, true), bytes);
    match r {
        Err(e) => Err(e),
        Ok(()) => streamed_chat(state, state.done, fresh),
    }
}

/// What reading a stream that has been read whole may come to: its ids are fresh, and there is one
/// for each of its tool calls.
pub open spec fn chat_stream_read(
    bytes: Seq<u8>,
    now: i64,
    model: Seq<char>,
    read: Result<JsonV, FailureV>,
) -> bool {
    exists|id: Seq<char>, fresh: Seq<Seq<char>>|
        has_form(id, "chatcmpl_codey_"@) && all_have_form(fresh, "call_codey_"@)
            && one_for_each_call(bytes, id, now, model, fresh) && read == #[trigger] parsed_chat(
            bytes,
            id,
            now,
            model,
            fresh,
        )
}

/// There are as many ids as tool calls in a stream that could be read.
pub open spec fn one_for_each_call(
    bytes: Seq<u8>,
    id: Seq<char>,
    now: i64,
    model: Seq<char>,
    fresh: Seq<Seq<char>>,
) -> bool {
    let (state, r) = drive_all::<ChatSseAccumulator>(fresh_chat(id, now, model, true), bytes);
    r is Ok ==> fresh.len() == state.tool_calls.len()
}

/// Every one of a list of ids is fresh.
pub open spec fn all_have_form(ids: Seq<Seq<char>>, prefix: Seq<char>) -> bool {
    forall|i: int| 0 <= i < ids.len() ==> has_form(#[trigger] ids[i], prefix)
}

/// Reads the completion of a stream that has been read whole. It has a fresh id until the upstream
/// gives one, and so have its tool calls.
pub fn parse_chat_completion_sse_bytes(bytes: &Vec<u8>, now: i64, model: &str) -> (r: Result<
    Json,
    Failure,
>)
    ensures
        chat_stream_read(bytes@, now, model@, json_result(r)),
{
    let id = fresh_id("chatcmpl_codey_");
    let mut accumulator = ChatSseAccumulator::new(id.as_str(), now, model);
    match parse_sse_frames(bytes, &mut accumulator) {
        Err(e) => {
            proof {
                assert(Err::<JsonV, FailureV>(e@) == parsed_chat(
                    bytes@,
                    id@,
                    now,
                    model@,
                    Seq::empty(),
                ));
            }
            Err(e)
        },
        Ok(()) => {
            let fresh = fresh_ids("call_codey_", accumulator.tool_calls.len());
            let done = accumulator.done;
            let r = accumulator.into_chat_completion(done, &fresh);
            proof {
                assert forall|i: int| 0 <= i < texts(fresh@).len() implies has_form(
                    #[trigger] texts(fresh@)[i],
                    "call_codey_"@,
                ) by {
                    assert(texts(fresh@)[i] == fresh@[i]@);
                }
                assert(json_result(r) == parsed_chat(bytes@, id@, now, model@, texts(fresh@)));
            }
            r
        },
    }
}

/// A stream gives a completion only after its end marker, or once the first choice has said why
/// it finished.
pub proof fn a_completion_needs_an_end(state: ChatState, done: bool, fresh: Seq<Seq<char>>)
    requires
        streamed_chat(state, done, fresh) is Ok,
    ensures
        done || (state.finish_reason matches Some(s) && trim(s).len() > 0),
{
}

/// A choice other than the first leaves no trace.
pub proof fn other_choices_are_ignored(state: ChatState, choice: JsonV)
    requires
        choice.get_u64("index"@) matches Some(n) && n != 0,
    ensures
        choice_step(state, choice) == (state, Ok::<(), FailureV>(())),
{
}

/// What a further piece of a tool call adds to the response.
pub open spec fn piece_action(piece: JsonV) -> Result<StreamActionV, FailureV> {
    let kind = match piece.get_str("type"@) {
        Some(t) => t,
        None => "function"@,
    };
    if !piece.is_object() {
        Err(FailureV::Text("Chat stream tool_call delta 必须是对象"@))
    } else if kind != "function"@ {
        Err(FailureV::Text("Chat stream tool_call 类型 "@ + kind + " 不受支持"@))
    } else {
        let function = piece.get_object("function"@);
        Ok(
            StreamActionV::Tool {
                index: piece.u64_or_zero("index"@),
                id: piece.get_str("id"@),
                name: match function {
                    Some(f) => f.get_str("name"@),
                    None => None,
                },
                delta: match function {
                    Some(f) => chat_string(f.get("arguments"@)),
                    None => None,
                },
                whole: None,
            },
        )
    }
}

fn read_piece_action(piece: &Json) -> (r: Result<StreamAction, Failure>)
    ensures
        match r {
            Ok(a) => piece_action(piece@) == Ok::<StreamActionV, FailureV>(a@),
            Err(e) => piece_action(piece@) == Err::<StreamActionV, FailureV>(e@),
        },
{
    if !piece.is_object() {
        return Err(fail("Chat stream tool_call delta 必须是对象"));
    }
    if let Some(kind) = piece.get_str("type") {
        if !str_eq(kind, "function") {
            return Err(Failure::Text(cat3("Chat stream tool_call 类型 ", kind, " 不受支持")));
        }
    }
    let (name, delta) = match piece.get_object("function") {
        Some(f) => (owned(f.get_str("name")), json_value_as_chat_string(f.get("arguments"))),
        None => (None, None),
    };
    Ok(
        StreamAction::Tool {
            index: piece.u64_or_zero("index"),
            id: owned(piece.get_str("id")),
            name,
            delta,
            whole: None,
        },
    )
}

/// What the first pieces of a list add to what came before, or the first error among them.
pub open spec fn piece_actions(before: Seq<StreamActionV>, pieces: Seq<JsonV>, n: int) -> Result<
    Seq<StreamActionV>,
    FailureV,
>
    decreases n,
{
    if n <= 0 {
        Ok(before)
    } else {
        match piece_actions(before, pieces, n - 1) {
            Err(e) => Err(e),
            Ok(rest) => match piece_action(pieces[n - 1]) {
                Err(e) => Err(e),
                Ok(a) => Ok(rest.push(a)),
            },
        }
    }
}

proof fn lemma_piece_error_stays(before: Seq<StreamActionV>, pieces: Seq<JsonV>, n: int, m: int)
    requires
        0 <= n <= m,
        piece_actions(before, pieces, n) is Err,
    ensures
        piece_actions(before, pieces, m) == piece_actions(before, pieces, n),
    decreases m - n,
{
    if n < m {
        lemma_piece_error_stays(before, pieces, n, m - 1);
    }
}

/// The actions with the text and the refusal of a delta.
pub open spec fn said_actions(before: Seq<StreamActionV>, delta: JsonV) -> Seq<StreamActionV> {
    let said = match delta.get("content"@) {
        Some(c) => before.push(StreamActionV::Text(content_text(c))),
        None => before,
    };
    match delta.get_str("refusal"@) {
        Some(s) => said.push(StreamActionV::Refusal(s)),
        None => said,
    }
}

/// The actions with the call of the older form in a delta.
pub open spec fn legacy_action(before: Seq<StreamActionV>, delta: JsonV) -> Result<
    Seq<StreamActionV>,
    FailureV,
> {
    match delta.get("function_call"@) {
        None => Ok(before),
        Some(function) => if !function.is_object() {
            Err(FailureV::Text("Chat stream function_call delta 必须是对象"@))
        } else {
            Ok(
                before.push(
                    StreamActionV::Tool {
                        index: u64::MAX,
                        id: None,
                        name: function.get_str("name"@),
                        delta: chat_string(function.get("arguments"@)),
                        whole: None,
                    },
                ),
            )
        },
    }
}

/// The actions with those of one choice.
pub open spec fn choice_actions(before: Seq<StreamActionV>, choice: JsonV) -> Result<
    Seq<StreamActionV>,
    FailureV,
> {
    if choice.u64_or_zero("index"@) != 0 {
        Ok(before)
    } else {
        match choice_delta(choice) {
            None => Ok(before),
            Some(delta) => {
                let said = said_actions(before, delta);
                let listed = match delta.get("tool_calls"@) {
                    None => Ok(said),
                    Some(JsonV::Null) => Ok(said),
                    Some(JsonV::Array(pieces)) => piece_actions(said, pieces, pieces.len() as int),
                    Some(_) => Err(FailureV::Text("Chat stream delta.tool_calls 必须是数组"@)),
                };
                match listed {
                    Err(e) => Err(e),
                    Ok(actions) => legacy_action(actions, delta),
                }
            },
        }
    }
}

/// The actions of the first choices of a chunk, or the first error among them.
pub open spec fn choices_actions(choices: Seq<JsonV>, n: int) -> Result<
    Seq<StreamActionV>,
    FailureV,
>
    decreases n,
{
    if n <= 0 {
        Ok(Seq::empty())
    } else {
        match choices_actions(choices, n - 1) {
            Err(e) => Err(e),
            Ok(rest) => choice_actions(rest, choices[n - 1]),
        }
    }
}

proof fn lemma_choice_error_stays(choices: Seq<JsonV>, n: int, m: int)
    requires
        0 <= n <= m,
        choices_actions(choices, n) is Err,
    ensures
        choices_actions(choices, m) == choices_actions(choices, n),
    decreases m - n,
{
    if n < m {
        lemma_choice_error_stays(choices, n, m - 1);
    }
}

/// What a chunk of a completion stream adds to the response.
pub open spec fn chat_actions(event: JsonV) -> Result<Seq<StreamActionV>, FailureV> {
    if context_length_error(event) {
        Err(FailureV::ContextLength)
    } else {
        match event.get_array("choices"@) {
            None => Ok(Seq::empty()),
            Some(choices) => choices_actions(choices, choices.len() as int),
        }
    }
}

fn add_pieces(out: &mut Vec<StreamAction>, pieces: &Vec<Json>) -> (r: Result<(), Failure>)
    ensures
        match r {
            Ok(()) => piece_actions(
                actions_view(old(out)@),
                views(pieces@),
                pieces.len() as int,
            ) == Ok::<Seq<StreamActionV>, FailureV>(actions_view(final(out)@)),
            Err(e) => piece_actions(
                actions_view(old(out)@),
                views(pieces@),
                pieces.len() as int,
            ) == Err::<Seq<StreamActionV>, FailureV>(e@),
        },
{
    let ghost all = views(pieces@);
    let ghost before = actions_view(out@);
    let mut i: usize = 0;
    while i < pieces.len()
        invariant
            i <= pieces.len(),
            all == views(pieces@),
            before == actions_view(old(out)@),
            piece_actions(before, all, i as int) == Ok::<Seq<StreamActionV>, FailureV>(
                actions_view(out@),
            ),
        decreases pieces.len() - i,
    {
        proof {
            assert(all[i as int] == pieces@[i as int]@);
        }
        match read_piece_action(&pieces[i]) {
            Err(e) => {
                proof {
                    lemma_piece_error_stays(before, all, i + 1, pieces.len() as int);
                }
                return Err(e);
            },
            Ok(a) => {
                proof {
                    actions_push(out@, a);
                }
                out.push(a);
            },
        }
        i = i + 1;
    }
    Ok(())
}

fn add_choice(out: &mut Vec<StreamAction>, choice: &Json) -> (r: Result<(), Failure>)
    ensures
        match r {
            Ok(()) => choice_actions(actions_view(old(out)@), choice@) == Ok::<
                Seq<StreamActionV>,
                FailureV,
            >(actions_view(final(out)@)),
            Err(e) => choice_actions(actions_view(old(out)@), choice@) == Err::<
                Seq<StreamActionV>,
                FailureV,
            >(e@),
        },
{
    broadcast use actions_push;

    if choice.u64_or_zero("index") != 0 {
        return Ok(());
    }
    let delta = match choice.get_either("delta", "message") {
        Some(v) => if v.is_object() {
            v
        } else {
            return Ok(());
        },
        None => {
            return Ok(());
        },
    };
    if let Some(content) = delta.get("content") {
        out.push(StreamAction::Text(chat_message_content_text(content)));
    }
    if let Some(refusal) = delta.get_str("refusal") {
        out.push(StreamAction::Refusal(refusal.to_owned()));
    }
    if let Some(value) = delta.get("tool_calls") {
        if !value.is_null() {
            match value.as_array() {
                None => {
                    return Err(fail("Chat stream delta.tool_calls 必须是数组"));
                },
                Some(pieces) => {
                    if let Err(e) = add_pieces(out, pieces) {
                        return Err(e);
                    }
                },
            }
        }
    }
    if let Some(function) = delta.get("function_call") {
        if !function.is_object() {
            return Err(fail("Chat stream function_call delta 必须是对象"));
        }
        out.push(
            StreamAction::Tool {
                index: u64::MAX,
                id: None,
                name: owned(function.get_str("name")),
                delta: json_value_as_chat_string(function.get("arguments")),
                whole: None,
            },
        );
    }
    Ok(())
}

/// What a chunk of a completion stream adds to the response.
pub fn emit_chat_stream_event(event: &Json) -> (r: Result<Vec<StreamAction>, Failure>)
    ensures
        match r {
            Ok(a) => chat_actions(event@) == Ok::<Seq<StreamActionV>, FailureV>(actions_view(a@)),
            Err(e) => chat_actions(event@) == Err::<Seq<StreamActionV>, FailureV>(e@),
        },
{
    let mut out: Vec<StreamAction> = Vec::new();
    proof {
        assert(actions_view(out@) =~= Seq::<StreamActionV>::empty());
    }
    if is_context_length_error(event) {
        return Err(Failure::ContextLength);
    }
    let choices = match event.get_array("choices") {
        Some(c) => c,
        None => {
            return Ok(out);
        },
    };
    let ghost all = views(choices@);
    let mut i: usize = 0;
    while i < choices.len()
        invariant
            i <= choices.len(),
            all == views(choices@),
            chat_actions(event@) == choices_actions(all, choices.len() as int),
            choices_actions(all, i as int) == Ok::<Seq<StreamActionV>, FailureV>(
                actions_view(out@),
            ),
        decreases choices.len() - i,
    {
        proof {
            assert(all[i as int] == choices@[i as int]@);
        }
        if let Err(e) = add_choice(&mut out, &choices[i]) {
            proof {
                lemma_choice_error_stays(all, i + 1, choices.len() as int);
            }
            return Err(e);
        }
        i = i + 1;
    }
    Ok(out)
}

/// The number under which a piece or a choice stands: none is the first.
pub open spec fn numbered(value: JsonV) -> u64 {
    match value.get("index"@) {
        Some(JsonV::Unsigned(n)) => n,
        _ => 0,
    }
}

/// The text that a member brings: a string as it is, a document as its text.
pub open spec fn brought(value: Option<JsonV>) -> Seq<char> {
    match value {
        None => Seq::empty(),
        Some(JsonV::Null) => Seq::empty(),
        Some(JsonV::Str(s)) => s,
        Some(v) => json_text(v),
    }
}

/// The string in a member.
pub open spec fn worded(value: Option<JsonV>) -> Seq<char> {
    match value {
        Some(JsonV::Str(s)) => s,
        _ => Seq::empty(),
    }
}

/// The arguments that the pieces from a position on bring for one call, one after the other.
pub open spec fn arguments_from(pieces: Seq<JsonV>, i: int, index: u64) -> Seq<char>
    decreases pieces.len() - i,
{
    if i < 0 || i >= pieces.len() {
        Seq::empty()
    } else if numbered(pieces[i]) == index {
        brought(pieces[i].get2("function"@, "arguments"@)) + arguments_from(pieces, i + 1, index)
    } else {
        arguments_from(pieces, i + 1, index)
    }
}

/// The parts of its name that the pieces from a position on bring for one call.
pub open spec fn name_from(pieces: Seq<JsonV>, i: int, index: u64) -> Seq<char>
    decreases pieces.len() - i,
{
    if i < 0 || i >= pieces.len() {
        Seq::empty()
    } else if numbered(pieces[i]) == index {
        worded(pieces[i].get2("function"@, "name"@)) + name_from(pieces, i + 1, index)
    } else {
        name_from(pieces, i + 1, index)
    }
}

/// The last id that the pieces from a position on bring for one call.
pub open spec fn id_from(pieces: Seq<JsonV>, i: int, index: u64, known: Seq<char>) -> Seq<char>
    decreases pieces.len() - i,
{
    if i < 0 || i >= pieces.len() {
        known
    } else if numbered(pieces[i]) == index && worded(pieces[i].get("id"@)).len() > 0 {
        id_from(pieces, i + 1, index, worded(pieces[i].get("id"@)))
    } else {
        id_from(pieces, i + 1, index, known)
    }
}

/// Some piece from a position on is of the call.
pub open spec fn touched_from(pieces: Seq<JsonV>, i: int, index: u64) -> bool {
    exists|j: int| i <= j < pieces.len() && numbered(#[trigger] pieces[j]) == index
}

/// The pieces put a call together: its arguments and its name grow by what the pieces of its number
/// bring, in order; its id is the last that they bring; and no other call changes.
#[verifier::spinoff_prover]
pub proof fn pieces_put_calls_together(
    calls: Seq<(u64, ChatCallV)>,
    pieces: Seq<JsonV>,
    i: int,
    index: u64,
)
    requires
        rising(calls),
        0 <= i <= pieces.len(),
        put_calls(calls, pieces, i).1 is Ok,
    ensures
        ({
            let after = put_calls(calls, pieces, i).0;
            let before = call_at(calls, index);
            let call = call_at(after, index);
            &&& rising(after)
            &&& call.arguments == before.arguments + arguments_from(pieces, i, index)
            &&& call.name == before.name + name_from(pieces, i, index)
            &&& call.id == id_from(pieces, i, index, before.id)
            &&& slot(after, index) is Some <==> slot(calls, index) is Some || touched_from(
                pieces,
                i,
                index,
            )
        }),
    decreases pieces.len() - i,
{
    let before = call_at(calls, index);
    if i < pieces.len() {
        let piece = pieces[i];
        let at = piece.u64_or_zero("index"@);
        assert(at == numbered(piece));
        let (changed, r) = call_delta(call_at(calls, at), piece);
        let next = put(calls, at, changed);
        put_fills_one_slot(calls, at, changed);
        pieces_put_calls_together(next, pieces, i + 1, index);
        let rest = arguments_from(pieces, i + 1, index);
        let names = name_from(pieces, i + 1, index);
        if touched_from(pieces, i + 1, index) {
            let j = choose|j: int|
                i + 1 <= j < pieces.len() && numbered(#[trigger] pieces[j]) == index;
            assert(numbered(pieces[j]) == index);
        }
        if touched_from(pieces, i, index) && at != index {
            let j = choose|j: int|
                i <= j < pieces.len() && numbered(#[trigger] pieces[j]) == index;
            assert(numbered(pieces[j]) == index && j != i);
            assert(touched_from(pieces, i + 1, index));
        }
        if at == index {
            assert(numbered(pieces[i]) == index);
            let one = brought(piece.get2("function"@, "arguments"@));
            let name = worded(piece.get2("function"@, "name"@));
            assert(changed.arguments =~= before.arguments + one);
            assert(changed.name =~= before.name + name);
            assert((before.arguments + one) + rest =~= before.arguments + (one + rest));
            assert((before.name + name) + names =~= before.name + (name + names));
            assert(changed.id == if worded(piece.get("id"@)).len() > 0 {
                worded(piece.get("id"@))
            } else {
                before.id
            });
        } else {
            assert(slot(next, index) == slot(calls, index));
        }
    } else {
        assert(before.arguments + Seq::<char>::empty() =~= before.arguments);
        assert(before.name + Seq::<char>::empty() =~= before.name);
    }
}

/// Cutting the arguments in a piece in two does not matter: the piece with the first half, followed
/// by one of the same number with the other half, leaves every call as the whole piece does.
pub proof fn cutting_arguments_does_not_matter(
    calls: Seq<(u64, ChatCallV)>,
    whole: JsonV,
    head: JsonV,
    tail: JsonV,
    index: u64,
)
    requires
        rising(calls),
        put_calls(calls, seq![whole], 0).1 is Ok,
        put_calls(calls, seq![head, tail], 0).1 is Ok,
        numbered(head) == numbered(whole),
        numbered(tail) == numbered(whole),
        head.get("id"@) == whole.get("id"@),
        head.get2("function"@, "name"@) == whole.get2("function"@, "name"@),
        tail.get("id"@) is None,
        tail.get2("function"@, "name"@) is None,
        brought(whole.get2("function"@, "arguments"@)) == brought(
            head.get2("function"@, "arguments"@),
        ) + brought(tail.get2("function"@, "arguments"@)),
    ensures
        ({
            let a = call_at(put_calls(calls, seq![whole], 0).0, index);
            let b = call_at(put_calls(calls, seq![head, tail], 0).0, index);
            a.id == b.id && a.name == b.name && a.arguments == b.arguments
        }),
{
    pieces_put_calls_together(calls, seq![whole], 0, index);
    pieces_put_calls_together(calls, seq![head, tail], 0, index);
    reveal_with_fuel(arguments_from, 4);
    reveal_with_fuel(name_from, 4);
    reveal_with_fuel(id_from, 4);
    let a = brought(head.get2("function"@, "arguments"@));
    let b = brought(tail.get2("function"@, "arguments"@));
    let none = Seq::<char>::empty();
    assert(seq![whole][0] == whole && seq![head, tail][0] == head && seq![head, tail][1] == tail);
    assert((a + b) + none =~= a + (b + none));
    let name = worded(head.get2("function"@, "name"@));
    assert(name + (none + none) =~= name + none);
}

/// The delta of a choice: a choice of a whole completion has a message in its place.
pub open spec fn delta_in(choice: JsonV) -> JsonV {
    match choice.get("delta"@) {
        Some(delta) => delta,
        None => choice.at("message"@),
    }
}

/// The pieces of tool calls in a delta.
pub open spec fn pieces_in(delta: JsonV) -> Seq<JsonV> {
    match delta.get("tool_calls"@) {
        Some(JsonV::Array(pieces)) => pieces,
        _ => Seq::empty(),
    }
}

/// The arguments that the choices from a position on bring for one call. Only the first choice
/// counts; a call of the older form is the call in the first place.
pub open spec fn chosen_arguments(choices: Seq<JsonV>, i: int, index: u64) -> Seq<char>
    decreases choices.len() - i,
{
    if i < 0 || i >= choices.len() {
        Seq::empty()
    } else if numbered(choices[i]) == 0 {
        let delta = delta_in(choices[i]);
        arguments_from(pieces_in(delta), 0, index) + (if index == 0 {
            brought(delta.get2("function_call"@, "arguments"@))
        } else {
            Seq::empty()
        }) + chosen_arguments(choices, i + 1, index)
    } else {
        chosen_arguments(choices, i + 1, index)
    }
}

pub open spec fn chosen_names(choices: Seq<JsonV>, i: int, index: u64) -> Seq<char>
    decreases choices.len() - i,
{
    if i < 0 || i >= choices.len() {
        Seq::empty()
    } else if numbered(choices[i]) == 0 {
        let delta = delta_in(choices[i]);
        name_from(pieces_in(delta), 0, index) + (if index == 0 {
            worded(delta.get2("function_call"@, "name"@))
        } else {
            Seq::empty()
        }) + chosen_names(choices, i + 1, index)
    } else {
        chosen_names(choices, i + 1, index)
    }
}

/// The text that a delta brings.
pub open spec fn content_in(delta: JsonV) -> Seq<char> {
    match delta.get("content"@) {
        Some(JsonV::Str(s)) => s,
        Some(content) => content_text(content),
        None => Seq::empty(),
    }
}

/// The text that the choices from a position on bring.
pub open spec fn chosen_content(choices: Seq<JsonV>, i: int) -> Seq<char>
    decreases choices.len() - i,
{
    if i < 0 || i >= choices.len() {
        Seq::empty()
    } else if numbered(choices[i]) == 0 {
        content_in(delta_in(choices[i])) + chosen_content(choices, i + 1)
    } else {
        chosen_content(choices, i + 1)
    }
}

/// The refusal that the choices from a position on bring.
pub open spec fn chosen_refusal(choices: Seq<JsonV>, i: int) -> Seq<char>
    decreases choices.len() - i,
{
    if i < 0 || i >= choices.len() {
        Seq::empty()
    } else if numbered(choices[i]) == 0 {
        worded(delta_in(choices[i]).get("refusal"@)) + chosen_refusal(choices, i + 1)
    } else {
        chosen_refusal(choices, i + 1)
    }
}

/// The last reason to end that the choices from a position on bring.
pub open spec fn chosen_reason(choices: Seq<JsonV>, i: int, known: Option<Seq<char>>) -> Option<
    Seq<char>,
>
    decreases choices.len() - i,
{
    if i < 0 || i >= choices.len() {
        known
    } else {
        chosen_reason(
            choices,
            i + 1,
            match choices[i].get("finish_reason"@) {
                Some(JsonV::Str(s)) => if numbered(choices[i]) == 0 {
                    Some(s)
                } else {
                    known
                },
                _ => known,
            },
        )
    }
}

proof fn lemma_choice_grows(state: ChatState, choice: JsonV, index: u64)
    requires
        rising(state.tool_calls),
        choice_step(state, choice).1 is Ok,
    ensures
        ({
            let after = choice_step(state, choice).0;
            let counts = numbered(choice) == 0;
            let delta = delta_in(choice);
            let before = call_at(state.tool_calls, index);
            let call = call_at(after.tool_calls, index);
            let none = Seq::<char>::empty();
            &&& rising(after.tool_calls)
            &&& call.arguments == before.arguments + if counts {
                arguments_from(pieces_in(delta), 0, index) + (if index == 0 {
                    brought(delta.get2("function_call"@, "arguments"@))
                } else {
                    none
                })
            } else {
                none
            }
            &&& call.name == before.name + if counts {
                name_from(pieces_in(delta), 0, index) + (if index == 0 {
                    worded(delta.get2("function_call"@, "name"@))
                } else {
                    none
                })
            } else {
                none
            }
            &&& state.retain_text ==> after.content == state.content + if counts {
                content_in(delta)
            } else {
                none
            }
            &&& state.retain_text ==> after.refusal == state.refusal + if counts {
                worded(delta.get("refusal"@))
            } else {
                none
            }
            &&& after.finish_reason == match choice.get("finish_reason"@) {
                Some(JsonV::Str(s)) => if counts {
                    Some(s)
                } else {
                    state.finish_reason
                },
                _ => state.finish_reason,
            }
            &&& after.retain_text == state.retain_text && after.id == state.id && after.created
                == state.created && after.model == state.model && after.usage == state.usage
                && after.done == state.done
        }),
{
    let none = Seq::<char>::empty();
    let before = call_at(state.tool_calls, index);
    assert(before.arguments + none =~= before.arguments);
    assert(before.name + none =~= before.name);
    assert(state.content + none =~= state.content);
    assert(state.refusal + none =~= state.refusal);
    assert(none + none =~= none);
    assert(choice.u64_or_zero("index"@) == numbered(choice));
    if numbered(choice) == 0 {
        let delta = delta_in(choice);
        match choice_delta(choice) {
            None => {
                assert(!delta.is_object());
                assert(pieces_in(delta) =~= Seq::<JsonV>::empty());
                assert(arguments_from(pieces_in(delta), 0, index) =~= none);
                assert(name_from(pieces_in(delta), 0, index) =~= none);
            },
            Some(d) => {
                assert(d == delta);
                let ended = ChatState {
                    finish_reason: match choice.get_str("finish_reason"@) {
                        Some(s) => Some(s),
                        None => state.finish_reason,
                    },
                    ..state
                };
                let said = said_step(ended, delta);
                let pieces = pieces_in(delta);
                let (listed, r) = listed_step(said, delta);
                if let Some(JsonV::Array(p)) = delta.get("tool_calls"@) {
                    pieces_put_calls_together(state.tool_calls, p, 0, index);
                    pieces_put_calls_together(state.tool_calls, p, 0, 0);
                } else {
                    assert(pieces =~= Seq::<JsonV>::empty());
                    assert(arguments_from(pieces, 0, index) =~= none);
                    assert(name_from(pieces, 0, index) =~= none);
                    assert(arguments_from(pieces, 0, 0) =~= none);
                    assert(name_from(pieces, 0, 0) =~= none);
                }
                let middle = call_at(listed.tool_calls, index);
                let a = arguments_from(pieces, 0, index);
                let b = name_from(pieces, 0, index);
                assert(middle.arguments =~= before.arguments + a);
                assert(middle.name =~= before.name + b);
                if let Some(function) = delta.get("function_call"@) {
                    let first = call_at(listed.tool_calls, 0);
                    put_fills_one_slot(listed.tool_calls, 0, function_delta(first, function));
                    let c = brought(function.get("arguments"@));
                    let d2 = worded(function.get("name"@));
                    assert((before.arguments + a) + c =~= before.arguments + (a + c));
                    assert((before.name + b) + d2 =~= before.name + (b + d2));
                    assert(before.arguments + a =~= before.arguments + (a + none));
                    assert(before.name + b =~= before.name + (b + none));
                } else {
                    assert(before.arguments + a =~= before.arguments + (a + none));
                    assert(before.name + b =~= before.name + (b + none));
                }
            },
        }
    }
}

/// What a chunk brings is added to what was there, and nothing is lost: the arguments and the name of
/// each call, the text and the refusal grow by what the first choice brings, in order.
pub proof fn choices_add_what_they_bring(
    state: ChatState,
    choices: Seq<JsonV>,
    i: int,
    index: u64,
)
    requires
        rising(state.tool_calls),
        0 <= i <= choices.len(),
        choices_step(state, choices, i).1 is Ok,
    ensures
        ({
            let after = choices_step(state, choices, i).0;
            let before = call_at(state.tool_calls, index);
            let call = call_at(after.tool_calls, index);
            &&& rising(after.tool_calls)
            &&& call.arguments == before.arguments + chosen_arguments(choices, i, index)
            &&& call.name == before.name + chosen_names(choices, i, index)
            &&& state.retain_text ==> after.content == state.content + chosen_content(choices, i)
            &&& state.retain_text ==> after.refusal == state.refusal + chosen_refusal(choices, i)
            &&& after.finish_reason == chosen_reason(choices, i, state.finish_reason)
            &&& after.retain_text == state.retain_text && after.id == state.id && after.created
                == state.created && after.model == state.model && after.usage == state.usage
                && after.done == state.done
        }),
    decreases choices.len() - i,
{
    let none = Seq::<char>::empty();
    let before = call_at(state.tool_calls, index);
    if i < choices.len() {
        let choice = choices[i];
        let next = choice_step(state, choice).0;
        lemma_choice_grows(state, choice, index);
        choices_add_what_they_bring(next, choices, i + 1, index);
        let middle = call_at(next.tool_calls, index);
        let a = chosen_arguments(choices, i + 1, index);
        let b = chosen_names(choices, i + 1, index);
        let delta = delta_in(choice);
        if numbered(choice) == 0 {
            let x = arguments_from(pieces_in(delta), 0, index) + (if index == 0 {
                brought(delta.get2("function_call"@, "arguments"@))
            } else {
                none
            });
            let y = name_from(pieces_in(delta), 0, index) + (if index == 0 {
                worded(delta.get2("function_call"@, "name"@))
            } else {
                none
            });
            assert((before.arguments + x) + a =~= before.arguments + (x + a));
            assert((before.name + y) + b =~= before.name + (y + b));
            let t = content_in(delta);
            let u = worded(delta.get("refusal"@));
            assert((state.content + t) + chosen_content(choices, i + 1) =~= state.content + (t
                + chosen_content(choices, i + 1)));
            assert((state.refusal + u) + chosen_refusal(choices, i + 1) =~= state.refusal + (u
                + chosen_refusal(choices, i + 1)));
        } else {
            assert(before.arguments + none =~= before.arguments);
            assert(before.name + none =~= before.name);
            assert(state.content + none =~= state.content);
            assert(state.refusal + none =~= state.refusal);
        }
    } else {
        assert(before.arguments + none =~= before.arguments);
        assert(before.name + none =~= before.name);
        assert(state.content + none =~= state.content);
        assert(state.refusal + none =~= state.refusal);
    }
}

/// The choices of a chunk.
pub open spec fn choices_in(chunk: JsonV) -> Seq<JsonV> {
    match chunk.get("choices"@) {
        Some(JsonV::Array(choices)) => choices,
        _ => Seq::empty(),
    }
}

/// The chunks from a position on, taken in one after the other.
pub open spec fn taken_in(state: ChatState, chunks: Seq<JsonV>, i: int) -> (ChatState, Result<
    (),
    FailureV,
>)
    decreases chunks.len() - i,
{
    if i < 0 || i >= chunks.len() {
        (state, Ok(()))
    } else {
        let (next, r) = chat_step(state, chunks[i]);
        if r is Err {
            (next, r)
        } else {
            taken_in(next, chunks, i + 1)
        }
    }
}

/// The arguments that the chunks from a position on bring for one call.
pub open spec fn streamed_arguments(chunks: Seq<JsonV>, i: int, index: u64) -> Seq<char>
    decreases chunks.len() - i,
{
    if i < 0 || i >= chunks.len() {
        Seq::empty()
    } else {
        chosen_arguments(choices_in(chunks[i]), 0, index) + streamed_arguments(
            chunks,
            i + 1,
            index,
        )
    }
}

pub open spec fn streamed_names(chunks: Seq<JsonV>, i: int, index: u64) -> Seq<char>
    decreases chunks.len() - i,
{
    if i < 0 || i >= chunks.len() {
        Seq::empty()
    } else {
        chosen_names(choices_in(chunks[i]), 0, index) + streamed_names(chunks, i + 1, index)
    }
}

/// The text that the chunks from a position on bring.
pub open spec fn streamed_content(chunks: Seq<JsonV>, i: int) -> Seq<char>
    decreases chunks.len() - i,
{
    if i < 0 || i >= chunks.len() {
        Seq::empty()
    } else {
        chosen_content(choices_in(chunks[i]), 0) + streamed_content(chunks, i + 1)
    }
}

/// The last usage that the chunks from a position on bring.
pub open spec fn streamed_usage(chunks: Seq<JsonV>, i: int, known: Option<JsonV>) -> Option<JsonV>
    decreases chunks.len() - i,
{
    if i < 0 || i >= chunks.len() {
        known
    } else {
        streamed_usage(
            chunks,
            i + 1,
            match chunks[i].get("usage"@) {
                None => known,
                Some(JsonV::Null) => known,
                Some(u) => Some(u),
            },
        )
    }
}

proof fn lemma_chunk_adds(state: ChatState, chunk: JsonV, index: u64)
    requires
        rising(state.tool_calls),
        chat_step(state, chunk).1 is Ok,
    ensures
        ({
            let after = chat_step(state, chunk).0;
            let before = call_at(state.tool_calls, index);
            let call = call_at(after.tool_calls, index);
            let choices = choices_in(chunk);
            &&& rising(after.tool_calls)
            &&& call.arguments == before.arguments + chosen_arguments(choices, 0, index)
            &&& call.name == before.name + chosen_names(choices, 0, index)
            &&& state.retain_text ==> after.content == state.content + chosen_content(choices, 0)
            &&& state.retain_text ==> after.refusal == state.refusal + chosen_refusal(choices, 0)
            &&& after.finish_reason == chosen_reason(choices, 0, state.finish_reason)
            &&& after.usage == match chunk.get("usage"@) {
                None => state.usage,
                Some(JsonV::Null) => state.usage,
                Some(u) => Some(u),
            }
            &&& after.retain_text == state.retain_text && after.done == state.done
        }),
{
    let head = head_step(state, chunk);
    let choices = choices_in(chunk);
    choices_add_what_they_bring(head, choices, 0, index);
}

/// At the end of a stream each tool call has the arguments that all the chunks brought for it, in the
/// order in which they came, and so has its name; the text is all that was said; and the usage is the
/// last that was told.
pub proof fn a_stream_puts_its_pieces_together(
    state: ChatState,
    chunks: Seq<JsonV>,
    i: int,
    index: u64,
)
    requires
        rising(state.tool_calls),
        0 <= i <= chunks.len(),
        taken_in(state, chunks, i).1 is Ok,
    ensures
        ({
            let after = taken_in(state, chunks, i).0;
            let before = call_at(state.tool_calls, index);
            let call = call_at(after.tool_calls, index);
            &&& rising(after.tool_calls)
            &&& call.arguments == before.arguments + streamed_arguments(chunks, i, index)
            &&& call.name == before.name + streamed_names(chunks, i, index)
            &&& state.retain_text ==> after.content == state.content + streamed_content(chunks, i)
            &&& after.usage == streamed_usage(chunks, i, state.usage)
        }),
    decreases chunks.len() - i,
{
    let none = Seq::<char>::empty();
    let before = call_at(state.tool_calls, index);
    if i < chunks.len() {
        let next = chat_step(state, chunks[i]).0;
        lemma_chunk_adds(state, chunks[i], index);
        a_stream_puts_its_pieces_together(next, chunks, i + 1, index);
        let choices = choices_in(chunks[i]);
        let x = chosen_arguments(choices, 0, index);
        let y = chosen_names(choices, 0, index);
        let z = chosen_content(choices, 0);
        assert((before.arguments + x) + streamed_arguments(chunks, i + 1, index)
            =~= before.arguments + (x + streamed_arguments(chunks, i + 1, index)));
        assert((before.name + y) + streamed_names(chunks, i + 1, index) =~= before.name + (y
            + streamed_names(chunks, i + 1, index)));
        assert((state.content + z) + streamed_content(chunks, i + 1) =~= state.content + (z
            + streamed_content(chunks, i + 1)));
    } else {
        assert(before.arguments + none =~= before.arguments);
        assert(before.name + none =~= before.name);
        assert(state.content + none =~= state.content);
    }
}

proof fn lemma_document_names()
    ensures
        "id"@.len() == 2,
        "object"@.len() == 6,
        "created"@.len() == 7 && "created"@[1] == 'r',
        "choices"@.len() == 7 && "choices"@[1] == 'h',
        "model"@.len() == 5 && "model"@[0] == 'm',
        "usage"@.len() == 5 && "usage"@[0] == 'u',
        "error"@.len() == 5 && "error"@[0] == 'e',
        "response"@.len() == 8,
        "code"@.len() == 4 && "code"@[0] == 'c',
        "role"@.len() == 4 && "role"@[0] == 'r',
        "type"@.len() == 4 && "type"@[0] == 't',
        "name"@.len() == 4 && "name"@[0] == 'n',
        "content"@.len() == 7 && "content"@[0] == 'c',
        "refusal"@.len() == 7 && "refusal"@[0] == 'r',
        "message"@.len() == 7 && "message"@[0] == 'm',
        "tool_calls"@.len() == 10,
        "index"@.len() == 5 && "index"@[0] == 'i',
        "finish_reason"@.len() == 13 && "finish_reason"@[1] == 'i',
        "function_call"@.len() == 13 && "function_call"@[1] == 'u',
        "function"@.len() == 8 && "function"@[0] == 'f',
        "arguments"@.len() == 9,
        "annotations"@.len() == 11,
{
    reveal_strlit("id");
    reveal_strlit("object");
    reveal_strlit("created");
    reveal_strlit("choices");
    reveal_strlit("model");
    reveal_strlit("usage");
    reveal_strlit("error");
    reveal_strlit("response");
    reveal_strlit("code");
    reveal_strlit("role");
    reveal_strlit("type");
    reveal_strlit("name");
    reveal_strlit("content");
    reveal_strlit("refusal");
    reveal_strlit("message");
    reveal_strlit("tool_calls");
    reveal_strlit("index");
    reveal_strlit("finish_reason");
    reveal_strlit("function_call");
    reveal_strlit("function");
    reveal_strlit("arguments");
    reveal_strlit("annotations");
}

/// A tool call of a completion as its document says it.
pub open spec fn says_call(value: JsonV, id: Seq<char>, name: Seq<char>, arguments: Seq<char>) -> bool {
    &&& value.is_object()
    &&& value.get("id"@) == Some(JsonV::Str(id))
    &&& value.get("type"@) == Some(JsonV::Str("function"@))
    &&& value.get2("function"@, "name"@) == Some(JsonV::Str(name))
    &&& value.get2("function"@, "arguments"@) == Some(JsonV::Str(arguments))
}

/// The id of a call: its own, or the fresh one where the upstream gave none.
pub open spec fn own_or_fresh(own: Seq<char>, fresh: Seq<char>) -> Seq<char> {
    if own.len() > 0 {
        own
    } else {
        fresh
    }
}

proof fn lemma_call_values(calls: Seq<(u64, ChatCallV)>, fresh: Seq<Seq<char>>)
    requires
        call_values(calls, fresh) is Ok,
    ensures
        ({
            let values = call_values(calls, fresh)->Ok_0;
            &&& values.len() == calls.len()
            &&& forall|k: int|
                0 <= k < calls.len() ==> says_call(
                    #[trigger] values[k],
                    own_or_fresh(calls[k].1.id, fresh[k]),
                    calls[k].1.name,
                    calls[k].1.arguments,
                ) && calls[k].1.name.len() > 0
        }),
    decreases calls.len(),
{
    if calls.len() > 0 {
        lemma_document_names();
        let rest = calls.drop_last();
        lemma_call_values(rest, fresh);
        let values = call_values(calls, fresh)->Ok_0;
        let before = call_values(rest, fresh)->Ok_0;
        assert forall|k: int| 0 <= k < calls.len() implies says_call(
            #[trigger] values[k],
            own_or_fresh(calls[k].1.id, fresh[k]),
            calls[k].1.name,
            calls[k].1.arguments,
        ) && calls[k].1.name.len() > 0 by {
            if k < rest.len() {
                assert(values[k] == before[k]);
                assert(rest[k] == calls[k]);
            } else {
                assert(values[k] == call_value(calls[k].1, fresh[k]));
            }
        }
    }
}

/// The completion of a stream says what the stream brought: the id, the time, the model and the usage
/// of it; and in its one choice the text, the refusal, the reason to end, and each tool call with its
/// name and its whole arguments, in the order of their numbers.
#[verifier::rlimit(40)]
#[verifier::spinoff_prover]
pub proof fn a_completion_says_what_was_streamed(
    state: ChatState,
    done: bool,
    fresh: Seq<Seq<char>>,
)
    requires
        streamed_chat(state, done, fresh) is Ok,
    ensures
        ({
            let chat = streamed_chat(state, done, fresh)->Ok_0;
            let choices = chat.get_array("choices"@)->0;
            let message = choices[0].at("message"@);
            &&& chat.get("id"@) == Some(JsonV::Str(state.id))
            &&& chat.get("created"@) == Some(JsonV::signed(state.created))
            &&& chat.get("model"@) == Some(JsonV::Str(state.model))
            &&& chat.get("usage"@) == state.usage
            &&& chat.get("error"@) is None && chat.get("response"@) is None && chat.get(
                "code"@,
            ) is None
            &&& chat.get_array("choices"@) is Some && choices.len() == 1
            &&& choices[0].is_object() && choices[0].get("message"@) is Some && message.is_object()
            &&& choices[0].get("finish_reason"@) == Some(
                match state.finish_reason {
                    Some(reason) => JsonV::Str(reason),
                    None => JsonV::Null,
                },
            )
            &&& message.get("role"@) == Some(JsonV::Str("assistant"@))
            &&& message.get("content"@) == Some(
                if state.content.len() > 0 {
                    JsonV::Str(state.content)
                } else {
                    JsonV::Null
                },
            )
            &&& message.get("refusal"@) == if state.refusal.len() > 0 {
                Some(JsonV::Str(state.refusal))
            } else {
                None
            }
            &&& message.get("function_call"@) is None
            &&& message.get("annotations"@) is None
            &&& match message.get("tool_calls"@) {
                None => state.tool_calls.len() == 0,
                Some(JsonV::Array(calls)) => calls.len() == state.tool_calls.len() && calls.len()
                    > 0 && forall|k: int|
                    0 <= k < calls.len() ==> says_call(
                        #[trigger] calls[k],
                        own_or_fresh(state.tool_calls[k].1.id, fresh[k]),
                        state.tool_calls[k].1.name,
                        state.tool_calls[k].1.arguments,
                    ) && state.tool_calls[k].1.name.len() > 0,
                Some(_) => false,
            }
        }),
{
    lemma_document_names();
    lemma_call_values(state.tool_calls, fresh);
}

proof fn lemma_calls_read(calls: Seq<JsonV>, n: int)
    requires
        0 <= n <= calls.len(),
        forall|k: int|
            0 <= k < n ==> (#[trigger] calls[k]).is_object() && worded(
                calls[k].get2("function"@, "name"@),
            ).len() > 0 && (calls[k].get("type"@) matches Some(JsonV::Str(t)) ==> t
                == "function"@),
    ensures
        chat_calls(calls.subrange(0, n)) matches Ok(read) && read.len() == n && forall|k: int|
            0 <= k < n ==> reads_call(calls[k], #[trigger] read[k]),
    decreases n,
{
    if n > 0 {
        lemma_calls_read(calls, n - 1);
        assert(calls.subrange(0, n).drop_last() =~= calls.subrange(0, n - 1));
        assert(calls.subrange(0, n).last() == calls[n - 1]);
        let before = chat_calls(calls.subrange(0, n - 1))->Ok_0;
        let read = chat_calls(calls.subrange(0, n))->Ok_0;
        assert(calls[n - 1].is_object());
        assert forall|k: int| 0 <= k < n implies reads_call(calls[k], #[trigger] read[k]) by {
            if k < n - 1 {
                assert(read[k] == before[k]);
            }
        }
    }
}

/// A tool call that was read is the one in the document: its name, its arguments, an empty object
/// where it has none, and its id, where it has one.
pub open spec fn reads_call(value: JsonV, call: ToolCallV) -> bool {
    &&& call.name == worded(value.get2("function"@, "name"@))
    &&& call.arguments == match value.get2("function"@, "arguments"@) {
        None => "{}"@,
        Some(JsonV::Null) => "{}"@,
        Some(JsonV::Str(s)) => s,
        Some(v) => json_text(v),
    }
    &&& call.call_id == if worded(value.get("id"@)).len() > 0 {
        Some(worded(value.get("id"@)))
    } else {
        None
    }
}

/// The message in the first choice of a completion.
pub open spec fn message_in(chat: JsonV) -> JsonV {
    let choice = choices_in(chat)[0];
    match choice.get("message"@) {
        Some(message) => message,
        None => choice.at("delta"@),
    }
}

/// What is read of a completion is what its first choice says: the text, the refusal, the reason to
/// end, and every tool call, in order.
pub proof fn a_completion_is_read_in_full(chat: JsonV)
    requires
        chat.get("error"@) is None && chat.get("response"@) is None && chat.get("code"@) is None,
        choices_in(chat).len() > 0,
        choices_in(chat)[0].is_object(),
        message_in(chat).is_object(),
        message_in(chat).get("tool_calls"@) matches Some(v) ==> v is Array,
        forall|k: int|
            0 <= k < pieces_in(message_in(chat)).len() ==> {
                let call = #[trigger] pieces_in(message_in(chat))[k];
                call.is_object() && worded(call.get2("function"@, "name"@)).len() > 0 && (call.get(
                    "type"@,
                ) matches Some(JsonV::Str(t)) ==> t == "function"@)
            },
        message_in(chat).get("function_call"@) is None,
    ensures
        ({
            let message = message_in(chat);
            let calls = pieces_in(message);
            chat_parts(chat) matches Ok(parts) && parts.text == content_in(message)
                && parts.refusal == worded(message.get("refusal"@)) && parts.annotations == (
            match message.get("annotations"@) {
                Some(JsonV::Array(a)) => JsonV::Array(a),
                _ => JsonV::Array(Seq::empty()),
            }) && parts.finish_reason == (match choices_in(chat)[0].get("finish_reason"@) {
                Some(JsonV::Str(reason)) => Some(reason),
                _ => None,
            }) && parts.calls.len() == calls.len() && forall|k: int|
                0 <= k < calls.len() ==> reads_call(calls[k], #[trigger] parts.calls[k])
        }),
{
    let calls = pieces_in(message_in(chat));
    lemma_no_error(chat);
    lemma_calls_read(calls, calls.len() as int);
    assert(calls.subrange(0, calls.len() as int) =~= calls);
}

/// What is read of the completion of a stream is what the stream brought: all of its text, and each
/// tool call with its name and its whole arguments.
pub proof fn a_streamed_completion_is_read_back(
    state: ChatState,
    done: bool,
    fresh: Seq<Seq<char>>,
)
    requires
        streamed_chat(state, done, fresh) is Ok,
        forall|k: int| 0 <= k < fresh.len() ==> (#[trigger] fresh[k]).len() > 0,
        fresh.len() >= state.tool_calls.len(),
    ensures
        ({
            let chat = streamed_chat(state, done, fresh)->Ok_0;
            chat_parts(chat) matches Ok(parts) && parts.text == state.content && parts.refusal
                == state.refusal && parts.finish_reason == state.finish_reason
                && parts.calls.len() == state.tool_calls.len() && forall|k: int|
                0 <= k < parts.calls.len() ==> (#[trigger] parts.calls[k]).name
                    == state.tool_calls[k].1.name && parts.calls[k].arguments
                    == state.tool_calls[k].1.arguments && parts.calls[k].call_id == Some(
                    own_or_fresh(state.tool_calls[k].1.id, fresh[k]),
                )
        }),
{
    a_completion_says_what_was_streamed(state, done, fresh);
    let chat = streamed_chat(state, done, fresh)->Ok_0;
    let message = message_in(chat);
    let calls = pieces_in(message);
    assert(message == choices_in(chat)[0].at("message"@));
    if state.tool_calls.len() == 0 {
        assert(calls =~= Seq::<JsonV>::empty());
    }
    assert forall|k: int| 0 <= k < calls.len() implies {
        let call = #[trigger] calls[k];
        call.is_object() && worded(call.get2("function"@, "name"@)).len() > 0 && (call.get(
            "type"@,
        ) matches Some(JsonV::Str(t)) ==> t == "function"@)
    } by {
        assert(says_call(
            calls[k],
            own_or_fresh(state.tool_calls[k].1.id, fresh[k]),
            state.tool_calls[k].1.name,
            state.tool_calls[k].1.arguments,
        ));
    }
    a_completion_is_read_in_full(chat);
    let parts = chat_parts(chat)->Ok_0;
    assert(state.content.len() == 0 ==> state.content =~= Seq::<char>::empty());
    assert(state.refusal.len() == 0 ==> state.refusal =~= Seq::<char>::empty());
    assert forall|k: int| 0 <= k < parts.calls.len() implies (#[trigger] parts.calls[k]).name
        == state.tool_calls[k].1.name && parts.calls[k].arguments
        == state.tool_calls[k].1.arguments && parts.calls[k].call_id == Some(
        own_or_fresh(state.tool_calls[k].1.id, fresh[k]),
    ) by {
        assert(reads_call(calls[k], parts.calls[k]));
        assert(says_call(
            calls[k],
            own_or_fresh(state.tool_calls[k].1.id, fresh[k]),
            state.tool_calls[k].1.name,
            state.tool_calls[k].1.arguments,
        ));
    }
}

proof fn lemma_no_error(chat: JsonV)
    requires
        chat.get("error"@) is None,
        chat.get("response"@) is None,
        chat.get("code"@) is None,
    ensures
        !context_length_error(chat),
{
    let places = error_code_places(chat);
    reveal_with_fuel(first_string, 6);
    assert(first_string(places) is None);
}

/// A whole number, or zero.
pub open spec fn counted(value: Option<JsonV>) -> u64 {
    match value {
        Some(JsonV::Unsigned(n)) => n,
        _ => 0,
    }
}

/// One of two members: the first where it is there.
pub open spec fn one_of(value: JsonV, first: Seq<char>, second: Seq<char>) -> Option<JsonV> {
    if value.get(first) is Some {
        value.get(first)
    } else {
        value.get(second)
    }
}

proof fn lemma_usage_names()
    ensures
        "input_tokens"@.len() == 12 && "input_tokens"@[2] == 'p',
        "output_tokens"@.len() == 13 && "output_tokens"@[0] == 'o',
        "total_tokens"@.len() == 12 && "total_tokens"@[2] == 't',
        "input_tokens_details"@.len() == 20,
        "output_tokens_details"@.len() == 21,
{
    reveal_strlit("input_tokens");
    reveal_strlit("output_tokens");
    reveal_strlit("total_tokens");
    reveal_strlit("input_tokens_details");
    reveal_strlit("output_tokens_details");
}

/// Every count of the usage arrives: the tokens of the prompt, how many of them were cached, those of
/// the answer, how many of them were thought, and the total, which is their sum where the upstream
/// does not tell it.
pub proof fn every_count_arrives(usage: JsonV)
    ensures
        ({
            let told = chat_usage(usage);
            let input = counted(one_of(usage, "prompt_tokens"@, "input_tokens"@));
            let output = counted(one_of(usage, "completion_tokens"@, "output_tokens"@));
            &&& told.get("input_tokens"@) == Some(JsonV::Unsigned(input))
            &&& told.get("output_tokens"@) == Some(JsonV::Unsigned(output))
            &&& told.get2("input_tokens_details"@, "cached_tokens"@) == Some(
                JsonV::Unsigned(
                    match one_of(usage, "prompt_tokens_details"@, "input_tokens_details"@) {
                        Some(details) => counted(details.get("cached_tokens"@)),
                        None => 0,
                    },
                ),
            )
            &&& told.get2("output_tokens_details"@, "reasoning_tokens"@) == Some(
                JsonV::Unsigned(
                    match one_of(usage, "completion_tokens_details"@, "output_tokens_details"@) {
                        Some(details) => counted(details.get("reasoning_tokens"@)),
                        None => 0,
                    },
                ),
            )
            &&& told.get("total_tokens"@) == Some(
                JsonV::Unsigned(
                    match usage.get("total_tokens"@) {
                        Some(JsonV::Unsigned(total)) => total,
                        _ => if input + output <= u64::MAX {
                            (input + output) as u64
                        } else {
                            u64::MAX
                        },
                    },
                ),
            )
        }),
{
    lemma_usage_names();
}

proof fn lemma_response_names()
    ensures
        "id"@.len() == 2,
        "object"@.len() == 6 && "object"@[0] == 'o' && "object"@[1] == 'b',
        "created_at"@.len() == 10,
        "status"@.len() == 6 && "status"@[0] == 's',
        "model"@.len() == 5 && "model"@[0] == 'm',
        "output"@.len() == 6 && "output"@[0] == 'o' && "output"@[1] == 'u',
        "output_text"@.len() == 11,
        "error"@.len() == 5 && "error"@[0] == 'e',
        "incomplete_details"@.len() == 18,
        "usage"@.len() == 5 && "usage"@[0] == 'u',
        "type"@.len() == 4 && "type"@[0] == 't' && "type"@[1] == 'y',
        "role"@.len() == 4 && "role"@[0] == 'r',
        "text"@.len() == 4 && "text"@[0] == 't' && "text"@[1] == 'e',
        "content"@.len() == 7 && "content"@[0] == 'c',
        "refusal"@.len() == 7 && "refusal"@[0] == 'r',
        "annotations"@.len() == 11,
        "length"@.len() == 6,
        "content_filter"@.len() == 14,
{
    reveal_strlit("id");
    reveal_strlit("object");
    reveal_strlit("created_at");
    reveal_strlit("status");
    reveal_strlit("model");
    reveal_strlit("output");
    reveal_strlit("output_text");
    reveal_strlit("error");
    reveal_strlit("incomplete_details");
    reveal_strlit("usage");
    reveal_strlit("type");
    reveal_strlit("role");
    reveal_strlit("text");
    reveal_strlit("content");
    reveal_strlit("refusal");
    reveal_strlit("annotations");
    reveal_strlit("length");
    reveal_strlit("content_filter");
}

/// The item is a message of the assistant with this id and these parts.
pub open spec fn says_message(item: JsonV, id: Seq<char>, parts: Seq<JsonV>) -> bool {
    &&& item.get("type"@) == Some(JsonV::Str("message"@))
    &&& item.get("role"@) == Some(JsonV::Str("assistant"@))
    &&& item.get("id"@) == Some(JsonV::Str(id))
    &&& item.get("status"@) == Some(JsonV::Str("completed"@))
    &&& item.get("content"@) == Some(JsonV::Array(parts))
}

/// The part is this text of the assistant.
pub open spec fn says_text(part: JsonV, text: Seq<char>, annotations: JsonV) -> bool {
    &&& part.get("type"@) == Some(JsonV::Str("output_text"@))
    &&& part.get("text"@) == Some(JsonV::Str(text))
    &&& part.get("annotations"@) == Some(annotations)
}

/// The part is this refusal.
pub open spec fn says_refusal(part: JsonV, words: Seq<char>) -> bool {
    &&& part.get("type"@) == Some(JsonV::Str("refusal"@))
    &&& part.get("refusal"@) == Some(JsonV::Str(words))
}

/// The output of a response holds what the assistant said, in one message, and then every tool call,
/// in order. Where there was neither, it holds a message without text.
pub open spec fn says_all(
    output: Seq<JsonV>,
    message_id: Seq<char>,
    parts: ChatPartsV,
    calls: Seq<JsonV>,
) -> bool {
    let spoke = parts.text.len() > 0 || parts.refusal.len() > 0;
    &&& spoke ==> output.len() == calls.len() + 1 && output.subrange(1, output.len() as int)
        == calls && (output[0].get("content"@) matches Some(JsonV::Array(said)) && {
        let texts = if parts.text.len() > 0 {
            1int
        } else {
            0int
        };
        let refusals = if parts.refusal.len() > 0 {
            1int
        } else {
            0int
        };
        &&& says_message(output[0], message_id, said)
        &&& said.len() == texts + refusals
        &&& texts == 1 ==> says_text(said[0], parts.text, parts.annotations)
        &&& refusals == 1 ==> says_refusal(said[texts], parts.refusal)
    })
    &&& !spoke && calls.len() > 0 ==> output == calls
    &&& !spoke && calls.len() == 0 ==> output.len() == 1 && (output[0].get(
        "content"@,
    ) matches Some(JsonV::Array(said)) && says_message(output[0], message_id, said) && said.len()
        == 1 && says_text(said[0], Seq::empty(), JsonV::Array(Seq::empty())))
}

/// The response says what the completion said. Its output is what the assistant said and every tool
/// call; it is incomplete exactly where the completion was cut off, by its length or by a filter; its
/// id and its time are the upstream's, where that gave them; and the usage arrives.
#[verifier::rlimit(40)]
#[verifier::spinoff_prover]
pub proof fn a_response_says_what_the_completion_said(
    chat: JsonV,
    model: Seq<char>,
    calls: Seq<JsonV>,
    message_id: Seq<char>,
    response_id: Seq<char>,
    now: i64,
)
    requires
        chat_parts(chat) is Ok,
    ensures
        ({
            let parts = chat_parts(chat)->Ok_0;
            let made = chat_response(chat, model, calls, message_id, response_id, now);
            let response = made->Ok_0;
            let cut = parts.finish_reason == Some("length"@) || parts.finish_reason == Some(
                "content_filter"@,
            );
            &&& made is Ok
            &&& response.get("object"@) == Some(JsonV::Str("response"@))
            &&& response.get("model"@) == Some(JsonV::Str(model))
            &&& response.get("output_text"@) == Some(JsonV::Str(parts.text))
            &&& response.get("error"@) == Some(JsonV::Null)
            &&& response.get("status"@) == Some(
                JsonV::Str(
                    if cut {
                        "incomplete"@
                    } else {
                        "completed"@
                    },
                ),
            )
            &&& parts.finish_reason == Some("length"@) ==> response.get2(
                "incomplete_details"@,
                "reason"@,
            ) == Some(JsonV::Str("max_output_tokens"@))
            &&& parts.finish_reason == Some("content_filter"@) ==> response.get2(
                "incomplete_details"@,
                "reason"@,
            ) == Some(JsonV::Str("content_filter"@))
            &&& !cut ==> response.get("incomplete_details"@) == Some(JsonV::Null)
            &&& response.get("id"@) == Some(
                JsonV::Str(
                    if trim(worded(chat.get("id"@))).len() > 0 {
                        worded(chat.get("id"@))
                    } else {
                        response_id
                    },
                ),
            )
            &&& response.get("created_at"@) == Some(
                match chat.get("created"@) {
                    Some(JsonV::Unsigned(t)) => if t <= i64::MAX {
                        JsonV::Unsigned(t)
                    } else {
                        JsonV::signed(now)
                    },
                    Some(JsonV::Negative(t)) => JsonV::signed(t),
                    _ => JsonV::signed(now),
                },
            )
            &&& response.get("usage"@) == match chat.get("usage"@) {
                Some(usage) => Some(chat_usage(usage)),
                None => None,
            }
            &&& response.get("output"@) matches Some(JsonV::Array(output)) && says_all(
                output,
                message_id,
                parts,
                calls,
            )
        }),
{
    lemma_response_names();
    let parts = chat_parts(chat)->Ok_0;
    assert(trim(Seq::<char>::empty()).len() == 0);
    let said = chat_content(parts);
    let output = response_output(message_id, said, calls);
    if said.len() > 0 {
        assert(output.subrange(1, output.len() as int) =~= calls);
        assert(says_message(output[0], message_id, said));
        if parts.text.len() > 0 {
            assert(said[0] == output_text(parts.text, parts.annotations));
            assert(says_text(said[0], parts.text, parts.annotations));
            if parts.refusal.len() > 0 {
                assert(says_refusal(said[1], parts.refusal));
            }
        } else {
            assert(says_refusal(said[0], parts.refusal));
        }
    } else if calls.len() == 0 {
        let one = seq![output_text(Seq::empty(), JsonV::Array(Seq::empty()))];
        assert(says_text(one[0], Seq::empty(), JsonV::Array(Seq::empty())));
        assert(says_message(output[0], message_id, one));
    }
    assert(says_all(output, message_id, parts, calls));
}

/// The arguments that the actions bring for one call, one after the other.
pub open spec fn told_arguments(actions: Seq<StreamActionV>, index: u64) -> Seq<char>
    decreases actions.len(),
{
    if actions.len() == 0 {
        Seq::empty()
    } else {
        told_arguments(actions.drop_last(), index) + match actions.last() {
            StreamActionV::Tool { index: at, id: _, name: _, delta, whole: _ } => if at == index {
                text_or_empty(delta)
            } else {
                Seq::empty()
            },
            _ => Seq::empty(),
        }
    }
}

/// The text that the actions bring, one after the other.
pub open spec fn told_text(actions: Seq<StreamActionV>) -> Seq<char>
    decreases actions.len(),
{
    if actions.len() == 0 {
        Seq::empty()
    } else {
        told_text(actions.drop_last()) + match actions.last() {
            StreamActionV::Text(t) => t,
            _ => Seq::empty(),
        }
    }
}

/// The refusal that the actions bring, one after the other.
pub open spec fn told_refusal(actions: Seq<StreamActionV>) -> Seq<char>
    decreases actions.len(),
{
    if actions.len() == 0 {
        Seq::empty()
    } else {
        told_refusal(actions.drop_last()) + match actions.last() {
            StreamActionV::Refusal(t) => t,
            _ => Seq::empty(),
        }
    }
}

proof fn lemma_told_push(actions: Seq<StreamActionV>, action: StreamActionV, index: u64)
    ensures
        ({
            let after = actions.push(action);
            let none = Seq::<char>::empty();
            &&& told_arguments(after, index) == told_arguments(actions, index) + match action {
                StreamActionV::Tool { index: at, id: _, name: _, delta, whole: _ } => if at
                    == index {
                    text_or_empty(delta)
                } else {
                    none
                },
                _ => none,
            }
            &&& told_text(after) == told_text(actions) + match action {
                StreamActionV::Text(t) => t,
                _ => none,
            }
            &&& told_refusal(after) == told_refusal(actions) + match action {
                StreamActionV::Refusal(t) => t,
                _ => none,
            }
        }),
{
    assert(actions.push(action).drop_last() =~= actions);
}

/// The arguments that the first pieces bring for one call.
spec fn arguments_to(pieces: Seq<JsonV>, n: int, index: u64) -> Seq<char>
    decreases n,
{
    if n <= 0 {
        Seq::empty()
    } else {
        arguments_to(pieces, n - 1, index) + (if numbered(pieces[n - 1]) == index {
            brought(pieces[n - 1].get2("function"@, "arguments"@))
        } else {
            Seq::empty()
        })
    }
}

proof fn lemma_to_and_from(pieces: Seq<JsonV>, n: int, index: u64)
    requires
        0 <= n <= pieces.len(),
    ensures
        arguments_to(pieces, n, index) + arguments_from(pieces, n, index) == arguments_from(
            pieces,
            0,
            index,
        ),
    decreases n,
{
    let none = Seq::<char>::empty();
    if n == 0 {
        assert(none + arguments_from(pieces, 0, index) =~= arguments_from(pieces, 0, index));
    } else {
        lemma_to_and_from(pieces, n - 1, index);
        let before = arguments_to(pieces, n - 1, index);
        let rest = arguments_from(pieces, n, index);
        let one = brought(pieces[n - 1].get2("function"@, "arguments"@));
        assert((before + one) + rest =~= before + (one + rest));
        assert(before + none =~= before);
    }
}

proof fn lemma_pieces_told(
    before: Seq<StreamActionV>,
    pieces: Seq<JsonV>,
    n: int,
    index: u64,
)
    requires
        0 <= n <= pieces.len(),
        piece_actions(before, pieces, n) is Ok,
    ensures
        ({
            let after = piece_actions(before, pieces, n)->Ok_0;
            &&& told_arguments(after, index) == told_arguments(before, index) + arguments_to(
                pieces,
                n,
                index,
            )
            &&& told_text(after) == told_text(before)
            &&& told_refusal(after) == told_refusal(before)
        }),
    decreases n,
{
    let none = Seq::<char>::empty();
    if n == 0 {
        assert(told_arguments(before, index) + none =~= told_arguments(before, index));
    } else {
        lemma_pieces_told(before, pieces, n - 1, index);
        let rest = piece_actions(before, pieces, n - 1)->Ok_0;
        let action = piece_action(pieces[n - 1])->Ok_0;
        lemma_told_push(rest, action, index);
        let a = told_arguments(before, index);
        let b = arguments_to(pieces, n - 1, index);
        let c = if numbered(pieces[n - 1]) == index {
            brought(pieces[n - 1].get2("function"@, "arguments"@))
        } else {
            none
        };
        assert((a + b) + c =~= a + (b + c));
        assert(told_text(rest) + none =~= told_text(rest));
        assert(told_refusal(rest) + none =~= told_refusal(rest));
    }
}

/// What the client is told of a chunk is what the chunk brings: the text, the refusal, and for each
/// tool call the piece of its arguments. A call of the older form stands under the last number.
#[verifier::rlimit(40)]
#[verifier::spinoff_prover]
pub proof fn the_client_is_told_what_comes(choices: Seq<JsonV>, n: int, index: u64)
    requires
        0 <= n <= choices.len(),
        choices_actions(choices, n) is Ok,
    ensures
        ({
            let told = choices_actions(choices, n)->Ok_0;
            &&& told_text(told) == said_to(choices, n)
            &&& told_refusal(told) == refused_to(choices, n)
            &&& told_arguments(told, index) == passed_to(choices, n, index)
        }),
    decreases n,
{
    let none = Seq::<char>::empty();
    if n > 0 {
        the_client_is_told_what_comes(choices, n - 1, index);
        let before = choices_actions(choices, n - 1)->Ok_0;
        let choice = choices[n - 1];
        let delta = delta_in(choice);
        assert(choice.u64_or_zero("index"@) == numbered(choice));
        assert(told_text(before) + none =~= told_text(before));
        assert(told_refusal(before) + none =~= told_refusal(before));
        assert(told_arguments(before, index) + none =~= told_arguments(before, index));
        assert(none + none =~= none);
        if numbered(choice) == 0 {
            if choice_delta(choice) is Some {
                let said = match delta.get("content"@) {
                    Some(c) => before.push(StreamActionV::Text(content_text(c))),
                    None => before,
                };
                if let Some(c) = delta.get("content"@) {
                    lemma_told_push(before, StreamActionV::Text(content_text(c)), index);
                }
                assert(told_text(said) =~= told_text(before) + content_in(delta));
                let refused = said_actions(before, delta);
                if let Some(words) = delta.get_str("refusal"@) {
                    lemma_told_push(said, StreamActionV::Refusal(words), index);
                }
                assert(told_refusal(refused) =~= told_refusal(before) + worded(
                    delta.get("refusal"@),
                ));
                let pieces = pieces_in(delta);
                if let Some(JsonV::Array(p)) = delta.get("tool_calls"@) {
                    lemma_pieces_told(refused, p, p.len() as int, index);
                    lemma_to_and_from(p, p.len() as int, index);
                    assert(arguments_to(p, p.len() as int, index) + none =~= arguments_to(
                        p,
                        p.len() as int,
                        index,
                    ));
                } else {
                    assert(pieces =~= Seq::<JsonV>::empty());
                    assert(arguments_from(pieces, 0, index) =~= none);
                }
                let listed = match delta.get("tool_calls"@) {
                    Some(JsonV::Array(p)) => piece_actions(refused, p, p.len() as int)->Ok_0,
                    _ => refused,
                };
                let x = told_arguments(before, index);
                let y = arguments_from(pieces, 0, index);
                assert(told_arguments(listed, index) =~= x + y);
                assert(told_text(listed) =~= told_text(refused));
                assert(told_text(refused) =~= told_text(said));
                if let Some(function) = delta.get("function_call"@) {
                    let action = StreamActionV::Tool {
                        index: u64::MAX,
                        id: None,
                        name: function.get_str("name"@),
                        delta: chat_string(function.get("arguments"@)),
                        whole: None,
                    };
                    lemma_told_push(listed, action, index);
                    let z = brought(function.get("arguments"@));
                    assert((x + y) + z =~= x + (y + z));
                }
                assert(x + y =~= x + (y + none));
            } else {
                assert(!delta.is_object());
                assert(pieces_in(delta) =~= Seq::<JsonV>::empty());
                assert(arguments_from(pieces_in(delta), 0, index) =~= none);
                assert(content_in(delta) =~= none);
            }
        }
    }
}

/// The text in the first choices.
pub open spec fn said_to(choices: Seq<JsonV>, n: int) -> Seq<char>
    decreases n,
{
    if n <= 0 {
        Seq::empty()
    } else {
        said_to(choices, n - 1) + if numbered(choices[n - 1]) == 0 {
            content_in(delta_in(choices[n - 1]))
        } else {
            Seq::empty()
        }
    }
}

/// The refusal in the first choices.
pub open spec fn refused_to(choices: Seq<JsonV>, n: int) -> Seq<char>
    decreases n,
{
    if n <= 0 {
        Seq::empty()
    } else {
        refused_to(choices, n - 1) + if numbered(choices[n - 1]) == 0 {
            worded(delta_in(choices[n - 1]).get("refusal"@))
        } else {
            Seq::empty()
        }
    }
}

/// The arguments in the first choices for the call that the client knows under a number.
pub open spec fn passed_to(choices: Seq<JsonV>, n: int, index: u64) -> Seq<char>
    decreases n,
{
    if n <= 0 {
        Seq::empty()
    } else {
        passed_to(choices, n - 1, index) + if numbered(choices[n - 1]) == 0 {
            let delta = delta_in(choices[n - 1]);
            arguments_from(pieces_in(delta), 0, index) + (if index == u64::MAX {
                brought(delta.get2("function_call"@, "arguments"@))
            } else {
                Seq::empty()
            })
        } else {
            Seq::empty()
        }
    }
}

} // verus!
