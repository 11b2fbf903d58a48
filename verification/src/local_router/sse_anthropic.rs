//! Anthropic Messages: whole messages and message streams, as Responses documents.
use crate::ids::{fresh_id, has_form};
use crate::json::{
    Json, JsonV, json_text, own_view, owned, parse_text, string_view, text_parsed, views,
    views_push,
};
use crate::local_router::adapt::{
    StreamAction, StreamActionV, ToolCall, ToolCallV, actions_view, add_capped, calls_push,
    calls_view, capped_sum, incomplete_details, make_output_text, make_refusal,
    make_response_document, make_response_output, make_usage_document, output_text, refusal_part,
    response_document, response_output, usage_document,
};
use crate::local_router::errors::{
    Failure, FailureV, context_length_error, done_view, fail, fail_with, is_context_length_error,
    json_result,
};
use crate::local_router::sse::{
    SseFrameAccumulator, drive_all, json_frame, parse_sse_frames, sse_json_frame,
};
use crate::local_router::sse_chat::{
    counted, says_message, says_refusal, says_text, told_arguments, told_text, worded,
};
use crate::slots::{Slots, place, put, put_fills_one_slot, rising, slot, take_then_put};
use crate::text::{cat3, str_eq, trim, trimmed, words};
use vstd::prelude::*;
use vstd::string::*;

verus! {

/// What the content of a message comes to.
#[derive(Debug)]
pub struct MessageParts {
    /// The parts of the assistant's message.
    pub content: Vec<Json>,
    /// All of its text.
    pub text: String,
    pub calls: Vec<ToolCall>,
}

pub struct MessagePartsV {
    pub content: Seq<JsonV>,
    pub text: Seq<char>,
    pub calls: Seq<ToolCallV>,
}

impl View for MessageParts {
    type V = MessagePartsV;

    open spec fn view(&self) -> MessagePartsV {
        MessagePartsV {
            content: views(self.content@),
            text: self.text@,
            calls: calls_view(self.calls@),
        }
    }
}

pub open spec fn parts_result(r: Result<MessageParts, Failure>) -> Result<MessagePartsV, FailureV> {
    match r {
        Ok(p) => Ok(p@),
        Err(e) => Err(e@),
    }
}

/// The text of a refusal block.
pub open spec fn refusal_text(block: JsonV) -> Seq<char> {
    match block.get_either("refusal"@, "text"@) {
        Some(JsonV::Str(s)) => s,
        _ => Seq::empty(),
    }
}

/// The input of a tool block: an empty object where there is none.
pub open spec fn tool_input(block: JsonV) -> JsonV {
    match block.get("input"@) {
        Some(v) => v,
        None => JsonV::obj(),
    }
}

/// The parts with one more block. Thinking is not shown.
pub open spec fn add_block(parts: MessagePartsV, block: JsonV) -> Result<MessagePartsV, FailureV> {
    match block.get_str("type"@) {
        None => Err(FailureV::Text("Anthropic content block 缺少 type"@)),
        Some(kind) => if kind == "text"@ {
            match block.get_str("text"@) {
                None => Err(FailureV::Text("Anthropic text block 缺少 text"@)),
                Some(text) => Ok(
                    MessagePartsV {
                        content: parts.content.push(
                            output_text(text, JsonV::Array(Seq::empty())),
                        ),
                        text: parts.text + text,
                        ..parts
                    },
                ),
            }
        } else if kind == "refusal"@ {
            Ok(
                MessagePartsV {
                    content: parts.content.push(refusal_part(refusal_text(block))),
                    ..parts
                },
            )
        } else if kind == "tool_use"@ {
            match (block.get_text("id"@), block.get_text("name"@)) {
                (None, _) => Err(FailureV::Text("Anthropic tool_use 缺少 id"@)),
                (Some(_), None) => Err(FailureV::Text("Anthropic tool_use 缺少 name"@)),
                (Some(id), Some(name)) => if tool_input(block).is_object() {
                    Ok(
                        MessagePartsV {
                            calls: parts.calls.push(
                                ToolCallV {
                                    call_id: Some(id),
                                    name,
                                    arguments: json_text(tool_input(block)),
                                },
                            ),
                            ..parts
                        },
                    )
                } else {
                    Err(FailureV::Text("Anthropic tool_use.input 必须是 JSON 对象"@))
                },
            }
        } else if kind == "thinking"@ || kind == "redacted_thinking"@ {
            Ok(parts)
        } else {
            Err(
                FailureV::Text(
                    "Anthropic content block 类型 "@ + kind + " 不能转换为 Responses output"@,
                ),
            )
        },
    }
}

/// The parts of a list of blocks.
pub open spec fn block_parts(blocks: Seq<JsonV>) -> Result<MessagePartsV, FailureV>
    decreases blocks.len(),
{
    if blocks.len() == 0 {
        Ok(MessagePartsV { content: Seq::empty(), text: Seq::empty(), calls: Seq::empty() })
    } else {
        match block_parts(blocks.drop_last()) {
            Err(e) => Err(e),
            Ok(parts) => add_block(parts, blocks.last()),
        }
    }
}

/// An error stays the first one found.
proof fn lemma_error_stays(blocks: Seq<JsonV>, n: int)
    requires
        0 <= n <= blocks.len(),
        block_parts(blocks.subrange(0, n)) is Err,
    ensures
        block_parts(blocks) == block_parts(blocks.subrange(0, n)),
    decreases blocks.len() - n,
{
    if n < blocks.len() {
        assert(blocks.subrange(0, n + 1).drop_last() =~= blocks.subrange(0, n));
        lemma_error_stays(blocks, n + 1);
    } else {
        assert(blocks.subrange(0, n) =~= blocks);
    }
}

/// The words of an error document.
pub open spec fn error_words(value: JsonV) -> Seq<char> {
    match value.get2("error"@, "message"@) {
        Some(JsonV::Str(s)) => s,
        _ => "未知错误"@,
    }
}

fn words_of_error(value: &Json) -> (r: String)
    ensures
        r@ == error_words(value@),
{
    if let Some(v) = value.get2("error", "message") {
        if let Some(s) = v.as_str() {
            return s.to_owned();
        }
    }
    "未知错误".to_owned()
}

/// The parts of a message.
pub open spec fn message_parts(message: JsonV) -> Result<MessagePartsV, FailureV> {
    if context_length_error(message) {
        Err(FailureV::ContextLength)
    } else if message.get_str("type"@) == Some("error"@) {
        Err(FailureV::Text("Anthropic Messages 返回错误："@ + error_words(message)))
    } else {
        match message.get_array("content"@) {
            None => Err(FailureV::Text("Anthropic message 缺少 content 数组"@)),
            Some(blocks) => block_parts(blocks),
        }
    }
}

fn add_block_to(parts: &mut MessageParts, block: &Json) -> (r: Result<(), Failure>)
    ensures
        match r {
            Ok(()) => add_block(old(parts)@, block@) == Ok::<MessagePartsV, FailureV>(
                final(parts)@,
            ),
            Err(e) => add_block(old(parts)@, block@) == Err::<MessagePartsV, FailureV>(e@),
        },
{
    broadcast use {calls_push, views_push};

    let kind = match block.get_str("type") {
        Some(t) => t,
        None => {
            return Err(fail("Anthropic content block 缺少 type"));
        },
    };
    if str_eq(kind, "text") {
        match block.get_str("text") {
            None => Err(fail("Anthropic text block 缺少 text")),
            Some(text) => {
                let none: Vec<Json> = Vec::new();
                proof {
                    assert(views(none@) =~= Seq::<JsonV>::empty());
                }
                parts.content.push(make_output_text(text, Json::array(none)));
                parts.text.append(text);
                Ok(())
            },
        }
    } else if str_eq(kind, "refusal") {
        let mut text = String::new();
        if let Some(v) = block.get_either("refusal", "text") {
            if let Some(s) = v.as_str() {
                text = s.to_owned();
            }
        }
        parts.content.push(make_refusal(text.as_str()));
        Ok(())
    } else if str_eq(kind, "tool_use") {
        let id = match block.get_text("id") {
            Some(s) => s,
            None => {
                return Err(fail("Anthropic tool_use 缺少 id"));
            },
        };
        let name = match block.get_text("name") {
            Some(s) => s,
            None => {
                return Err(fail("Anthropic tool_use 缺少 name"));
            },
        };
        let input = match block.get("input") {
            Some(v) => v.clone_json(),
            None => Json::obj(),
        };
        if !input.is_object() {
            return Err(fail("Anthropic tool_use.input 必须是 JSON 对象"));
        }
        parts.calls.push(
            ToolCall {
                call_id: Some(id.to_owned()),
                name: name.to_owned(),
                arguments: input.to_text(),
            },
        );
        Ok(())
    } else if str_eq(kind, "thinking") || str_eq(kind, "redacted_thinking") {
        Ok(())
    } else {
        Err(
            Failure::Text(
                cat3("Anthropic content block 类型 ", kind, " 不能转换为 Responses output"),
            ),
        )
    }
}

/// Reads the parts of a message. The names in its tool calls are the upstream's.
pub fn read_anthropic_message(message: &Json) -> (r: Result<MessageParts, Failure>)
    ensures
        parts_result(r) == message_parts(message@),
{
    if is_context_length_error(message) {
        return Err(Failure::ContextLength);
    }
    if let Some(t) = message.get_str("type") {
        if str_eq(t, "error") {
            return Err(fail_with("Anthropic Messages 返回错误：", words_of_error(message).as_str()));
        }
    }
    let blocks = match message.get_array("content") {
        Some(v) => v,
        None => {
            return Err(fail("Anthropic message 缺少 content 数组"));
        },
    };
    let ghost all = views(blocks@);
    let mut parts = MessageParts {
        content: Vec::new(),
        text: String::new(),
        calls: Vec::new(),
    };
    let mut i: usize = 0;
    proof {
        assert(views(parts.content@) =~= Seq::<JsonV>::empty());
        assert(calls_view(parts.calls@) =~= Seq::<ToolCallV>::empty());
    }
    while i < blocks.len()
        invariant
            i <= blocks.len(),
            all == views(blocks@),
            message_parts(message@) == block_parts(all),
            block_parts(all.subrange(0, i as int)) == Ok::<MessagePartsV, FailureV>(parts@),
        decreases blocks.len() - i,
    {
        proof {
            assert(all.subrange(0, i + 1).drop_last() =~= all.subrange(0, i as int));
            assert(all.subrange(0, i + 1).last() == blocks@[i as int]@);
        }
        if let Err(e) = add_block_to(&mut parts, &blocks[i]) {
            proof {
                lemma_error_stays(all, i + 1);
            }
            return Err(e);
        }
        i = i + 1;
    }
    proof {
        assert(all.subrange(0, i as int) =~= all);
    }
    Ok(parts)
}

/// Tokens of a usage member of the Messages protocol.
pub open spec fn anthropic_usage(usage: JsonV) -> JsonV {
    let cached = usage.u64_or_zero("cache_read_input_tokens"@);
    let input = capped_sum(
        capped_sum(
            usage.u64_or_zero("input_tokens"@) as int,
            usage.u64_or_zero("cache_creation_input_tokens"@) as int,
        ) as int,
        cached as int,
    );
    let output = usage.u64_or_zero("output_tokens"@);
    usage_document(input, cached, output, 0, capped_sum(input as int, output as int))
}

/// The usage of a message in a Responses document.
pub fn anthropic_usage_to_responses_usage(usage: &Json) -> (r: Json)
    ensures
        r@ == anthropic_usage(usage@),
{
    let fresh = usage.u64_or_zero("input_tokens");
    let created = usage.u64_or_zero("cache_creation_input_tokens");
    let cached = usage.u64_or_zero("cache_read_input_tokens");
    let input = add_capped(add_capped(fresh, created), cached);
    let output = usage.u64_or_zero("output_tokens");
    make_usage_document(input, cached, output, 0, add_capped(input, output))
}

/// Why a message is incomplete, if it is.
pub open spec fn anthropic_incomplete(message: JsonV) -> Option<Seq<char>> {
    let stop = message.get_str("stop_reason"@);
    if stop == Some("max_tokens"@) {
        Some("max_output_tokens"@)
    } else if stop == Some("refusal"@) {
        Some("content_filter"@)
    } else {
        None
    }
}

/// The Responses document of a message.
pub open spec fn anthropic_response(
    message: JsonV,
    fallback_model: Seq<char>,
    calls: Seq<JsonV>,
    message_id: Seq<char>,
    response_id: Seq<char>,
    created_at: i64,
) -> Result<JsonV, FailureV> {
    match message_parts(message) {
        Err(e) => Err(e),
        Ok(parts) => Ok(
            message_document(
                message,
                fallback_model,
                parts,
                calls,
                message_id,
                response_id,
                created_at,
            ),
        ),
    }
}

/// The Responses document of a message that has the given parts.
pub open spec fn message_document(
    message: JsonV,
    fallback_model: Seq<char>,
    parts: MessagePartsV,
    calls: Seq<JsonV>,
    message_id: Seq<char>,
    response_id: Seq<char>,
    created_at: i64,
) -> JsonV {
    response_document(
        response_id,
        created_at,
        match message.get_text("model"@) {
            Some(m) => m,
            None => fallback_model,
        },
        response_output(message_id, parts.content, calls),
        parts.text,
        anthropic_incomplete(message),
        match message.get("usage"@) {
            Some(u) => Some(anthropic_usage(u)),
            None => None,
        },
    )
}

/// Builds the Responses document of a message, with the given ids and time. The items of its tool
/// calls are handed in, in the order of the calls that `read_anthropic_message` gives.
pub fn anthropic_message_to_responses_body_with_tool_bridge(
    message: &Json,
    fallback_model: &str,
    calls: Vec<Json>,
    message_id: &str,
    response_id: &str,
    created_at: i64,
) -> (r: Result<Json, Failure>)
    ensures
        json_result(r) == anthropic_response(
            message@,
            fallback_model@,
            views(calls@),
            message_id@,
            response_id@,
            created_at,
        ),
{
    match read_anthropic_message(message) {
        Err(e) => Err(e),
        Ok(parts) => Ok(
            make_message_document(
                message,
                fallback_model,
                parts,
                calls,
                message_id,
                response_id,
                created_at,
            ),
        ),
    }
}

/// Builds the Responses document of a message that has the given parts.
pub(crate) fn make_message_document(
    message: &Json,
    fallback_model: &str,
    parts: MessageParts,
    calls: Vec<Json>,
    message_id: &str,
    response_id: &str,
    created_at: i64,
) -> (r: Json)
    ensures
        r@ == message_document(
            message@,
            fallback_model@,
            parts@,
            views(calls@),
            message_id@,
            response_id@,
            created_at,
        ),
{
    let incomplete = match message.get_str("stop_reason") {
        Some(s) => if str_eq(s, "max_tokens") {
            Some("max_output_tokens")
        } else if str_eq(s, "refusal") {
            Some("content_filter")
        } else {
            None
        },
        None => None,
    };
    let model = match message.get_text("model") {
        Some(m) => m,
        None => fallback_model,
    };
    let usage = match message.get("usage") {
        Some(u) => Some(anthropic_usage_to_responses_usage(u)),
        None => None,
    };
    let output = make_response_output(message_id, parts.content, calls);
    make_response_document(
        response_id,
        created_at,
        model,
        output,
        parts.text.as_str(),
        incomplete,
        usage,
    )
}

/// A content block of a stream, as far as it has come.
#[derive(Debug)]
pub struct AnthropicSseBlock {
    pub block_type: String,
    pub text: String,
    pub id: String,
    pub name: String,
    pub input: Option<Json>,
    pub partial_json: String,
}

pub struct BlockV {
    pub block_type: Seq<char>,
    pub text: Seq<char>,
    pub id: Seq<char>,
    pub name: Seq<char>,
    pub input: Option<JsonV>,
    pub partial_json: Seq<char>,
}

impl View for AnthropicSseBlock {
    type V = BlockV;

    open spec fn view(&self) -> BlockV {
        BlockV {
            block_type: self.block_type@,
            text: self.text@,
            id: self.id@,
            name: self.name@,
            input: own_view(self.input),
            partial_json: self.partial_json@,
        }
    }
}

/// A block of which nothing is known.
pub open spec fn empty_block() -> BlockV {
    BlockV {
        block_type: Seq::empty(),
        text: Seq::empty(),
        id: Seq::empty(),
        name: Seq::empty(),
        input: None,
        partial_json: Seq::empty(),
    }
}

/// The text that a block starts with.
pub open spec fn starting_text(block: JsonV) -> Seq<char> {
    let place = match block.get_either("text"@, "thinking"@) {
        Some(v) => Some(v),
        None => block.get("refusal"@),
    };
    match place {
        Some(JsonV::Str(s)) => s,
        _ => Seq::empty(),
    }
}

/// The block that a stream announces.
pub open spec fn announced_block(block: JsonV, retain_text: bool) -> Result<BlockV, FailureV> {
    match block.get_str("type"@) {
        None => Err(FailureV::Text("Anthropic content block 缺少 type"@)),
        Some(kind) => Ok(
            BlockV {
                block_type: kind,
                text: if retain_text {
                    starting_text(block)
                } else {
                    Seq::empty()
                },
                id: block.str_or_empty("id"@),
                name: block.str_or_empty("name"@),
                input: block.get("input"@),
                partial_json: Seq::empty(),
            },
        ),
    }
}

fn anthropic_sse_block_from_value(block: &Json, retain_text: bool) -> (r: Result<
    AnthropicSseBlock,
    Failure,
>)
    ensures
        match r {
            Ok(b) => announced_block(block@, retain_text) == Ok::<BlockV, FailureV>(b@),
            Err(e) => announced_block(block@, retain_text) == Err::<BlockV, FailureV>(e@),
        },
{
    let kind = match block.get_str("type") {
        Some(t) => t,
        None => {
            return Err(fail("Anthropic content block 缺少 type"));
        },
    };
    let mut text = String::new();
    if retain_text {
        let place = match block.get_either("text", "thinking") {
            Some(v) => Some(v),
            None => block.get("refusal"),
        };
        if let Some(v) = place {
            if let Some(s) = v.as_str() {
                text = s.to_owned();
            }
        }
    }
    let input = match block.get("input") {
        Some(v) => Some(v.clone_json()),
        None => None,
    };
    Ok(
        AnthropicSseBlock {
            block_type: kind.to_owned(),
            text,
            id: block.str_or_empty("id"),
            name: block.str_or_empty("name"),
            input,
            partial_json: String::new(),
        },
    )
}

/// What a message stream has brought so far.
pub struct AnthropicState {
    pub retain_text: bool,
    pub id: Seq<char>,
    pub model: Seq<char>,
    pub blocks: Seq<(u64, BlockV)>,
    pub stop_reason: Option<Seq<char>>,
    pub usage: JsonV,
    pub stopped: bool,
}

/// The blocks with those of an announced message put in from a position on.
pub open spec fn put_blocks(
    blocks: Seq<(u64, BlockV)>,
    content: Seq<JsonV>,
    i: int,
    retain_text: bool,
) -> (Seq<(u64, BlockV)>, Result<(), FailureV>)
    decreases content.len() - i,
{
    if i < 0 || i >= content.len() {
        (blocks, Ok(()))
    } else {
        match announced_block(content[i], retain_text) {
            Err(e) => (blocks, Err(e)),
            Ok(b) => put_blocks(put(blocks, i as u64, b), content, i + 1, retain_text),
        }
    }
}

/// The type of a block, once a delta has come that implies one.
pub open spec fn implied_type(known: Seq<char>, implied: Seq<char>) -> Seq<char> {
    if known.len() == 0 {
        implied
    } else {
        known
    }
}

/// A block after one more delta.
pub open spec fn block_delta(block: BlockV, delta: JsonV, kind: Seq<char>, retain_text: bool) -> (
    BlockV,
    Result<(), FailureV>,
) {
    if kind == "text_delta"@ {
        (
            BlockV {
                block_type: implied_type(block.block_type, "text"@),
                text: if retain_text {
                    block.text + delta.str_or_empty("text"@)
                } else {
                    block.text
                },
                ..block
            },
            Ok(()),
        )
    } else if kind == "input_json_delta"@ {
        (
            BlockV {
                block_type: implied_type(block.block_type, "tool_use"@),
                partial_json: block.partial_json + delta.str_or_empty("partial_json"@),
                ..block
            },
            Ok(()),
        )
    } else if kind == "thinking_delta"@ {
        (
            BlockV {
                block_type: implied_type(block.block_type, "thinking"@),
                text: if retain_text {
                    block.text + delta.str_or_empty("thinking"@)
                } else {
                    block.text
                },
                ..block
            },
            Ok(()),
        )
    } else if kind == "signature_delta"@ || kind == "citations_delta"@ {
        (block, Ok(()))
    } else {
        (block, Err(FailureV::Text("不支持的 Anthropic content delta 类型 "@ + kind)))
    }
}

/// The text, unless it is missing or empty; then the other.
pub open spec fn replaced_by(known: Seq<char>, text: Option<Seq<char>>) -> Seq<char> {
    match text {
        Some(t) => t,
        None => known,
    }
}

/// The start of a message.
pub open spec fn start_message(state: AnthropicState, message: JsonV) -> (AnthropicState, Result<
    (),
    FailureV,
>) {
    let named = AnthropicState {
        id: replaced_by(state.id, message.get_text("id"@)),
        model: replaced_by(state.model, message.get_text("model"@)),
        usage: match message.get_object("usage"@) {
            Some(u) => state.usage.merged(u),
            None => state.usage,
        },
        ..state
    };
    match message.get_array("content"@) {
        None => (named, Ok(())),
        Some(content) => {
            let (blocks, r) = put_blocks(named.blocks, content, 0, state.retain_text);
            (AnthropicState { blocks, ..named }, r)
        },
    }
}

/// A delta of a content block.
pub open spec fn delta_step(state: AnthropicState, event: JsonV) -> (AnthropicState, Result<
    (),
    FailureV,
>) {
    match event.get_u64("index"@) {
        None => (state, Err(FailureV::Text("Anthropic SSE 事件缺少有效 index"@))),
        Some(index) => match event.get_object("delta"@) {
            None => (state, Err(FailureV::Text("content_block_delta 缺少 delta"@))),
            Some(delta) => match delta.get_str("type"@) {
                None => (state, Err(FailureV::Text("Anthropic content delta 缺少 type"@))),
                Some(kind) => {
                    let block = match slot(state.blocks, index) {
                        Some(b) => b,
                        None => empty_block(),
                    };
                    let (changed, r) = block_delta(block, delta, kind, state.retain_text);
                    (AnthropicState { blocks: put(state.blocks, index, changed), ..state }, r)
                },
            },
        },
    }
}

/// One event of a message stream.
pub open spec fn anthropic_step(state: AnthropicState, event: JsonV) -> (AnthropicState, Result<
    (),
    FailureV,
>) {
    if context_length_error(event) {
        (state, Err(FailureV::ContextLength))
    } else {
        match event.get_str("type"@) {
            None => (state, Err(FailureV::Text("Anthropic SSE 事件缺少 type"@))),
            Some(kind) => if kind == "ping"@ {
                (state, Ok(()))
            } else if kind == "error"@ {
                (state, Err(FailureV::Text("Anthropic SSE 返回错误："@ + error_words(event))))
            } else if kind == "message_start"@ {
                match event.get_object("message"@) {
                    None => (state, Err(FailureV::Text("message_start 缺少 message"@))),
                    Some(message) => start_message(state, message),
                }
            } else if kind == "content_block_start"@ {
                match event.get_u64("index"@) {
                    None => (state, Err(FailureV::Text("Anthropic SSE 事件缺少有效 index"@))),
                    Some(index) => match event.get("content_block"@) {
                        None => (
                            state,
                            Err(FailureV::Text("content_block_start 缺少 content_block"@)),
                        ),
                        Some(block) => match announced_block(block, state.retain_text) {
                            Err(e) => (state, Err(e)),
                            Ok(b) => (
                                AnthropicState { blocks: put(state.blocks, index, b), ..state },
                                Ok(()),
                            ),
                        },
                    },
                }
            } else if kind == "content_block_delta"@ {
                delta_step(state, event)
            } else if kind == "content_block_stop"@ {
                (state, Ok(()))
            } else if kind == "message_delta"@ {
                (
                    AnthropicState {
                        stop_reason: match event.get2("delta"@, "stop_reason"@) {
                            Some(JsonV::Str(s)) => Some(s),
                            _ => state.stop_reason,
                        },
                        usage: match event.get_object("usage"@) {
                            Some(u) => state.usage.merged(u),
                            None => state.usage,
                        },
                        ..state
                    },
                    Ok(()),
                )
            } else if kind == "message_stop"@ {
                (AnthropicState { stopped: true, ..state }, Ok(()))
            } else {
                (state, Err(FailureV::Text("不支持的 Anthropic SSE 事件类型 "@ + kind)))
            },
        }
    }
}

/// A tool block as a value, once its input is known.
pub open spec fn tool_block_value(id: Seq<char>, name: Seq<char>, input: JsonV) -> Result<
    JsonV,
    FailureV,
> {
    if !input.is_object() {
        Err(FailureV::Text("Anthropic 流式 tool_use.input 必须是 JSON 对象"@))
    } else {
        Ok(
            JsonV::obj().with("type"@, JsonV::Str("tool_use"@)).with("id"@, JsonV::Str(id)).with(
                "name"@,
                JsonV::Str(name),
            ).with("input"@, input),
        )
    }
}

/// Builds the value of a tool block whose input is known.
pub fn finish_tool_block(id: &str, name: &str, input: Json) -> (r: Result<Json, Failure>)
    ensures
        json_result(r) == tool_block_value(id@, name@, input@),
{
    if !input.is_object() {
        return Err(fail("Anthropic 流式 tool_use.input 必须是 JSON 对象"));
    }
    Ok(
        Json::obj().with("type", Json::str("tool_use")).with("id", Json::str(id)).with(
            "name",
            Json::str(name),
        ).with("input", input),
    )
}

/// A finished block as a value.
pub open spec fn block_value(block: BlockV) -> Result<JsonV, FailureV> {
    let kind = block.block_type;
    if kind == "text"@ {
        Ok(JsonV::obj().with("type"@, JsonV::Str("text"@)).with("text"@, JsonV::Str(block.text)))
    } else if kind == "refusal"@ {
        Ok(
            JsonV::obj().with("type"@, JsonV::Str("refusal"@)).with(
                "refusal"@,
                JsonV::Str(block.text),
            ),
        )
    } else if kind == "thinking"@ || kind == "redacted_thinking"@ {
        Ok(JsonV::obj().with("type"@, JsonV::Str(kind)).with("thinking"@, JsonV::Str(block.text)))
    } else if kind == "tool_use"@ {
        if block.id.len() == 0 || block.name.len() == 0 {
            Err(FailureV::Text("Anthropic 流式 tool_use 缺少 id 或 name"@))
        } else if trim(block.partial_json).len() == 0 {
            tool_block_value(
                block.id,
                block.name,
                match block.input {
                    Some(v) => v,
                    None => JsonV::obj(),
                },
            )
        } else {
            match text_parsed(block.partial_json) {
                Err(_) => Err(FailureV::Text("Anthropic 流式 tool_use 参数不是有效 JSON"@)),
                Ok(input) => tool_block_value(block.id, block.name, input),
            }
        }
    } else {
        Err(FailureV::Text("不支持的 Anthropic content block 类型 "@ + kind))
    }
}

/// Builds the value of a finished block.
pub fn anthropic_sse_block_into_value(block: &AnthropicSseBlock) -> (r: Result<Json, Failure>)
    ensures
        json_result(r) == block_value(block@),
{
    let kind = block.block_type.as_str();
    let text = block.text.as_str();
    if str_eq(kind, "text") {
        Ok(Json::obj().with("type", Json::str("text")).with("text", Json::str(text)))
    } else if str_eq(kind, "refusal") {
        Ok(Json::obj().with("type", Json::str("refusal")).with("refusal", Json::str(text)))
    } else if str_eq(kind, "thinking") || str_eq(kind, "redacted_thinking") {
        Ok(Json::obj().with("type", Json::str(kind)).with("thinking", Json::str(text)))
    } else if str_eq(kind, "tool_use") {
        let id = block.id.as_str();
        let name = block.name.as_str();
        if id.is_empty() || name.is_empty() {
            return Err(fail("Anthropic 流式 tool_use 缺少 id 或 name"));
        }
        let partial = block.partial_json.as_str();
        if trimmed(partial).as_str().is_empty() {
            let input = match &block.input {
                Some(v) => v.clone_json(),
                None => Json::obj(),
            };
            return finish_tool_block(id, name, input);
        }
        match parse_text(partial) {
            Err(_) => Err(fail("Anthropic 流式 tool_use 参数不是有效 JSON")),
            Ok(input) => finish_tool_block(id, name, input),
        }
    } else {
        Err(fail_with("不支持的 Anthropic content block 类型 ", kind))
    }
}

/// The values of finished blocks, or the first error among them.
pub open spec fn block_values(blocks: Seq<(u64, BlockV)>) -> Result<Seq<JsonV>, FailureV>
    decreases blocks.len(),
{
    if blocks.len() == 0 {
        Ok(Seq::empty())
    } else {
        match block_values(blocks.drop_last()) {
            Err(e) => Err(e),
            Ok(values) => match block_value(blocks.last().1) {
                Err(e) => Err(e),
                Ok(v) => Ok(values.push(v)),
            },
        }
    }
}

proof fn lemma_value_error_stays(blocks: Seq<(u64, BlockV)>, n: int)
    requires
        0 <= n <= blocks.len(),
        block_values(blocks.subrange(0, n)) is Err,
    ensures
        block_values(blocks) == block_values(blocks.subrange(0, n)),
    decreases blocks.len() - n,
{
    if n < blocks.len() {
        assert(blocks.subrange(0, n + 1).drop_last() =~= blocks.subrange(0, n));
        lemma_value_error_stays(blocks, n + 1);
    } else {
        assert(blocks.subrange(0, n) =~= blocks);
    }
}

/// The message of a stream at its end. A stream that broke off before it said why it stopped has
/// none.
pub open spec fn streamed_message(state: AnthropicState) -> Result<JsonV, FailureV> {
    let reason = match state.stop_reason {
        Some(s) => s,
        None => Seq::empty(),
    };
    if !state.stopped && trim(reason).len() == 0 {
        Err(FailureV::Text("Anthropic Messages SSE 在结束事件或 stop_reason 前断开"@))
    } else {
        match block_values(state.blocks) {
            Err(e) => Err(e),
            Ok(content) => Ok(
                JsonV::obj().with("id"@, JsonV::Str(state.id)).with(
                    "type"@,
                    JsonV::Str("message"@),
                ).with("role"@, JsonV::Str("assistant"@)).with(
                    "model"@,
                    JsonV::Str(state.model),
                ).with("content"@, JsonV::Array(content)).with(
                    "stop_reason"@,
                    match state.stop_reason {
                        Some(s) => JsonV::Str(s),
                        None => JsonV::Null,
                    },
                ).with("usage"@, state.usage),
            ),
        }
    }
}

/// Collects a message from a stream.
pub struct AnthropicSseAccumulator {
    pub retain_text: bool,
    pub id: String,
    pub model: String,
    pub blocks: Slots<AnthropicSseBlock>,
    pub stop_reason: Option<String>,
    pub usage: Json,
    pub stopped: bool,
}

/// The state before the first event.
pub open spec fn fresh_message(id: Seq<char>, model: Seq<char>, retain_text: bool) -> AnthropicState {
    AnthropicState {
        retain_text,
        id,
        model,
        blocks: Seq::empty(),
        stop_reason: None,
        usage: JsonV::obj(),
        stopped: false,
    }
}

fn new_block() -> (r: AnthropicSseBlock)
    ensures
        r@ == empty_block(),
{
    AnthropicSseBlock {
        block_type: String::new(),
        text: String::new(),
        id: String::new(),
        name: String::new(),
        input: None,
        partial_json: String::new(),
    }
}

fn apply_block_delta(block: &mut AnthropicSseBlock, delta: &Json, kind: &str, retain_text: bool) -> (r:
    Result<(), Failure>)
    ensures
        (final(block)@, done_view(r)) == block_delta(old(block)@, delta@, kind@, retain_text),
{
    if str_eq(kind, "text_delta") {
        if block.block_type.as_str().is_empty() {
            block.block_type = "text".to_owned();
        }
        if retain_text {
            block.text.append(delta.str_or_empty("text").as_str());
        }
        Ok(())
    } else if str_eq(kind, "input_json_delta") {
        if block.block_type.as_str().is_empty() {
            block.block_type = "tool_use".to_owned();
        }
        block.partial_json.append(delta.str_or_empty("partial_json").as_str());
        Ok(())
    } else if str_eq(kind, "thinking_delta") {
        if block.block_type.as_str().is_empty() {
            block.block_type = "thinking".to_owned();
        }
        if retain_text {
            block.text.append(delta.str_or_empty("thinking").as_str());
        }
        Ok(())
    } else if str_eq(kind, "signature_delta") || str_eq(kind, "citations_delta") {
        Ok(())
    } else {
        Err(fail_with("不支持的 Anthropic content delta 类型 ", kind))
    }
}

impl AnthropicSseAccumulator {
    /// The accumulator for a message that is collected whole, with the id that it has until the
    /// upstream gives one.
    pub fn new(id: &str, model: &str) -> (r: AnthropicSseAccumulator)
        ensures
            r.state() == fresh_message(id@, model@, true),
            r.inv(),
    {
        AnthropicSseAccumulator {
            retain_text: true,
            id: id.to_owned(),
            model: model.to_owned(),
            blocks: Slots::new(),
            stop_reason: None,
            usage: Json::obj(),
            stopped: false,
        }
    }

    /// The accumulator for a message whose text is handed on as it comes.
    pub fn for_streaming(id: &str, model: &str) -> (r: AnthropicSseAccumulator)
        ensures
            r.state() == fresh_message(id@, model@, false),
            r.inv(),
    {
        let mut r = AnthropicSseAccumulator::new(id, model);
        r.retain_text = false;
        r
    }

    fn start(&mut self, message: &Json) -> (r: Result<(), Failure>)
        requires
            old(self).inv(),
        ensures
            final(self).inv(),
            (final(self).state(), done_view(r)) == start_message(old(self).state(), message@),
    {
        if let Some(id) = message.get_text("id") {
            self.id = id.to_owned();
        }
        if let Some(model) = message.get_text("model") {
            self.model = model.to_owned();
        }
        if let Some(usage) = message.get_object("usage") {
            self.usage.merge(usage);
        }
        if let Some(content) = message.get_array("content") {
            let ghost all = views(content@);
            let ghost named = self.state();
            let mut i: usize = 0;
            while i < content.len()
                invariant
                    i <= content.len(),
                    self.inv(),
                    all == views(content@),
                    message@.get_array("content"@) == Some(all),
                    self.state() == (AnthropicState { blocks: self.blocks@, ..named }),
                    start_message(old(self).state(), message@) == ({
                        let (blocks, r) = put_blocks(named.blocks, all, 0, named.retain_text);
                        (AnthropicState { blocks, ..named }, r)
                    }),
                    put_blocks(named.blocks, all, 0, named.retain_text) == put_blocks(
                        self.blocks@,
                        all,
                        i as int,
                        named.retain_text,
                    ),
                decreases content.len() - i,
            {
                match anthropic_sse_block_from_value(&content[i], self.retain_text) {
                    Err(e) => {
                        return Err(e);
                    },
                    Ok(block) => {
                        proof {
                            put_fills_one_slot(self.blocks@, i as u64, block@);
                        }
                        self.blocks.put(i as u64, block);
                    },
                }
                i = i + 1;
            }
        }
        Ok(())
    }

    fn delta(&mut self, event: &Json) -> (r: Result<(), Failure>)
        requires
            old(self).inv(),
        ensures
            final(self).inv(),
            (final(self).state(), done_view(r)) == delta_step(old(self).state(), event@),
    {
        let index: u64 = match event.get_u64("index") {
            Some(n) => n,
            None => {
                return Err(fail("Anthropic SSE 事件缺少有效 index"));
            },
        };
        let delta = match event.get_object("delta") {
            Some(v) => v,
            None => {
                return Err(fail("content_block_delta 缺少 delta"));
            },
        };
        let kind = match delta.get_str("type") {
            Some(t) => t,
            None => {
                return Err(fail("Anthropic content delta 缺少 type"));
            },
        };
        let mut block = match self.blocks.take(index) {
            Some(b) => b,
            None => new_block(),
        };
        let retain_text = self.retain_text;
        let r = apply_block_delta(&mut block, delta, kind, retain_text);
        proof {
            let before = old(self).blocks@;
            put_fills_one_slot(before, index, block@);
            if slot(before, index) is Some {
                take_then_put(before, index, block@);
            }
        }
        self.blocks.put(index, block);
        r
    }

    /// Takes in one event.
    pub fn ingest(&mut self, event: &Json) -> (r: Result<(), Failure>)
        requires
            old(self).inv(),
        ensures
            final(self).inv(),
            (final(self).state(), done_view(r)) == anthropic_step(old(self).state(), event@),
    {
        if is_context_length_error(event) {
            return Err(Failure::ContextLength);
        }
        let kind = match event.get_str("type") {
            Some(t) => t,
            None => {
                return Err(fail("Anthropic SSE 事件缺少 type"));
            },
        };
        if str_eq(kind, "ping") {
            Ok(())
        } else if str_eq(kind, "error") {
            Err(fail_with("Anthropic SSE 返回错误：", words_of_error(event).as_str()))
        } else if str_eq(kind, "message_start") {
            match event.get_object("message") {
                None => Err(fail("message_start 缺少 message")),
                Some(message) => self.start(message),
            }
        } else if str_eq(kind, "content_block_start") {
            let index: u64 = match event.get_u64("index") {
                Some(n) => n,
                None => {
                    return Err(fail("Anthropic SSE 事件缺少有效 index"));
                },
            };
            match event.get("content_block") {
                None => Err(fail("content_block_start 缺少 content_block")),
                Some(block) => match anthropic_sse_block_from_value(block, self.retain_text) {
                    Err(e) => Err(e),
                    Ok(b) => {
                        proof {
                            put_fills_one_slot(self.blocks@, index, b@);
                        }
                        self.blocks.put(index, b);
                        Ok(())
                    },
                },
            }
        } else if str_eq(kind, "content_block_delta") {
            self.delta(event)
        } else if str_eq(kind, "content_block_stop") {
            Ok(())
        } else if str_eq(kind, "message_delta") {
            if let Some(v) = event.get2("delta", "stop_reason") {
                if let Some(s) = v.as_str() {
                    self.stop_reason = Some(s.to_owned());
                }
            }
            if let Some(usage) = event.get_object("usage") {
                self.usage.merge(usage);
            }
            Ok(())
        } else if str_eq(kind, "message_stop") {
            self.stopped = true;
            Ok(())
        } else {
            Err(fail_with("不支持的 Anthropic SSE 事件类型 ", kind))
        }
    }

    /// The message of the stream.
    pub fn into_message(self) -> (r: Result<Json, Failure>)
        ensures
            json_result(r) == streamed_message(self.state()),
    {
        let silent = match &self.stop_reason {
            Some(s) => trimmed(s.as_str()).as_str().is_empty(),
            None => true,
        };
        proof {
            assert(trim(Seq::<char>::empty()).len() == 0);
        }
        if !self.stopped && silent {
            return Err(fail("Anthropic Messages SSE 在结束事件或 stop_reason 前断开"));
        }
        let ghost all = self.blocks@;
        let mut content: Vec<Json> = Vec::new();
        let mut i: usize = 0;
        proof {
            assert(views(content@) =~= Seq::<JsonV>::empty());
        }
        while i < self.blocks.len()
            invariant
                i <= all.len(),
                all == self.blocks@,
                block_values(all.subrange(0, i as int)) == Ok::<Seq<JsonV>, FailureV>(
                    views(content@),
                ),
                block_values(all) is Err ==> streamed_message(self.state()) == Err::<
                    JsonV,
                    FailureV,
                >(block_values(all)->Err_0),
            decreases all.len() - i,
        {
            proof {
                assert(all.subrange(0, i + 1).drop_last() =~= all.subrange(0, i as int));
                assert(all.subrange(0, i + 1).last() == all[i as int]);
            }
            match anthropic_sse_block_into_value(self.blocks.value_at(i)) {
                Err(e) => {
                    proof {
                        lemma_value_error_stays(all, i + 1);
                    }
                    return Err(e);
                },
                Ok(v) => {
                    proof {
                        views_push(content@, v);
                    }
                    content.push(v);
                },
            }
            i = i + 1;
        }
        proof {
            assert(all.subrange(0, i as int) =~= all);
        }
        let reason = match self.stop_reason {
            Some(s) => Json::string(s),
            None => Json::null(),
        };
        Ok(
            Json::obj().with("id", Json::string(self.id)).with("type", Json::str("message")).with(
                "role",
                Json::str("assistant"),
            ).with("model", Json::string(self.model)).with("content", Json::array(content)).with(
                "stop_reason",
                reason,
            ).with("usage", self.usage),
        )
    }
}

impl SseFrameAccumulator for AnthropicSseAccumulator {
    type S = AnthropicState;

    open spec fn state(&self) -> AnthropicState {
        AnthropicState {
            retain_text: self.retain_text,
            id: self.id@,
            model: self.model@,
            blocks: self.blocks@,
            stop_reason: string_view(self.stop_reason),
            usage: self.usage@,
            stopped: self.stopped,
        }
    }

    open spec fn step(state: AnthropicState, data: Seq<char>, trailing: bool) -> (
        AnthropicState,
        Result<(), FailureV>,
    ) {
        match json_frame(data, "Anthropic Messages"@, trailing) {
            Err(e) => (state, Err(e)),
            Ok(event) => anthropic_step(state, event),
        }
    }

    open spec fn is_finished(state: AnthropicState) -> bool {
        state.stopped
    }

    open spec fn inv(&self) -> bool {
        rising(self.blocks@)
    }

    fn ingest_frame(&mut self, data: &str, trailing: bool) -> (r: Result<(), Failure>) {
        match sse_json_frame(data, "Anthropic Messages", trailing) {
            Err(e) => Err(e),
            Ok(event) => self.ingest(&event),
        }
    }

    fn finished(&self) -> (r: bool) {
        self.stopped
    }
}

/// The message of a stream that has been read whole.
pub open spec fn parsed_message(bytes: Seq<u8>, id: Seq<char>, model: Seq<char>) -> Result<
    JsonV,
    FailureV,
> {
    let (state, r) = drive_all::<AnthropicSseAccumulator>(fresh_message(id, model, true), bytes);
    match r {
        Err(e) => Err(e),
        Ok(()) => streamed_message(state),
    }
}

/// Reads the message of a stream that has been read whole. It has a fresh id until the upstream
/// gives one.
pub fn parse_anthropic_message_sse_bytes(bytes: &Vec<u8>, model: &str) -> (r: Result<Json, Failure>)
    ensures
        exists|id: Seq<char>|
            has_form(id, "msg_codey_"@) && json_result(r) == #[trigger] parsed_message(
                bytes@,
                id,
                model@,
            ),
{
    let id = fresh_id("msg_codey_");
    let r = parse_message_with_id(bytes, id.as_str(), model);
    proof {
        assert(json_result(r) == parsed_message(bytes@, id@, model@));
    }
    r
}

/// Reads the message of a stream that has been read whole, with the id that it has until the
/// upstream gives one.
pub fn parse_message_with_id(bytes: &Vec<u8>, id: &str, model: &str) -> (r: Result<Json, Failure>)
    ensures
        json_result(r) == parsed_message(bytes@, id@, model@),
{
    let mut accumulator = AnthropicSseAccumulator::new(id, model);
    match parse_sse_frames(bytes, &mut accumulator) {
        Err(e) => Err(e),
        Ok(()) => accumulator.into_message(),
    }
}

/// A stream gives a message only once it has said that it stopped, or why.
pub proof fn a_message_needs_an_end(state: AnthropicState)
    requires
        streamed_message(state) is Ok,
    ensures
        state.stopped || (state.stop_reason matches Some(s) && trim(s).len() > 0),
{
}

/// What the start of a block adds to the response.
pub open spec fn start_action(index: u64, block: JsonV) -> Result<Seq<StreamActionV>, FailureV> {
    match block.get_str("type"@) {
        None => Err(FailureV::Text("Anthropic content block 缺少 type"@)),
        Some(kind) => if kind == "text"@ {
            Ok(seq![StreamActionV::Text(block.str_or_empty("text"@))])
        } else if kind == "refusal"@ {
            Ok(seq![StreamActionV::Refusal(refusal_text(block))])
        } else if kind == "tool_use"@ {
            Ok(
                seq![
                    StreamActionV::Tool {
                        index,
                        id: block.get_str("id"@),
                        name: block.get_str("name"@),
                        delta: None,
                        whole: match block.get("input"@) {
                            Some(v) => Some(json_text(v)),
                            None => None,
                        },
                    },
                ],
            )
        } else if kind == "thinking"@ || kind == "redacted_thinking"@ {
            Ok(Seq::empty())
        } else {
            Err(FailureV::Text("不支持的 Anthropic content block 类型 "@ + kind))
        },
    }
}

/// What the starts of the first blocks of a message add, or the first error among them.
pub open spec fn start_actions(content: Seq<JsonV>, n: int) -> Result<Seq<StreamActionV>, FailureV>
    decreases n,
{
    if n <= 0 {
        Ok(Seq::empty())
    } else {
        match start_actions(content, n - 1) {
            Err(e) => Err(e),
            Ok(rest) => match start_action((n - 1) as u64, content[n - 1]) {
                Err(e) => Err(e),
                Ok(more) => Ok(rest + more),
            },
        }
    }
}

/// What the delta of a block adds.
pub open spec fn delta_actions(event: JsonV) -> Result<Seq<StreamActionV>, FailureV> {
    match event.get_u64("index"@) {
        None => Err(FailureV::Text("Anthropic SSE 事件缺少有效 index"@)),
        Some(index) => match event.get_object("delta"@) {
            None => Err(FailureV::Text("content_block_delta 缺少 delta"@)),
            Some(delta) => match delta.get_str("type"@) {
                None => Err(FailureV::Text("Anthropic content delta 缺少 type"@)),
                Some(kind) => if kind == "text_delta"@ {
                    Ok(seq![StreamActionV::Text(delta.str_or_empty("text"@))])
                } else if kind == "input_json_delta"@ {
                    Ok(
                        seq![
                            StreamActionV::Tool {
                                index,
                                id: None,
                                name: None,
                                delta: delta.get_str("partial_json"@),
                                whole: None,
                            },
                        ],
                    )
                } else if kind == "thinking_delta"@ || kind == "signature_delta"@ || kind
                    == "citations_delta"@ {
                    Ok(Seq::empty())
                } else {
                    Err(FailureV::Text("不支持的 Anthropic content delta 类型 "@ + kind))
                },
            },
        },
    }
}

/// What an event of a message stream adds to the response.
pub open spec fn anthropic_actions(event: JsonV) -> Result<Seq<StreamActionV>, FailureV> {
    match event.get_str("type"@) {
        None => Err(FailureV::Text("Anthropic SSE 事件缺少 type"@)),
        Some(kind) => if kind == "message_start"@ {
            match event.get2("message"@, "content"@) {
                Some(JsonV::Array(content)) => start_actions(content, content.len() as int),
                _ => Ok(Seq::empty()),
            }
        } else if kind == "content_block_start"@ {
            match event.get_u64("index"@) {
                None => Err(FailureV::Text("Anthropic SSE 事件缺少有效 index"@)),
                Some(index) => match event.get("content_block"@) {
                    None => Err(FailureV::Text("content_block_start 缺少 content_block"@)),
                    Some(block) => start_action(index, block),
                },
            }
        } else if kind == "content_block_delta"@ {
            delta_actions(event)
        } else if kind == "ping"@ || kind == "content_block_stop"@ || kind == "message_delta"@
            || kind == "message_stop"@ {
            Ok(Seq::empty())
        } else if kind == "error"@ {
            Err(FailureV::Text("Anthropic SSE 返回错误"@))
        } else {
            Err(FailureV::Text("不支持的 Anthropic SSE 事件类型 "@ + kind))
        },
    }
}

/// The view of a list of actions or an error.
pub open spec fn actions_result(r: Result<Vec<StreamAction>, Failure>) -> Result<
    Seq<StreamActionV>,
    FailureV,
> {
    match r {
        Ok(a) => Ok(actions_view(a@)),
        Err(e) => Err(e@),
    }
}

fn one_action(action: StreamAction) -> (r: Vec<StreamAction>)
    ensures
        actions_view(r@) == seq![action@],
{
    let mut out: Vec<StreamAction> = Vec::new();
    out.push(action);
    proof {
        assert(actions_view(out@) =~= seq![action@]);
    }
    out
}

fn no_actions() -> (r: Vec<StreamAction>)
    ensures
        actions_view(r@) == Seq::<StreamActionV>::empty(),
{
    let out: Vec<StreamAction> = Vec::new();
    proof {
        assert(actions_view(out@) =~= Seq::<StreamActionV>::empty());
    }
    out
}

/// What the start of a block adds to the response.
pub fn anthropic_stream_block_start(index: u64, block: &Json) -> (r: Result<
    Vec<StreamAction>,
    Failure,
>)
    ensures
        actions_result(r) == start_action(index, block@),
{
    let kind = match block.get_str("type") {
        Some(t) => t,
        None => {
            return Err(fail("Anthropic content block 缺少 type"));
        },
    };
    if str_eq(kind, "text") {
        Ok(one_action(StreamAction::Text(block.str_or_empty("text"))))
    } else if str_eq(kind, "refusal") {
        let mut text = String::new();
        if let Some(v) = block.get_either("refusal", "text") {
            if let Some(s) = v.as_str() {
                text = s.to_owned();
            }
        }
        Ok(one_action(StreamAction::Refusal(text)))
    } else if str_eq(kind, "tool_use") {
        let whole = match block.get("input") {
            Some(v) => Some(v.to_text()),
            None => None,
        };
        Ok(
            one_action(
                StreamAction::Tool {
                    index,
                    id: owned(block.get_str("id")),
                    name: owned(block.get_str("name")),
                    delta: None,
                    whole,
                },
            ),
        )
    } else if str_eq(kind, "thinking") || str_eq(kind, "redacted_thinking") {
        Ok(no_actions())
    } else {
        Err(fail_with("不支持的 Anthropic content block 类型 ", kind))
    }
}

proof fn lemma_start_error_stays(content: Seq<JsonV>, n: int, m: int)
    requires
        0 <= n <= m,
        start_actions(content, n) is Err,
    ensures
        start_actions(content, m) == start_actions(content, n),
    decreases m - n,
{
    if n < m {
        lemma_start_error_stays(content, n, m - 1);
    }
}

fn message_start_actions(content: &Vec<Json>) -> (r: Result<Vec<StreamAction>, Failure>)
    ensures
        actions_result(r) == start_actions(views(content@), content.len() as int),
{
    let ghost all = views(content@);
    let mut out = no_actions();
    let mut i: usize = 0;
    while i < content.len()
        invariant
            i <= content.len(),
            all == views(content@),
            start_actions(all, i as int) == Ok::<Seq<StreamActionV>, FailureV>(actions_view(out@)),
        decreases content.len() - i,
    {
        proof {
            assert(all[i as int] == content@[i as int]@);
        }
        match anthropic_stream_block_start(i as u64, &content[i]) {
            Err(e) => {
                proof {
                    lemma_start_error_stays(all, i + 1, content.len() as int);
                }
                return Err(e);
            },
            Ok(more) => {
                let ghost before = out@;
                let mut tail = more;
                let ghost added = tail@;
                out.append(&mut tail);
                proof {
                    assert(actions_view(out@) =~= actions_view(before) + actions_view(added));
                }
            },
        }
        i = i + 1;
    }
    Ok(out)
}

fn block_delta_actions(event: &Json) -> (r: Result<Vec<StreamAction>, Failure>)
    ensures
        actions_result(r) == delta_actions(event@),
{
    let index: u64 = match event.get_u64("index") {
        Some(n) => n,
        None => {
            return Err(fail("Anthropic SSE 事件缺少有效 index"));
        },
    };
    let delta = match event.get_object("delta") {
        Some(v) => v,
        None => {
            return Err(fail("content_block_delta 缺少 delta"));
        },
    };
    let kind = match delta.get_str("type") {
        Some(t) => t,
        None => {
            return Err(fail("Anthropic content delta 缺少 type"));
        },
    };
    if str_eq(kind, "text_delta") {
        Ok(one_action(StreamAction::Text(delta.str_or_empty("text"))))
    } else if str_eq(kind, "input_json_delta") {
        Ok(
            one_action(
                StreamAction::Tool {
                    index,
                    id: None,
                    name: None,
                    delta: owned(delta.get_str("partial_json")),
                    whole: None,
                },
            ),
        )
    } else if str_eq(kind, "thinking_delta") || str_eq(kind, "signature_delta") || str_eq(
        kind,
        "citations_delta",
    ) {
        Ok(no_actions())
    } else {
        Err(fail_with("不支持的 Anthropic content delta 类型 ", kind))
    }
}

/// What an event of a message stream adds to the response.
pub fn emit_anthropic_stream_event(event: &Json) -> (r: Result<Vec<StreamAction>, Failure>)
    ensures
        actions_result(r) == anthropic_actions(event@),
{
    let kind = match event.get_str("type") {
        Some(t) => t,
        None => {
            return Err(fail("Anthropic SSE 事件缺少 type"));
        },
    };
    if str_eq(kind, "message_start") {
        if let Some(v) = event.get2("message", "content") {
            if let Some(content) = v.as_array() {
                return message_start_actions(content);
            }
        }
        Ok(no_actions())
    } else if str_eq(kind, "content_block_start") {
        let index: u64 = match event.get_u64("index") {
            Some(n) => n,
            None => {
                return Err(fail("Anthropic SSE 事件缺少有效 index"));
            },
        };
        match event.get("content_block") {
            None => Err(fail("content_block_start 缺少 content_block")),
            Some(block) => anthropic_stream_block_start(index, block),
        }
    } else if str_eq(kind, "content_block_delta") {
        block_delta_actions(event)
    } else if str_eq(kind, "ping") || str_eq(kind, "content_block_stop") || str_eq(
        kind,
        "message_delta",
    ) || str_eq(kind, "message_stop") {
        Ok(no_actions())
    } else if str_eq(kind, "error") {
        Err(fail("Anthropic SSE 返回错误"))
    } else {
        Err(fail_with("不支持的 Anthropic SSE 事件类型 ", kind))
    }
}

/// The value says that it is of this kind.
pub open spec fn is_kind(value: JsonV, kind: Seq<char>) -> bool {
    value.get("type"@) == Some(JsonV::Str(kind))
}

proof fn lemma_block_kinds()
    ensures
        "text"@.len() == 4,
        "refusal"@.len() == 7,
        "tool_use"@.len() == 8 && "tool_use"@[0] == 't' && "tool_use"@[1] == 'o',
        "thinking"@.len() == 8 && "thinking"@[0] == 't' && "thinking"@[1] == 'h',
        "redacted_thinking"@.len() == 17,
        "type"@.len() == 4 && "type"@[0] == 't' && "type"@[1] == 'y',
        "text"@[0] == 't' && "text"@[1] == 'e',
        "annotations"@.len() == 11,
        "id"@.len() == 2,
        "name"@.len() == 4 && "name"@[0] == 'n',
        "input"@.len() == 5,
{
    reveal_strlit("text");
    reveal_strlit("refusal");
    reveal_strlit("tool_use");
    reveal_strlit("thinking");
    reveal_strlit("redacted_thinking");
    reveal_strlit("type");
    reveal_strlit("annotations");
    reveal_strlit("id");
    reveal_strlit("name");
    reveal_strlit("input");
}

proof fn lemma_event_kinds()
    ensures
        "ping"@.len() == 4,
        "error"@.len() == 5,
        "message_start"@.len() == 13 && "message_start"@[8] == 's',
        "message_delta"@.len() == 13 && "message_delta"@[8] == 'd',
        "message_stop"@.len() == 12,
        "content_block_start"@.len() == 19 && "content_block_start"@[14] == 's',
        "content_block_delta"@.len() == 19 && "content_block_delta"@[14] == 'd',
        "content_block_stop"@.len() == 18,
        "text_delta"@.len() == 10,
        "input_json_delta"@.len() == 16,
        "thinking_delta"@.len() == 14,
        "signature_delta"@.len() == 15,
        "citations_delta"@.len() == 15,
{
    reveal_strlit("ping");
    reveal_strlit("error");
    reveal_strlit("message_start");
    reveal_strlit("message_delta");
    reveal_strlit("message_stop");
    reveal_strlit("content_block_start");
    reveal_strlit("content_block_delta");
    reveal_strlit("content_block_stop");
    reveal_strlit("text_delta");
    reveal_strlit("input_json_delta");
    reveal_strlit("thinking_delta");
    reveal_strlit("signature_delta");
    reveal_strlit("citations_delta");
}

/// A message is read block by block: what two lists of blocks say together is what the first says and
/// then what the second says, and they can be read where each can.
pub proof fn a_message_is_said_block_by_block(first: Seq<JsonV>, second: Seq<JsonV>)
    ensures
        block_parts(first + second) is Ok <==> block_parts(first) is Ok && block_parts(second) is Ok,
        block_parts(first) is Ok && block_parts(second) is Ok ==> ({
            let a = block_parts(first)->Ok_0;
            let b = block_parts(second)->Ok_0;
            let both = block_parts(first + second)->Ok_0;
            &&& both.text == a.text + b.text
            &&& both.content == a.content + b.content
            &&& both.calls == a.calls + b.calls
        }),
    decreases second.len(),
{
    if second.len() == 0 {
        assert(first + second =~= first);
        if block_parts(first) is Ok {
            let a = block_parts(first)->Ok_0;
            assert(a.text + Seq::<char>::empty() =~= a.text);
            assert(a.content + Seq::<JsonV>::empty() =~= a.content);
            assert(a.calls + Seq::<ToolCallV>::empty() =~= a.calls);
        }
    } else {
        a_message_is_said_block_by_block(first, second.drop_last());
        assert((first + second).drop_last() =~= first + second.drop_last());
        assert((first + second).last() == second.last());
        let block = second.last();
        if block_parts(first) is Ok && block_parts(second.drop_last()) is Ok {
            let a = block_parts(first)->Ok_0;
            let b = block_parts(second.drop_last())->Ok_0;
            let both = block_parts(first + second.drop_last())->Ok_0;
            if add_block(b, block) is Ok {
                let more = add_block(b, block)->Ok_0;
                let after = add_block(both, block)->Ok_0;
                assert(after.text =~= a.text + more.text);
                assert(after.content =~= a.content + more.content);
                assert(after.calls =~= a.calls + more.calls);
            }
        }
    }
}

/// A block says what it holds. Text is shown, and counts as the text of the message; a refusal is
/// shown; a tool block is a call with the input that it has; thinking is not shown. A block that lacks
/// what its kind needs, or is of another kind, cannot be read.
pub proof fn a_block_says_what_it_holds(block: JsonV)
    ensures
        ({
            let r = block_parts(seq![block]);
            let said = r->Ok_0;
            let input = block.get("input"@);
            let words = match block.get("refusal"@) {
                Some(w) => worded(Some(w)),
                None => worded(block.get("text"@)),
            };
            &&& is_kind(block, "text"@) ==> (r is Ok <==> block.get("text"@) is Some && block.get(
                "text"@,
            )->0 is Str)
            &&& is_kind(block, "text"@) && r is Ok ==> said.text == worded(block.get("text"@))
                && said.content.len() == 1 && says_text(
                said.content[0],
                worded(block.get("text"@)),
                JsonV::Array(Seq::empty()),
            ) && said.calls.len() == 0
            &&& is_kind(block, "refusal"@) ==> r is Ok && said.text.len() == 0 && said.content.len()
                == 1 && says_refusal(said.content[0], words) && said.calls.len() == 0
            &&& is_kind(block, "tool_use"@) ==> (r is Ok <==> worded(block.get("id"@)).len() > 0
                && worded(block.get("name"@)).len() > 0 && (input is None || input->0 is Object))
            &&& is_kind(block, "tool_use"@) && r is Ok ==> said.text.len() == 0
                && said.content.len() == 0 && said.calls.len() == 1 && said.calls[0].call_id == Some(
                worded(block.get("id"@)),
            ) && said.calls[0].name == worded(block.get("name"@)) && said.calls[0].arguments
                == json_text(
                match input {
                    Some(v) => v,
                    None => JsonV::obj(),
                },
            )
            &&& is_kind(block, "thinking"@) || is_kind(block, "redacted_thinking"@) ==> r is Ok
                && said.text.len() == 0 && said.content.len() == 0 && said.calls.len() == 0
            &&& r is Ok ==> is_kind(block, "text"@) || is_kind(block, "refusal"@) || is_kind(
                block,
                "tool_use"@,
            ) || is_kind(block, "thinking"@) || is_kind(block, "redacted_thinking"@)
        }),
{
    lemma_block_kinds();
    let one = seq![block];
    assert(one.drop_last() =~= Seq::<JsonV>::empty());
    assert(block_parts(one.drop_last()) is Ok);
    assert(one.last() == block);
    assert(Seq::<char>::empty() + worded(block.get("text"@)) =~= worded(block.get("text"@)));
}

proof fn lemma_token_names()
    ensures
        "input_tokens"@.len() == 12,
        "output_tokens"@.len() == 13,
        "input_tokens_details"@.len() == 20,
        "output_tokens_details"@.len() == 21,
        "total_tokens"@.len() == 12 && "total_tokens"@[0] == 't',
        "input_tokens"@[0] == 'i',
{
    reveal_strlit("input_tokens");
    reveal_strlit("output_tokens");
    reveal_strlit("input_tokens_details");
    reveal_strlit("output_tokens_details");
    reveal_strlit("total_tokens");
}

/// The number, or the largest that can be told.
pub open spec fn told(n: int) -> JsonV {
    JsonV::Unsigned(
        if n > u64::MAX {
            u64::MAX
        } else {
            n as u64
        },
    )
}

/// Every count of a message's usage arrives: what went in is what was read fresh, what was put into
/// the cache and what was read out of it; and the total is what went in and what came out.
pub proof fn every_count_of_a_message_arrives(usage: JsonV)
    ensures
        ({
            let made = anthropic_usage(usage);
            let cached = counted(usage.get("cache_read_input_tokens"@));
            let input = counted(usage.get("input_tokens"@)) + counted(
                usage.get("cache_creation_input_tokens"@),
            ) + cached;
            let output = counted(usage.get("output_tokens"@));
            &&& made.get("input_tokens"@) == Some(told(input))
            &&& made.get2("input_tokens_details"@, "cached_tokens"@) == Some(told(cached as int))
            &&& made.get("output_tokens"@) == Some(told(output as int))
            &&& made.get2("output_tokens_details"@, "reasoning_tokens"@) == Some(told(0))
            &&& made.get("total_tokens"@) == Some(told(input + output))
        }),
{
    lemma_token_names();
}

/// What a stream has brought of a block.
pub open spec fn block_at(state: AnthropicState, index: u64) -> BlockV {
    match slot(state.blocks, index) {
        Some(b) => b,
        None => empty_block(),
    }
}

/// The event brings a delta of this kind for this block.
pub open spec fn brings_delta(event: JsonV, index: u64, kind: Seq<char>) -> bool {
    &&& !context_length_error(event)
    &&& is_kind(event, "content_block_delta"@)
    &&& event.get("index"@) == Some(JsonV::Unsigned(index))
    &&& event.get("delta"@) is Some && event.get("delta"@)->0 is Object
    &&& event.get2("delta"@, "type"@) == Some(JsonV::Str(kind))
}

/// Nothing but the blocks differs.
pub open spec fn only_blocks_differ(a: AnthropicState, b: AnthropicState) -> bool {
    &&& a.retain_text == b.retain_text
    &&& a.id == b.id
    &&& a.model == b.model
    &&& a.stop_reason == b.stop_reason
    &&& a.usage == b.usage
    &&& a.stopped == b.stopped
}

/// A piece is put to what its block holds: text to the text, where text is kept, and input to the
/// input. It tells a block's kind only where that is not known, and touches no other block.
pub proof fn a_piece_is_put_to_its_block(
    state: AnthropicState,
    event: JsonV,
    index: u64,
    kind: Seq<char>,
    other: u64,
)
    requires
        rising(state.blocks),
        brings_delta(event, index, kind),
        kind == "text_delta"@ || kind == "thinking_delta"@ || kind == "input_json_delta"@ || kind
            == "signature_delta"@ || kind == "citations_delta"@,
    ensures
        ({
            let (after, r) = anthropic_step(state, event);
            let before = block_at(state, index);
            let block = slot(after.blocks, index)->0;
            let text = worded(event.get2("delta"@, "text"@));
            let thought = worded(event.get2("delta"@, "thinking"@));
            let input = worded(event.get2("delta"@, "partial_json"@));
            let typed = before.block_type.len() > 0;
            &&& r is Ok
            &&& rising(after.blocks)
            &&& only_blocks_differ(after, state)
            &&& other != index ==> slot(after.blocks, other) == slot(state.blocks, other)
            &&& slot(after.blocks, index) is Some
            &&& block.id == before.id && block.name == before.name && block.input == before.input
            &&& block.text == before.text + if !state.retain_text {
                Seq::empty()
            } else if kind == "text_delta"@ {
                text
            } else if kind == "thinking_delta"@ {
                thought
            } else {
                Seq::empty()
            }
            &&& block.partial_json == before.partial_json + if kind == "input_json_delta"@ {
                input
            } else {
                Seq::empty()
            }
            &&& typed ==> block.block_type == before.block_type
            &&& !typed && kind == "text_delta"@ ==> block.block_type == "text"@
            &&& !typed && kind == "thinking_delta"@ ==> block.block_type == "thinking"@
            &&& !typed && kind == "input_json_delta"@ ==> block.block_type == "tool_use"@
        }),
{
    lemma_event_kinds();
    let delta = event.get("delta"@)->0;
    let before = block_at(state, index);
    let (changed, r) = block_delta(before, delta, kind, state.retain_text);
    put_fills_one_slot(state.blocks, index, changed);
    assert(event.get_object("delta"@) == Some(delta));
    assert(before.text + Seq::<char>::empty() =~= before.text);
    assert(before.partial_json + Seq::<char>::empty() =~= before.partial_json);
}

/// How a stream is cut into pieces does not matter: two pieces of text or of input, one after the
/// other, leave every block as the one piece does that holds both.
pub proof fn cutting_a_block_does_not_matter(
    state: AnthropicState,
    first: JsonV,
    second: JsonV,
    whole: JsonV,
    index: u64,
    kind: Seq<char>,
    at: u64,
)
    requires
        rising(state.blocks),
        brings_delta(first, index, kind),
        brings_delta(second, index, kind),
        brings_delta(whole, index, kind),
        kind == "text_delta"@ || kind == "input_json_delta"@,
        worded(whole.get2("delta"@, "text"@)) == worded(first.get2("delta"@, "text"@)) + worded(
            second.get2("delta"@, "text"@),
        ),
        worded(whole.get2("delta"@, "partial_json"@)) == worded(
            first.get2("delta"@, "partial_json"@),
        ) + worded(second.get2("delta"@, "partial_json"@)),
    ensures
        slot(anthropic_step(anthropic_step(state, first).0, second).0.blocks, at) == slot(
            anthropic_step(state, whole).0.blocks,
            at,
        ),
{
    lemma_event_kinds();
    lemma_block_kinds();
    let half = anthropic_step(state, first).0;
    let both = anthropic_step(half, second).0;
    let once = anthropic_step(state, whole).0;
    a_piece_is_put_to_its_block(state, first, index, kind, at);
    a_piece_is_put_to_its_block(half, second, index, kind, at);
    a_piece_is_put_to_its_block(state, whole, index, kind, at);
    if at == index {
        let before = block_at(state, index);
        let a = slot(both.blocks, index)->0;
        let b = slot(once.blocks, index)->0;
        assert(a.text =~= b.text);
        assert(a.partial_json =~= b.partial_json);
        assert(a.block_type == b.block_type);
    }
}

/// A block starts as it is announced, and touches no other block.
pub proof fn a_block_starts_as_it_is_announced(
    state: AnthropicState,
    event: JsonV,
    index: u64,
    kind: Seq<char>,
    other: u64,
)
    requires
        rising(state.blocks),
        !context_length_error(event),
        is_kind(event, "content_block_start"@),
        event.get("index"@) == Some(JsonV::Unsigned(index)),
        event.get2("content_block"@, "type"@) == Some(JsonV::Str(kind)),
    ensures
        ({
            let (after, r) = anthropic_step(state, event);
            let announced = event.get("content_block"@)->0;
            let block = slot(after.blocks, index)->0;
            &&& r is Ok
            &&& rising(after.blocks)
            &&& only_blocks_differ(after, state)
            &&& other != index ==> slot(after.blocks, other) == slot(state.blocks, other)
            &&& slot(after.blocks, index) is Some
            &&& block.block_type == kind
            &&& block.id == worded(announced.get("id"@))
            &&& block.name == worded(announced.get("name"@))
            &&& block.input == announced.get("input"@)
            &&& block.partial_json.len() == 0
            &&& !state.retain_text ==> block.text.len() == 0
            &&& state.retain_text && announced.get("text"@) is Some ==> block.text == worded(
                announced.get("text"@),
            )
        }),
{
    lemma_event_kinds();
    let announced = event.get("content_block"@)->0;
    put_fills_one_slot(
        state.blocks,
        index,
        announced_block(announced, state.retain_text)->Ok_0,
    );
}

/// The last words of a message are kept: why it stopped, and the counts that come with it, each in the
/// place of an earlier one. Its end is its end.
pub proof fn the_end_of_a_message_is_kept(state: AnthropicState, event: JsonV, key: Seq<char>)
    requires
        !context_length_error(event),
        state.usage is Object,
        is_kind(event, "message_delta"@) || is_kind(event, "message_stop"@),
    ensures
        ({
            let (after, r) = anthropic_step(state, event);
            let delta = is_kind(event, "message_delta"@);
            let reason = event.get2("delta"@, "stop_reason"@);
            let usage = event.get("usage"@);
            let counts = delta && usage is Some && usage->0 is Object;
            &&& r is Ok
            &&& after.blocks == state.blocks && after.id == state.id && after.model == state.model
            &&& after.stopped == (state.stopped || !delta)
            &&& after.stop_reason == if delta && reason is Some && reason->0 is Str {
                Some(worded(reason))
            } else {
                state.stop_reason
            }
            &&& after.usage.get(key) == if counts && usage->0.get(key) is Some {
                usage->0.get(key)
            } else {
                state.usage.get(key)
            }
        }),
{
    lemma_event_kinds();
}

/// A message starts with what is told of it: its id and its model, where they are told, and its
/// counts. Where it brings no blocks, the blocks stay.
pub proof fn a_message_starts_as_it_is_told(state: AnthropicState, event: JsonV, key: Seq<char>)
    requires
        !context_length_error(event),
        state.usage is Object,
        is_kind(event, "message_start"@),
        event.get("message"@) is Some && event.get("message"@)->0 is Object,
    ensures
        ({
            let (after, r) = anthropic_step(state, event);
            let message = event.get("message"@)->0;
            let id = worded(message.get("id"@));
            let model = worded(message.get("model"@));
            let usage = message.get("usage"@);
            let counts = usage is Some && usage->0 is Object;
            let content = message.get("content"@);
            &&& after.id == if id.len() > 0 {
                id
            } else {
                state.id
            }
            &&& after.model == if model.len() > 0 {
                model
            } else {
                state.model
            }
            &&& after.usage.get(key) == if counts && usage->0.get(key) is Some {
                usage->0.get(key)
            } else {
                state.usage.get(key)
            }
            &&& after.stop_reason == state.stop_reason && after.stopped == state.stopped
            &&& content is None || !(content->0 is Array) || (content->0)->Array_0.len() == 0 ==> r is Ok
                && after.blocks == state.blocks
        }),
{
    lemma_event_kinds();
}

/// The value is this block: what it was said to be, with all of its text, or with all of its input.
pub open spec fn holds_block(value: JsonV, block: BlockV) -> bool {
    &&& is_kind(value, block.block_type)
    &&& block.block_type == "text"@ ==> value.get("text"@) == Some(JsonV::Str(block.text))
    &&& block.block_type == "refusal"@ ==> value.get("refusal"@) == Some(JsonV::Str(block.text))
    &&& block.block_type == "thinking"@ ==> value.get("thinking"@) == Some(JsonV::Str(block.text))
    &&& block.block_type == "tool_use"@ ==> value.get("id"@) == Some(JsonV::Str(block.id))
        && value.get("name"@) == Some(JsonV::Str(block.name)) && value.get("input"@) is Some
        && value.get("input"@)->0 is Object && if trim(block.partial_json).len() > 0 {
        text_parsed(block.partial_json) is Ok && text_parsed(block.partial_json)->Ok_0 == value.get(
            "input"@,
        )->0
    } else {
        value.get("input"@)->0 == match block.input {
            Some(v) => v,
            None => JsonV::obj(),
        }
    }
}

proof fn lemma_value_holds_block(block: BlockV)
    requires
        block_value(block) is Ok,
    ensures
        holds_block(block_value(block)->Ok_0, block),
{
    lemma_block_kinds();
}

proof fn lemma_values_hold_blocks(blocks: Seq<(u64, BlockV)>, i: int)
    requires
        block_values(blocks) is Ok,
    ensures
        block_values(blocks)->Ok_0.len() == blocks.len(),
        0 <= i < blocks.len() ==> holds_block(block_values(blocks)->Ok_0[i], blocks[i].1),
    decreases blocks.len(),
{
    if blocks.len() > 0 {
        lemma_values_hold_blocks(blocks.drop_last(), i);
        lemma_value_holds_block(blocks.last().1);
    }
}

/// The message of a stream is what was streamed: every block in its place, with its id, its model, the
/// reason why it stopped, and its usage.
pub proof fn a_streamed_message_holds_its_blocks(state: AnthropicState, i: int)
    requires
        streamed_message(state) is Ok,
        0 <= i < state.blocks.len(),
    ensures
        ({
            let message = streamed_message(state)->Ok_0;
            let content = message.get("content"@);
            &&& message.get("id"@) == Some(JsonV::Str(state.id))
            &&& message.get("model"@) == Some(JsonV::Str(state.model))
            &&& message.get("role"@) == Some(JsonV::Str("assistant"@))
            &&& message.get("usage"@) == Some(state.usage)
            &&& message.get("stop_reason"@) == Some(
                match state.stop_reason {
                    Some(s) => JsonV::Str(s),
                    None => JsonV::Null,
                },
            )
            &&& content is Some && content->0 is Array
            &&& (content->0)->Array_0.len() == state.blocks.len()
            &&& holds_block((content->0)->Array_0[i], state.blocks[i].1)
        }),
{
    lemma_values_hold_blocks(state.blocks, i);
    reveal_strlit("id");
    reveal_strlit("type");
    reveal_strlit("role");
    reveal_strlit("model");
    reveal_strlit("content");
    reveal_strlit("stop_reason");
    reveal_strlit("usage");
    assert("id"@.len() == 2 && "type"@.len() == 4 && "role"@.len() == 4 && "model"@.len() == 5
        && "content"@.len() == 7 && "stop_reason"@.len() == 11 && "usage"@.len() == 5);
    assert("type"@[0] == 't' && "role"@[0] == 'r' && "model"@[0] == 'm' && "usage"@[0] == 'u');
}

proof fn lemma_document_names()
    ensures
        "id"@.len() == 2,
        "object"@.len() == 6 && "object"@[0] == 'o' && "object"@[1] == 'b',
        "created_at"@.len() == 10,
        "status"@.len() == 6 && "status"@[0] == 's',
        "model"@.len() == 5 && "model"@[0] == 'm',
        "output"@.len() == 6 && "output"@[0] == 'o' && "output"@[1] == 'u',
        "output_text"@.len() == 11,
        "error"@.len() == 5 && "error"@[0] == 'e',
        "incomplete_details"@.len() == 18,
        "usage"@.len() == 5 && "usage"@[0] == 'u',
        "role"@.len() == 4 && "role"@[0] == 'r',
        "content"@.len() == 7,
        "max_tokens"@.len() == 10,
{
    reveal_strlit("id");
    reveal_strlit("object");
    reveal_strlit("created_at");
    reveal_strlit("status");
    reveal_strlit("model");
    reveal_strlit("output");
    reveal_strlit("output_text");
    reveal_strlit("error");
    reveal_strlit("incomplete_details");
    reveal_strlit("usage");
    reveal_strlit("role");
    reveal_strlit("content");
    reveal_strlit("max_tokens");
}

/// The response says what the message said. Its output is one message with every part that is shown,
/// and then every tool call; where there is neither, a message without text. It is incomplete exactly
/// where the message was cut off, by its length or by a refusal; and the usage arrives.
#[verifier::rlimit(40)]
#[verifier::spinoff_prover]
pub proof fn a_response_says_what_the_message_said(
    message: JsonV,
    fallback_model: Seq<char>,
    parts: MessagePartsV,
    calls: Seq<JsonV>,
    message_id: Seq<char>,
    response_id: Seq<char>,
    now: i64,
)
    ensures
        ({
            let response = message_document(
                message,
                fallback_model,
                parts,
                calls,
                message_id,
                response_id,
                now,
            );
            let model = worded(message.get("model"@));
            let stop = message.get("stop_reason"@);
            let long = stop == Some(JsonV::Str("max_tokens"@));
            let refused = stop == Some(JsonV::Str("refusal"@));
            let output = response.get("output"@);
            let items = (output->0)->Array_0;
            &&& response.get("id"@) == Some(JsonV::Str(response_id))
            &&& response.get("object"@) == Some(JsonV::Str("response"@))
            &&& response.get("created_at"@) == Some(JsonV::signed(now))
            &&& response.get("error"@) == Some(JsonV::Null)
            &&& response.get("model"@) == Some(
                JsonV::Str(
                    if model.len() > 0 {
                        model
                    } else {
                        fallback_model
                    },
                ),
            )
            &&& response.get("output_text"@) == Some(JsonV::Str(parts.text))
            &&& response.get("status"@) == Some(
                JsonV::Str(
                    if long || refused {
                        "incomplete"@
                    } else {
                        "completed"@
                    },
                ),
            )
            &&& long ==> response.get2("incomplete_details"@, "reason"@) == Some(
                JsonV::Str("max_output_tokens"@),
            )
            &&& refused ==> response.get2("incomplete_details"@, "reason"@) == Some(
                JsonV::Str("content_filter"@),
            )
            &&& !long && !refused ==> response.get("incomplete_details"@) == Some(JsonV::Null)
            &&& message.get("usage"@) is None ==> response.get("usage"@) is None
            &&& message.get("usage"@) is Some ==> response.get("usage"@) == Some(
                anthropic_usage(message.get("usage"@)->0),
            )
            &&& output is Some && output->0 is Array
            &&& parts.content.len() > 0 ==> items.len() == calls.len() + 1 && items.subrange(
                1,
                items.len() as int,
            ) == calls && says_message(items[0], message_id, parts.content)
            &&& parts.content.len() == 0 && calls.len() > 0 ==> items == calls
            &&& parts.content.len() == 0 && calls.len() == 0 ==> items.len() == 1 && (items[0].get(
                "content"@,
            ) matches Some(JsonV::Array(said)) && says_message(items[0], message_id, said)
                && said.len() == 1 && says_text(
                said[0],
                Seq::empty(),
                JsonV::Array(Seq::empty()),
            ))
        }),
{
    lemma_document_names();
    lemma_block_kinds();
    let output = response_output(message_id, parts.content, calls);
    if parts.content.len() > 0 {
        assert(output.subrange(1, output.len() as int) =~= calls);
        assert(says_message(output[0], message_id, parts.content));
    } else if calls.len() == 0 {
        let one = seq![output_text(Seq::empty(), JsonV::Array(Seq::empty()))];
        assert(says_text(one[0], Seq::empty(), JsonV::Array(Seq::empty())));
        assert(says_message(output[0], message_id, one));
    }
}

/// The client is told what an event brings, at once: the text, or the input of the tool call at that
/// place, and of thinking nothing.
pub proof fn the_client_is_told_what_a_message_brings(
    event: JsonV,
    index: u64,
    kind: Seq<char>,
    at: u64,
)
    requires
        brings_delta(event, index, kind),
    ensures
        ({
            let r = anthropic_actions(event);
            let actions = r->Ok_0;
            let text = worded(event.get2("delta"@, "text"@));
            let input = worded(event.get2("delta"@, "partial_json"@));
            let silent = kind == "thinking_delta"@ || kind == "signature_delta"@ || kind
                == "citations_delta"@;
            &&& r is Ok <==> silent || kind == "text_delta"@ || kind == "input_json_delta"@
            &&& silent ==> actions.len() == 0
            &&& kind == "text_delta"@ ==> told_text(actions) == text && told_arguments(
                actions,
                at,
            ).len() == 0
            &&& kind == "input_json_delta"@ ==> told_text(actions).len() == 0 && told_arguments(
                actions,
                at,
            ) == if at == index {
                input
            } else {
                Seq::empty()
            }
        }),
{
    lemma_event_kinds();
    let delta = event.get("delta"@)->0;
    assert(event.get_object("delta"@) == Some(delta));
    let actions = anthropic_actions(event)->Ok_0;
    if kind == "text_delta"@ || kind == "input_json_delta"@ {
        assert(actions.drop_last() =~= Seq::<StreamActionV>::empty());
        assert(told_text(actions.drop_last()) =~= Seq::<char>::empty());
        assert(told_arguments(actions.drop_last(), at) =~= Seq::<char>::empty());
        assert(Seq::<char>::empty() + worded(event.get2("delta"@, "text"@)) =~= worded(
            event.get2("delta"@, "text"@),
        ));
        assert(Seq::<char>::empty() + worded(event.get2("delta"@, "partial_json"@)) =~= worded(
            event.get2("delta"@, "partial_json"@),
        ));
    }
}

/// The client is told of a block as soon as it starts: its first text, its refusal, or the tool call
/// with its id, its name and its input; and nothing of thinking.
pub proof fn the_client_is_told_of_a_block(event: JsonV, index: u64)
    requires
        !context_length_error(event),
        is_kind(event, "content_block_start"@),
        event.get("index"@) == Some(JsonV::Unsigned(index)),
        event.get("content_block"@) is Some,
    ensures
        ({
            let r = anthropic_actions(event);
            let block = event.get("content_block"@)->0;
            let actions = r->Ok_0;
            &&& is_kind(block, "text"@) ==> r is Ok && actions.len() == 1 && (
            actions[0] matches StreamActionV::Text(t) && t == worded(block.get("text"@)))
            &&& is_kind(block, "refusal"@) ==> r is Ok && actions.len() == 1 && (
            actions[0] matches StreamActionV::Refusal(t) && t == match block.get("refusal"@) {
                Some(words) => worded(Some(words)),
                None => worded(block.get("text"@)),
            })
            &&& is_kind(block, "tool_use"@) ==> r is Ok && actions.len() == 1 && (
            actions[0] matches StreamActionV::Tool { index: place, id, name, delta, whole } && place
                == index && delta is None && (id is Some <==> block.get("id"@) is Some && block.get(
                "id"@,
            )->0 is Str) && (id is Some ==> id->0 == worded(block.get("id"@))) && (name is Some
                <==> block.get("name"@) is Some && block.get("name"@)->0 is Str) && (name is Some
                ==> name->0 == worded(block.get("name"@))) && (whole is Some <==> block.get(
                "input"@,
            ) is Some) && (whole is Some ==> whole->0 == json_text(block.get("input"@)->0)))
            &&& is_kind(block, "thinking"@) || is_kind(block, "redacted_thinking"@) ==> r is Ok
                && actions.len() == 0
        }),
{
    lemma_event_kinds();
    lemma_block_kinds();
}

} // verus!
