//! The parts of a Responses document that both adapted protocols share.
use crate::json::{Json, JsonV, own_view, string_view, text_view, views};
use vstd::prelude::*;

verus! {

/// A tool call that an upstream made, before its name is restored.
#[derive(Debug)]
pub struct ToolCall {
    /// The upstream's id, where it gave one.
    pub call_id: Option<String>,
    pub name: String,
    pub arguments: String,
}

/// What a tool call is.
pub struct ToolCallV {
    pub call_id: Option<Seq<char>>,
    pub name: Seq<char>,
    pub arguments: Seq<char>,
}

impl View for ToolCall {
    type V = ToolCallV;

    open spec fn view(&self) -> ToolCallV {
        ToolCallV {
            call_id: string_view(self.call_id),
            name: self.name@,
            arguments: self.arguments@,
        }
    }
}

/// The views of a list of calls.
pub open spec fn calls_view(calls: Seq<ToolCall>) -> Seq<ToolCallV> {
    Seq::new(calls.len(), |i: int| calls[i]@)
}

/// The views of a list of calls that grows.
pub broadcast proof fn calls_push(calls: Seq<ToolCall>, call: ToolCall)
    ensures
        #[trigger] calls_view(calls.push(call)) == calls_view(calls).push(call@),
{
    assert(calls_view(calls.push(call)) =~= calls_view(calls).push(call@));
}

/// A piece of the assistant's text.
pub open spec fn output_text(text: Seq<char>, annotations: JsonV) -> JsonV {
    JsonV::obj().with("type"@, JsonV::Str("output_text"@)).with("text"@, JsonV::Str(text)).with(
        "annotations"@,
        annotations,
    )
}

pub fn make_output_text(text: &str, annotations: Json) -> (r: Json)
    ensures
        r@ == output_text(text@, annotations@),
{
    Json::obj().with("type", Json::str("output_text")).with("text", Json::str(text)).with(
        "annotations",
        annotations,
    )
}

/// A refusal of the assistant.
pub open spec fn refusal_part(text: Seq<char>) -> JsonV {
    JsonV::obj().with("type"@, JsonV::Str("refusal"@)).with("refusal"@, JsonV::Str(text))
}

pub fn make_refusal(text: &str) -> (r: Json)
    ensures
        r@ == refusal_part(text@),
{
    Json::obj().with("type", Json::str("refusal")).with("refusal", Json::str(text))
}

/// A message of the assistant.
pub open spec fn message_item(id: Seq<char>, content: Seq<JsonV>) -> JsonV {
    JsonV::obj().with("id"@, JsonV::Str(id)).with("type"@, JsonV::Str("message"@)).with(
        "status"@,
        JsonV::Str("completed"@),
    ).with("role"@, JsonV::Str("assistant"@)).with("content"@, JsonV::Array(content))
}

pub fn make_message_item(id: &str, content: Vec<Json>) -> (r: Json)
    ensures
        r@ == message_item(id@, views(content@)),
{
    Json::obj().with("id", Json::str(id)).with("type", Json::str("message")).with(
        "status",
        Json::str("completed"),
    ).with("role", Json::str("assistant")).with("content", Json::array(content))
}

/// The output of a response: the assistant's message where it said something, then the tool
/// calls; an empty message where there is neither.
pub open spec fn response_output(message_id: Seq<char>, content: Seq<JsonV>, calls: Seq<JsonV>) -> Seq<
    JsonV,
> {
    if content.len() > 0 {
        seq![message_item(message_id, content)] + calls
    } else if calls.len() > 0 {
        calls
    } else {
        seq![
            message_item(
                message_id,
                seq![output_text(Seq::empty(), JsonV::Array(Seq::empty()))],
            ),
        ]
    }
}

pub fn make_response_output(message_id: &str, content: Vec<Json>, calls: Vec<Json>) -> (r: Vec<Json>)
    ensures
        views(r@) == response_output(message_id@, views(content@), views(calls@)),
{
    let ghost items = views(calls@);
    let mut output = calls;
    if content.len() > 0 {
        let message = make_message_item(message_id, content);
        output.insert(0, message);
        proof {
            assert(views(output@) =~= seq![message@] + items);
        }
    } else if output.len() == 0 {
        let empty: Vec<Json> = Vec::new();
        proof {
            assert(views(empty@) =~= Seq::<JsonV>::empty());
        }
        let mut parts: Vec<Json> = Vec::new();
        let part = make_output_text("", Json::array(empty));
        parts.push(part);
        proof {
            reveal_strlit("");
            assert(""@ =~= Seq::<char>::empty());
            assert(views(parts@) =~= seq![part@]);
        }
        let message = make_message_item(message_id, parts);
        output.push(message);
        proof {
            assert(views(output@) =~= seq![message@]);
        }
    }
    output
}

/// Why a response is incomplete, as the document says it.
pub open spec fn incomplete_details(reason: Option<Seq<char>>) -> JsonV {
    match reason {
        Some(r) => JsonV::obj().with("reason"@, JsonV::Str(r)),
        None => JsonV::Null,
    }
}

/// A Responses document.
pub open spec fn response_document(
    id: Seq<char>,
    created_at: i64,
    model: Seq<char>,
    output: Seq<JsonV>,
    text: Seq<char>,
    incomplete: Option<Seq<char>>,
    usage: Option<JsonV>,
) -> JsonV {
    let status = if incomplete is Some {
        "incomplete"@
    } else {
        "completed"@
    };
    let document = JsonV::obj().with("id"@, JsonV::Str(id)).with(
        "object"@,
        JsonV::Str("response"@),
    ).with("created_at"@, JsonV::signed(created_at)).with("status"@, JsonV::Str(status)).with(
        "model"@,
        JsonV::Str(model),
    ).with("output"@, JsonV::Array(output)).with("output_text"@, JsonV::Str(text)).with(
        "error"@,
        JsonV::Null,
    ).with("incomplete_details"@, incomplete_details(incomplete));
    match usage {
        Some(u) => document.with("usage"@, u),
        None => document,
    }
}

pub fn make_response_document(
    id: &str,
    created_at: i64,
    model: &str,
    output: Vec<Json>,
    text: &str,
    incomplete: Option<&str>,
    usage: Option<Json>,
) -> (r: Json)
    ensures
        r@ == response_document(
            id@,
            created_at,
            model@,
            views(output@),
            text@,
            text_view(incomplete),
            own_view(usage),
        ),
{
    let status = if incomplete.is_some() {
        "incomplete"
    } else {
        "completed"
    };
    let details = match incomplete {
        Some(reason) => Json::obj().with("reason", Json::str(reason)),
        None => Json::null(),
    };
    let mut document = Json::obj().with("id", Json::str(id)).with(
        "object",
        Json::str("response"),
    ).with("created_at", Json::signed(created_at)).with("status", Json::str(status)).with(
        "model",
        Json::str(model),
    ).with("output", Json::array(output)).with("output_text", Json::str(text)).with(
        "error",
        Json::null(),
    ).with("incomplete_details", details);
    if let Some(u) = usage {
        document.insert("usage", u);
    }
    document
}

/// The usage member of a Responses document.
pub open spec fn usage_document(
    input: u64,
    cached: u64,
    output: u64,
    reasoning: u64,
    total: u64,
) -> JsonV {
    JsonV::obj().with("input_tokens"@, JsonV::Unsigned(input)).with(
        "input_tokens_details"@,
        JsonV::obj().with("cached_tokens"@, JsonV::Unsigned(cached)),
    ).with("output_tokens"@, JsonV::Unsigned(output)).with(
        "output_tokens_details"@,
        JsonV::obj().with("reasoning_tokens"@, JsonV::Unsigned(reasoning)),
    ).with("total_tokens"@, JsonV::Unsigned(total))
}

pub fn make_usage_document(input: u64, cached: u64, output: u64, reasoning: u64, total: u64) -> (r:
    Json)
    ensures
        r@ == usage_document(input, cached, output, reasoning, total),
{
    Json::obj().with("input_tokens", Json::unsigned(input)).with(
        "input_tokens_details",
        Json::obj().with("cached_tokens", Json::unsigned(cached)),
    ).with("output_tokens", Json::unsigned(output)).with(
        "output_tokens_details",
        Json::obj().with("reasoning_tokens", Json::unsigned(reasoning)),
    ).with("total_tokens", Json::unsigned(total))
}

/// The sum, or the largest number where the sum is beyond it.
pub open spec fn capped_sum(a: int, b: int) -> u64 {
    if a + b > u64::MAX {
        u64::MAX
    } else {
        (a + b) as u64
    }
}

pub fn add_capped(a: u64, b: u64) -> (r: u64)
    ensures
        r == capped_sum(a as int, b as int),
{
    if a > u64::MAX - b {
        u64::MAX
    } else {
        a + b
    }
}

/// Whether a body that is no document may still be a stream of chat completions.
pub open spec fn looks_like_data_stream(body: Seq<u8>) -> bool {
    let data = seq![100u8, 97u8, 116u8, 97u8, 58u8];
    byte_prefix(body, data) || byte_part(body, seq![10u8] + data)
}

/// Whether a body that is no document may still be a stream of messages.
pub open spec fn looks_like_event_stream(body: Seq<u8>) -> bool {
    let event = seq![101u8, 118u8, 101u8, 110u8, 116u8, 58u8];
    looks_like_data_stream(body) || byte_prefix(body, event) || byte_part(
        body,
        seq![10u8] + event,
    )
}

pub open spec fn byte_prefix(body: Seq<u8>, part: Seq<u8>) -> bool {
    byte_at(body, part, 0)
}

pub open spec fn byte_at(body: Seq<u8>, part: Seq<u8>, i: int) -> bool {
    0 <= i && i + part.len() <= body.len() && body.subrange(i, i + part.len()) == part
}

pub open spec fn byte_part(body: Seq<u8>, part: Seq<u8>) -> bool {
    exists|i: int| byte_at(body, part, i)
}

fn has_bytes_at(body: &Vec<u8>, part: &Vec<u8>, i: usize) -> (r: bool)
    ensures
        r == byte_at(body@, part@, i as int),
{
    if i > body.len() || part.len() > body.len() - i {
        return false;
    }
    let mut k: usize = 0;
    while k < part.len()
        invariant
            k <= part.len(),
            i + part.len() <= body.len(),
            forall|j: int| 0 <= j < k ==> body@[i + j] == part@[j],
        decreases part.len() - k,
    {
        if body[i + k] != part[k] {
            proof {
                assert(body@.subrange(i as int, i + part.len())[k as int] != part@[k as int]);
            }
            return false;
        }
        k = k + 1;
    }
    proof {
        assert(body@.subrange(i as int, i + part.len()) =~= part@);
    }
    true
}

fn has_bytes(body: &Vec<u8>, part: &Vec<u8>) -> (r: bool)
    ensures
        r == byte_part(body@, part@),
{
    let mut i: usize = 0;
    while i < body.len()
        invariant
            i <= body.len(),
            forall|j: int| 0 <= j < i ==> !byte_at(body@, part@, j),
        decreases body.len() - i,
    {
        if has_bytes_at(body, part, i) {
            return true;
        }
        i = i + 1;
    }
    has_bytes_at(body, part, body.len())
}

/// Whether a body may be a stream of chat completions.
pub fn body_is_data_stream(body: &Vec<u8>) -> (r: bool)
    ensures
        r == looks_like_data_stream(body@),
{
    let data: Vec<u8> = vec![100u8, 97u8, 116u8, 97u8, 58u8];
    let line: Vec<u8> = vec![10u8, 100u8, 97u8, 116u8, 97u8, 58u8];
    proof {
        let d = seq![100u8, 97u8, 116u8, 97u8, 58u8];
        assert(data@ =~= d);
        assert(line@ =~= seq![10u8] + d);
    }
    has_bytes_at(body, &data, 0) || has_bytes(body, &line)
}

/// Whether a body may be a stream of messages.
pub fn body_is_event_stream(body: &Vec<u8>) -> (r: bool)
    ensures
        r == looks_like_event_stream(body@),
{
    let event: Vec<u8> = vec![101u8, 118u8, 101u8, 110u8, 116u8, 58u8];
    let line: Vec<u8> = vec![10u8, 101u8, 118u8, 101u8, 110u8, 116u8, 58u8];
    proof {
        let d = seq![101u8, 118u8, 101u8, 110u8, 116u8, 58u8];
        assert(event@ =~= d);
        assert(line@ =~= seq![10u8] + d);
    }
    body_is_data_stream(body) || has_bytes_at(body, &event, 0) || has_bytes(body, &line)
}

/// What a stream event adds to the response.
#[derive(Debug)]
pub enum StreamAction {
    /// More of the assistant's text.
    Text(String),
    /// More of a refusal.
    Refusal(String),
    /// More of a tool call: a further piece of its arguments, or all of them.
    Tool {
        index: u64,
        id: Option<String>,
        name: Option<String>,
        delta: Option<String>,
        whole: Option<String>,
    },
}

/// What an action is.
pub enum StreamActionV {
    Text(Seq<char>),
    Refusal(Seq<char>),
    Tool {
        index: u64,
        id: Option<Seq<char>>,
        name: Option<Seq<char>>,
        delta: Option<Seq<char>>,
        whole: Option<Seq<char>>,
    },
}

impl View for StreamAction {
    type V = StreamActionV;

    open spec fn view(&self) -> StreamActionV {
        match self {
            StreamAction::Text(t) => StreamActionV::Text(t@),
            StreamAction::Refusal(t) => StreamActionV::Refusal(t@),
            StreamAction::Tool { index, id, name, delta, whole } => StreamActionV::Tool {
                index: *index,
                id: string_view(*id),
                name: string_view(*name),
                delta: string_view(*delta),
                whole: string_view(*whole),
            },
        }
    }
}

/// The views of a list of actions.
pub open spec fn actions_view(actions: Seq<StreamAction>) -> Seq<StreamActionV> {
    Seq::new(actions.len(), |i: int| actions[i]@)
}

/// The views of a list of actions that grows.
pub broadcast proof fn actions_push(actions: Seq<StreamAction>, action: StreamAction)
    ensures
        #[trigger] actions_view(actions.push(action)) == actions_view(actions).push(action@),
{
    assert(actions_view(actions.push(action)) =~= actions_view(actions).push(action@));
}

} // verus!
