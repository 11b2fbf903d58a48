//! Streams of other protocols, told to the client while they come in.
use crate::json::{Json, JsonV, own_view, string_view};
use crate::local_router::adapt::{
    StreamAction, StreamActionV, ToolCall, ToolCallV, actions_view, calls_view,
};
use crate::local_router::errors::{Failure, FailureV};
use crate::local_router::sse::{
    SseFeed, SseFrameAccumulator, drive, feeding_in_pieces, json_frame, sse_json_frame,
};
use crate::local_router::sse_anthropic::{
    AnthropicSseAccumulator, AnthropicSseBlock, AnthropicState, BlockV, anthropic_actions,
    anthropic_incomplete, anthropic_step, anthropic_usage, anthropic_usage_to_responses_usage,
    emit_anthropic_stream_event, fresh_message, message_parts, read_anthropic_message,
    streamed_message, told,
};
use crate::local_router::sse_chat::{
    ChatSseAccumulator, ChatState, chat_actions, chat_incomplete, chat_parts, chat_step,
    chat_usage, chat_usage_to_responses_usage, emit_chat_stream_event, fresh_chat,
    read_chat_completion, streamed_chat, text_or_empty,
};
use crate::slots::{Slots, entry_has_its_place, rising};
use crate::text::{str_eq, texts, trim, trim_of_clean, trimmed};
use vstd::prelude::*;
use vstd::string::*;

verus! {

/// How a stream ended.
#[derive(Debug)]
pub struct StreamEnd {
    pub usage: Option<Json>,
    /// Why the answer is not whole, where it is not.
    pub incomplete: Option<String>,
    /// The calls of tools in it.
    pub calls: Vec<ToolCall>,
}

pub struct StreamEndV {
    pub usage: Option<JsonV>,
    pub incomplete: Option<Seq<char>>,
    pub calls: Seq<ToolCallV>,
}

impl View for StreamEnd {
    type V = StreamEndV;

    open spec fn view(&self) -> StreamEndV {
        StreamEndV {
            usage: own_view(self.usage),
            incomplete: string_view(self.incomplete),
            calls: calls_view(self.calls@),
        }
    }
}

pub open spec fn end_result(r: Result<StreamEnd, Failure>) -> Result<StreamEndV, FailureV> {
    match r {
        Ok(e) => Ok(e@),
        Err(e) => Err(e@),
    }
}

fn add_actions(actions: &mut Vec<StreamAction>, more: Vec<StreamAction>)
    ensures
        actions_view(final(actions)@) == actions_view(old(actions)@) + actions_view(more@),
{
    let ghost before = actions@;
    let ghost added = more@;
    let mut more = more;
    actions.append(&mut more);
    proof {
        assert(actions_view(actions@) =~= actions_view(before) + actions_view(added));
    }
}

/// A stream of chat completions: what has come in, and what the client is still to be told.
pub struct ChatStream {
    pub accumulator: ChatSseAccumulator,
    pub actions: Vec<StreamAction>,
}

pub struct ChatStreamState {
    pub chat: ChatState,
    pub actions: Seq<StreamActionV>,
}

/// A chunk is taken in first, and then told.
pub open spec fn chat_stream_step(state: ChatStreamState, data: Seq<char>, trailing: bool) -> (
    ChatStreamState,
    Result<(), FailureV>,
) {
    if trim(data) == "[DONE]"@ {
        (ChatStreamState { chat: ChatState { done: true, ..state.chat }, ..state }, Ok(()))
    } else {
        match json_frame(data, "Chat Completions"@, trailing) {
            Err(e) => (state, Err(e)),
            Ok(chunk) => {
                let (chat, taken) = chat_step(state.chat, chunk);
                match taken {
                    Err(e) => (ChatStreamState { chat, ..state }, Err(e)),
                    Ok(()) => match chat_actions(chunk) {
                        Err(e) => (ChatStreamState { chat, ..state }, Err(e)),
                        Ok(told) => (
                            ChatStreamState { chat, actions: state.actions + told },
                            Ok(()),
                        ),
                    },
                }
            },
        }
    }
}

impl SseFrameAccumulator for ChatStream {
    type S = ChatStreamState;

    open spec fn state(&self) -> ChatStreamState {
        ChatStreamState { chat: self.accumulator.state(), actions: actions_view(self.actions@) }
    }

    open spec fn step(state: ChatStreamState, data: Seq<char>, trailing: bool) -> (
        ChatStreamState,
        Result<(), FailureV>,
    ) {
        chat_stream_step(state, data, trailing)
    }

    open spec fn is_finished(state: ChatStreamState) -> bool {
        state.chat.done
    }

    open spec fn inv(&self) -> bool {
        self.accumulator.inv()
    }

    fn ingest_frame(&mut self, data: &str, trailing: bool) -> (r: Result<(), Failure>) {
        if str_eq(trimmed(data).as_str(), "[DONE]") {
            self.accumulator.done = true;
            return Ok(());
        }
        match sse_json_frame(data, "Chat Completions", trailing) {
            Err(e) => Err(e),
            Ok(chunk) => match self.accumulator.ingest(&chunk) {
                Err(e) => Err(e),
                Ok(()) => match emit_chat_stream_event(&chunk) {
                    Err(e) => Err(e),
                    Ok(told) => {
                        add_actions(&mut self.actions, told);
                        Ok(())
                    },
                },
            },
        }
    }

    fn finished(&self) -> (r: bool) {
        self.accumulator.done
    }
}

/// How a stream of chat completions ended: it needs an end of its own, and its tool calls have to
/// be whole.
pub open spec fn chat_stream_end(state: ChatState, fresh: Seq<Seq<char>>) -> Result<
    StreamEndV,
    FailureV,
> {
    match streamed_chat(state, state.done, fresh) {
        Err(e) => Err(e),
        Ok(chat) => match chat_parts(chat) {
            Err(e) => Err(e),
            Ok(parts) => Ok(
                StreamEndV {
                    usage: match chat.get("usage"@) {
                        Some(u) => Some(chat_usage(u)),
                        None => None,
                    },
                    incomplete: chat_incomplete(parts.finish_reason),
                    calls: parts.calls,
                },
            ),
        },
    }
}

impl ChatStream {
    /// A stream before its first chunk.
    pub fn new(id: &str, created: i64, model: &str) -> (r: ChatStream)
        ensures
            r.inv(),
            r.state().chat == fresh_chat(id@, created, model@, false),
            r.state().actions == Seq::<StreamActionV>::empty(),
    {
        let r = ChatStream {
            accumulator: ChatSseAccumulator::for_streaming(id, created, model),
            actions: Vec::new(),
        };
        proof {
            assert(r.state().actions =~= Seq::<StreamActionV>::empty());
        }
        r
    }

    /// Hands out what the client is to be told.
    pub fn take_actions(&mut self) -> (r: Vec<StreamAction>)
        requires
            old(self).inv(),
        ensures
            final(self).inv(),
            actions_view(r@) == old(self).state().actions,
            final(self).state().chat == old(self).state().chat,
            final(self).state().actions == Seq::<StreamActionV>::empty(),
    {
        let mut out: Vec<StreamAction> = Vec::new();
        std::mem::swap(&mut self.actions, &mut out);
        proof {
            assert(self.state().actions =~= Seq::<StreamActionV>::empty());
        }
        out
    }

    /// Ends the stream. Tool calls without an identifier get those given.
    pub fn end(self, fresh: &Vec<String>) -> (r: Result<StreamEnd, Failure>)
        requires
            self.inv(),
            fresh.len() >= self.accumulator.tool_calls@.len(),
        ensures
            end_result(r) == chat_stream_end(self.state().chat, texts(fresh@)),
    {
        let done = self.accumulator.done;
        match self.accumulator.into_chat_completion(done, fresh) {
            Err(e) => Err(e),
            Ok(chat) => match read_chat_completion(&chat) {
                Err(e) => Err(e),
                Ok(parts) => {
                    let usage = match chat.get("usage") {
                        Some(u) => Some(chat_usage_to_responses_usage(u)),
                        None => None,
                    };
                    let incomplete = match &parts.finish_reason {
                        Some(s) => if str_eq(s.as_str(), "length") {
                            Some("max_output_tokens".to_owned())
                        } else if str_eq(s.as_str(), "content_filter") {
                            Some("content_filter".to_owned())
                        } else {
                            None
                        },
                        None => None,
                    };
                    Ok(StreamEnd { usage, incomplete, calls: parts.calls })
                },
            },
        }
    }
}

/// A message stream: what has come in, and what the client is still to be told.
pub struct MessageStream {
    pub accumulator: AnthropicSseAccumulator,
    pub actions: Vec<StreamAction>,
}

pub struct MessageStreamState {
    pub message: AnthropicState,
    pub actions: Seq<StreamActionV>,
}

/// An event is taken in first, and then told.
pub open spec fn message_stream_step(state: MessageStreamState, data: Seq<char>, trailing: bool) -> (
    MessageStreamState,
    Result<(), FailureV>,
) {
    match json_frame(data, "Anthropic Messages"@, trailing) {
        Err(e) => (state, Err(e)),
        Ok(event) => {
            let (message, taken) = anthropic_step(state.message, event);
            match taken {
                Err(e) => (MessageStreamState { message, ..state }, Err(e)),
                Ok(()) => match anthropic_actions(event) {
                    Err(e) => (MessageStreamState { message, ..state }, Err(e)),
                    Ok(told) => (
                        MessageStreamState { message, actions: state.actions + told },
                        Ok(()),
                    ),
                },
            }
        },
    }
}

/// Every frame that has come in whole is taken in, also behind the last event; whether the stream
/// has stopped is asked between two pieces.
impl SseFrameAccumulator for MessageStream {
    type S = MessageStreamState;

    open spec fn state(&self) -> MessageStreamState {
        MessageStreamState {
            message: self.accumulator.state(),
            actions: actions_view(self.actions@),
        }
    }

    open spec fn step(state: MessageStreamState, data: Seq<char>, trailing: bool) -> (
        MessageStreamState,
        Result<(), FailureV>,
    ) {
        message_stream_step(state, data, trailing)
    }

    open spec fn is_finished(state: MessageStreamState) -> bool {
        false
    }

    open spec fn inv(&self) -> bool {
        self.accumulator.inv()
    }

    fn ingest_frame(&mut self, data: &str, trailing: bool) -> (r: Result<(), Failure>) {
        match sse_json_frame(data, "Anthropic Messages", trailing) {
            Err(e) => Err(e),
            Ok(event) => match self.accumulator.ingest(&event) {
                Err(e) => Err(e),
                Ok(()) => match emit_anthropic_stream_event(&event) {
                    Err(e) => Err(e),
                    Ok(told) => {
                        add_actions(&mut self.actions, told);
                        Ok(())
                    },
                },
            },
        }
    }

    fn finished(&self) -> (r: bool) {
        false
    }
}

/// A block whose content the client has been told already.
pub open spec fn is_told(kind: Seq<char>) -> bool {
    kind == "text"@ || kind == "refusal"@ || kind == "thinking"@ || kind == "redacted_thinking"@
}

/// The blocks that are still to be looked at when a stream ends.
pub open spec fn untold_blocks(blocks: Seq<(u64, BlockV)>) -> Seq<(u64, BlockV)>
    decreases blocks.len(),
{
    if blocks.len() == 0 {
        blocks
    } else {
        let rest = untold_blocks(blocks.drop_last());
        if is_told(blocks.last().1.block_type) {
            rest
        } else {
            rest.push(blocks.last())
        }
    }
}

proof fn lemma_untold_without(blocks: Seq<(u64, BlockV)>, i: int)
    requires
        0 <= i < blocks.len(),
        is_told(blocks[i].1.block_type),
    ensures
        untold_blocks(blocks.remove(i)) == untold_blocks(blocks),
    decreases blocks.len(),
{
    let rest = blocks.drop_last();
    if i == blocks.len() - 1 {
        assert(blocks.remove(i) =~= rest);
    } else {
        lemma_untold_without(rest, i);
        assert(blocks.remove(i).drop_last() =~= rest.remove(i));
        assert(blocks.remove(i).last() == blocks.last());
    }
}

proof fn lemma_all_untold(blocks: Seq<(u64, BlockV)>)
    requires
        forall|i: int| 0 <= i < blocks.len() ==> !is_told((#[trigger] blocks[i]).1.block_type),
    ensures
        untold_blocks(blocks) == blocks,
    decreases blocks.len(),
{
    if blocks.len() > 0 {
        let rest = blocks.drop_last();
        assert forall|i: int| 0 <= i < rest.len() implies !is_told(
            (#[trigger] rest[i]).1.block_type,
        ) by {
            assert(blocks[i] == rest[i]);
        }
        lemma_all_untold(rest);
        assert(blocks[blocks.len() - 1] == blocks.last());
        assert(untold_blocks(blocks) =~= blocks);
    }
}

fn drop_told_blocks(blocks: &mut Slots<AnthropicSseBlock>)
    requires
        rising(old(blocks)@),
    ensures
        final(blocks)@ == untold_blocks(old(blocks)@),
{
    let ghost goal = untold_blocks(blocks@);
    let mut i: usize = 0;
    while i < blocks.len()
        invariant
            i <= blocks@.len(),
            rising(blocks@),
            untold_blocks(blocks@) == goal,
            forall|j: int|
                0 <= j < i ==> !is_told((#[trigger] blocks@[j]).1.block_type),
        decreases blocks@.len() - i,
    {
        let told = {
            let kind = blocks.value_at(i).block_type.as_str();
            str_eq(kind, "text") || str_eq(kind, "refusal") || str_eq(kind, "thinking") || str_eq(
                kind,
                "redacted_thinking",
            )
        };
        if told {
            let ghost before = blocks@;
            let key = blocks.key_at(i);
            proof {
                entry_has_its_place(before, i as int);
                lemma_untold_without(before, i as int);
            }
            let _ = blocks.take(key);
            proof {
                let after = before.remove(i as int);
                assert(blocks@ == after);
                assert forall|a: int, b: int| 0 <= a < b < after.len() implies (
                #[trigger] after[a]).0 < (#[trigger] after[b]).0 by {
                    let x = if a < i { a } else { a + 1 };
                    let y = if b < i { b } else { b + 1 };
                    assert(before[x].0 < before[y].0);
                }
                assert forall|j: int| 0 <= j < i implies !is_told(
                    (#[trigger] blocks@[j]).1.block_type,
                ) by {
                    assert(before[j] == blocks@[j]);
                }
            }
        } else {
            i = i + 1;
        }
    }
    proof {
        lemma_all_untold(blocks@);
    }
}

/// How a message stream ended: it needs an end of its own, and its tool calls have to be whole.
pub open spec fn message_stream_end(state: AnthropicState) -> Result<StreamEndV, FailureV> {
    match streamed_message(AnthropicState { blocks: untold_blocks(state.blocks), ..state }) {
        Err(e) => Err(e),
        Ok(message) => match message_parts(message) {
            Err(e) => Err(e),
            Ok(parts) => Ok(
                StreamEndV {
                    usage: match message.get("usage"@) {
                        Some(u) => Some(anthropic_usage(u)),
                        None => None,
                    },
                    incomplete: anthropic_incomplete(message),
                    calls: parts.calls,
                },
            ),
        },
    }
}

impl MessageStream {
    /// A stream before its first event.
    pub fn new(id: &str, model: &str) -> (r: MessageStream)
        ensures
            r.inv(),
            r.state().message == fresh_message(id@, model@, false),
            r.state().actions == Seq::<StreamActionV>::empty(),
    {
        let r = MessageStream {
            accumulator: AnthropicSseAccumulator::for_streaming(id, model),
            actions: Vec::new(),
        };
        proof {
            assert(r.state().actions =~= Seq::<StreamActionV>::empty());
        }
        r
    }

    /// The last event has come in.
    pub fn stopped(&self) -> (r: bool)
        ensures
            r == self.state().message.stopped,
    {
        self.accumulator.stopped
    }

    /// Hands out what the client is to be told.
    pub fn take_actions(&mut self) -> (r: Vec<StreamAction>)
        requires
            old(self).inv(),
        ensures
            final(self).inv(),
            actions_view(r@) == old(self).state().actions,
            final(self).state().message == old(self).state().message,
            final(self).state().actions == Seq::<StreamActionV>::empty(),
    {
        let mut out: Vec<StreamAction> = Vec::new();
        std::mem::swap(&mut self.actions, &mut out);
        proof {
            assert(self.state().actions =~= Seq::<StreamActionV>::empty());
        }
        out
    }

    /// Ends the stream.
    pub fn end(self) -> (r: Result<StreamEnd, Failure>)
        requires
            self.inv(),
        ensures
            end_result(r) == message_stream_end(self.state().message),
    {
        let mut accumulator = self.accumulator;
        drop_told_blocks(&mut accumulator.blocks);
        match accumulator.into_message() {
            Err(e) => Err(e),
            Ok(message) => match read_anthropic_message(&message) {
                Err(e) => Err(e),
                Ok(parts) => {
                    let usage = match message.get("usage") {
                        Some(u) => Some(anthropic_usage_to_responses_usage(u)),
                        None => None,
                    };
                    let incomplete = match message.get_str("stop_reason") {
                        Some(s) => if str_eq(s, "max_tokens") {
                            Some("max_output_tokens".to_owned())
                        } else if str_eq(s, "refusal") {
                            Some("content_filter".to_owned())
                        } else {
                            None
                        },
                        None => None,
                    };
                    Ok(StreamEnd { usage, incomplete, calls: parts.calls })
                },
            },
        }
    }
}

/// How a stream goes on after a piece of it.
#[derive(Debug)]
pub enum StreamStep {
    /// The client is told, and another piece is read.
    More(Vec<StreamAction>),
    /// The client is told, and the stream is ended.
    Last(Vec<StreamAction>),
    Failed(Failure),
}

/// Takes in a piece of a stream of chat completions. What was told before an error stays told.
pub fn stream_chat_completions_as_responses(
    feed: &mut SseFeed,
    stream: &mut ChatStream,
    chunk: &Vec<u8>,
    limit: usize,
) -> (r: StreamStep)
    requires
        old(feed).inv(),
        old(stream).inv(),
        old(stream).state().actions.len() == 0,
    ensures
        final(feed).inv(),
        final(stream).inv(),
        ({
            let b = old(feed).open_bytes() + chunk@;
            let d = drive::<ChatStream>(old(stream).state(), b);
            if b.len() > limit {
                &&& r matches StreamStep::Failed(e) && e@ == FailureV::Text(
                    "上游 SSE 单帧超过 Codey 安全上限"@,
                )
                &&& final(stream).state() == old(stream).state()
            } else {
                &&& final(feed).open_bytes() == d.rest
                &&& final(stream).state().chat == d.state.chat
                &&& match r {
                    StreamStep::More(told) => d.outcome is Ok && !d.stopped && actions_view(told@)
                        == d.state.actions,
                    StreamStep::Last(told) => d.outcome is Ok && d.stopped && actions_view(told@)
                        == d.state.actions,
                    StreamStep::Failed(e) => d.outcome == Err::<(), FailureV>(e@)
                        && final(stream).state().actions == d.state.actions,
                }
            }
        }),
{
    match feed.feed(chunk, limit, stream) {
        Err(e) => StreamStep::Failed(e),
        Ok(stopped) => {
            let told = stream.take_actions();
            if stopped {
                StreamStep::Last(told)
            } else {
                StreamStep::More(told)
            }
        },
    }
}

/// Takes in a piece of a message stream. What was told before an error stays told.
pub fn stream_anthropic_messages_as_responses(
    feed: &mut SseFeed,
    stream: &mut MessageStream,
    chunk: &Vec<u8>,
    limit: usize,
) -> (r: StreamStep)
    requires
        old(feed).inv(),
        old(stream).inv(),
        old(stream).state().actions.len() == 0,
    ensures
        final(feed).inv(),
        final(stream).inv(),
        ({
            let b = old(feed).open_bytes() + chunk@;
            let d = drive::<MessageStream>(old(stream).state(), b);
            if b.len() > limit {
                &&& r matches StreamStep::Failed(e) && e@ == FailureV::Text(
                    "上游 SSE 单帧超过 Codey 安全上限"@,
                )
                &&& final(stream).state() == old(stream).state()
            } else {
                &&& final(feed).open_bytes() == d.rest
                &&& final(stream).state().message == d.state.message
                &&& match r {
                    StreamStep::More(told) => d.outcome is Ok && !d.state.message.stopped
                        && actions_view(told@) == d.state.actions,
                    StreamStep::Last(told) => d.outcome is Ok && d.state.message.stopped
                        && actions_view(told@) == d.state.actions,
                    StreamStep::Failed(e) => d.outcome == Err::<(), FailureV>(e@)
                        && final(stream).state().actions == d.state.actions,
                }
            }
        }),
{
    match feed.feed(chunk, limit, stream) {
        Err(e) => StreamStep::Failed(e),
        Ok(_) => {
            let told = stream.take_actions();
            if stream.stopped() {
                StreamStep::Last(told)
            } else {
                StreamStep::More(told)
            }
        },
    }
}

/// However a stream is cut into pieces, the client is told the same, in the same order.
pub proof fn cutting_does_not_matter(state: ChatStreamState, a: Seq<u8>, b: Seq<u8>)
    ensures
        ({
            let first = drive::<ChatStream>(state, a);
            let whole = drive::<ChatStream>(state, a + b);
            first.outcome is Ok && !first.stopped ==> whole == drive::<ChatStream>(
                first.state,
                first.rest + b,
            )
        }),
{
    feeding_in_pieces::<ChatStream>(state, a, b);
}

/// However a message stream is cut into pieces, the client is told the same, in the same order.
pub proof fn cutting_a_message_does_not_matter(state: MessageStreamState, a: Seq<u8>, b: Seq<u8>)
    ensures
        ({
            let first = drive::<MessageStream>(state, a);
            let whole = drive::<MessageStream>(state, a + b);
            first.outcome is Ok && !first.stopped ==> whole == drive::<MessageStream>(
                first.state,
                first.rest + b,
            )
        }),
{
    feeding_in_pieces::<MessageStream>(state, a, b);
}

/// A stream that breaks off before its end is never told as a whole answer.
pub proof fn a_broken_stream_has_no_end(state: ChatState, fresh: Seq<Seq<char>>)
    requires
        !state.done,
        trim(text_or_empty(state.finish_reason)).len() == 0,
    ensures
        chat_stream_end(state, fresh) is Err,
{
}

/// A message stream that breaks off before its end is never told as a whole answer.
pub proof fn a_broken_message_has_no_end(state: AnthropicState)
    requires
        !state.stopped,
        state.stop_reason is None,
    ensures
        message_stream_end(state) is Err,
{
    trim_of_clean(Seq::<char>::empty());
}

/// The blocks whose content the client has been told are passed over when a stream ends; every other
/// one is looked at, in its order.
pub proof fn only_told_blocks_are_passed_over(first: Seq<(u64, BlockV)>, block: (u64, BlockV))
    ensures
        ({
            let kind = block.1.block_type;
            let told = kind == "text"@ || kind == "refusal"@ || kind == "thinking"@ || kind
                == "redacted_thinking"@;
            untold_blocks(first.push(block)) == if told {
                untold_blocks(first)
            } else {
                untold_blocks(first).push(block)
            }
        }),
{
    assert(first.push(block).drop_last() =~= first);
    assert(first.push(block).last() == block);
}

/// A chunk that is taken in is told, after what was told before; the end of a stream tells nothing more
/// and ends it.
pub proof fn what_is_taken_in_is_told(state: ChatStreamState, data: Seq<char>, trailing: bool)
    requires
        chat_stream_step(state, data, trailing).1 is Ok,
    ensures
        ({
            let after = chat_stream_step(state, data, trailing).0;
            let old_count = state.actions.len() as int;
            &&& after.actions.len() >= old_count
            &&& after.actions.subrange(0, old_count) == state.actions
            &&& trim(data) == "[DONE]"@ ==> after.actions == state.actions && after.chat.done
            &&& trim(data) != "[DONE]"@ ==> json_frame(data, "Chat Completions"@, trailing) is Ok
        }),
        trim(data) != "[DONE]"@ ==> ({
            let after = chat_stream_step(state, data, trailing).0;
            let chunk = json_frame(data, "Chat Completions"@, trailing)->Ok_0;
            let told = chat_actions(chunk);
            &&& told is Ok
            &&& chat_step(state.chat, chunk).0 == after.chat && chat_step(state.chat, chunk).1 is Ok
            &&& after.actions.subrange(state.actions.len() as int, after.actions.len() as int)
                == told->Ok_0
        }),
{
    let after = chat_stream_step(state, data, trailing).0;
    let n = state.actions.len() as int;
    assert(after.actions.subrange(0, n) =~= state.actions);
    if trim(data) != "[DONE]"@ {
        let chunk = json_frame(data, "Chat Completions"@, trailing)->Ok_0;
        assert(after.actions.subrange(n, after.actions.len() as int) =~= chat_actions(chunk)->Ok_0);
    }
}

} // verus!
