//! Remote compaction: which requests ask for it, what a valid result is, and who is compacting.
use crate::json::{
    Json, JsonV, json_text, own_view, same_as_itself, same_document, views, views_push,
};
use crate::local_router::errors::{
    Failure, FailureV, context_length_error, done_view, fail, is_context_length_error,
};
use crate::local_router::sse::{SseFrameAccumulator, json_frame, sse_json_frame};
use crate::slots::{Slots, put, put_again, put_fills_one_slot, rising, slot, slot_values};
use crate::text::{
    byte_len, cat3, decimal_text, digits, str_eq, text_byte_len, trim, trim_start, trimmed,
};
use vstd::prelude::*;

verus! {

/// Bytes of a request that the router takes.
pub const MAX_REQUEST_BYTES: usize = 67_108_864;

/// The two kinds of Responses request.
#[derive(Clone, Copy, Debug, PartialEq, Eq, Structural)]
pub enum ResponsesRequestKind {
    Create,
    Compact,
}

impl ResponsesRequestKind {
    pub open spec fn label_text(self) -> Seq<char> {
        match self {
            ResponsesRequestKind::Create => "responses"@,
            ResponsesRequestKind::Compact => "responses_compact"@,
        }
    }

    /// The name of the kind in the request log.
    pub fn label(self) -> (r: &'static str)
        ensures
            r@ == self.label_text(),
    {
        match self {
            ResponsesRequestKind::Create => "responses",
            ResponsesRequestKind::Compact => "responses_compact",
        }
    }
}

/// The items of a request's input: those of an array, or the one object.
pub open spec fn input_items(body: JsonV) -> Seq<JsonV> {
    match body.get("input"@) {
        Some(JsonV::Array(items)) => items,
        Some(item) => if item.is_object() {
            seq![item]
        } else {
            Seq::empty()
        },
        None => Seq::empty(),
    }
}

/// The views of borrowed values.
pub open spec fn ref_views(items: Seq<&Json>) -> Seq<JsonV> {
    Seq::new(items.len(), |i: int| items[i]@)
}

fn input_item_list(body: &Json) -> (r: Vec<&Json>)
    ensures
        ref_views(r@) == input_items(body@),
{
    let mut out: Vec<&Json> = Vec::new();
    proof {
        assert(ref_views(out@) =~= Seq::<JsonV>::empty());
    }
    if let Some(input) = body.get("input") {
        if let Some(items) = input.as_array() {
            let mut i: usize = 0;
            while i < items.len()
                invariant
                    i <= items.len(),
                    ref_views(out@) == views(items@).subrange(0, i as int),
                decreases items.len() - i,
            {
                let ghost before = out@;
                out.push(&items[i]);
                i = i + 1;
                proof {
                    assert(ref_views(out@) =~= ref_views(before).push(views(items@)[i - 1]));
                    assert(ref_views(out@) =~= views(items@).subrange(0, i as int));
                }
            }
            proof {
                assert(views(items@).subrange(0, i as int) =~= views(items@));
            }
        } else if input.is_object() {
            out.push(input);
            proof {
                assert(ref_views(out@) =~= seq![input@]);
            }
        }
    }
    out
}

/// Some item of the input triggers a compaction.
pub open spec fn has_trigger(items: Seq<JsonV>) -> bool {
    exists|i: int|
        0 <= i < items.len() && (#[trigger] items[i]).get_str("type"@) == Some(
            "compaction_trigger"@,
        )
}

pub open spec fn asks_compaction(body: JsonV, kind: ResponsesRequestKind) -> bool {
    kind == ResponsesRequestKind::Compact || has_trigger(input_items(body))
}

/// Whether a request asks for a compaction.
pub fn is_compaction_request(body: &Json, kind: ResponsesRequestKind) -> (r: bool)
    ensures
        r == asks_compaction(body@, kind),
{
    match kind {
        ResponsesRequestKind::Compact => {
            return true;
        },
        ResponsesRequestKind::Create => {},
    }
    let items = input_item_list(body);
    let mut i: usize = 0;
    while i < items.len()
        invariant
            i <= items.len(),
            ref_views(items@) == input_items(body@),
            forall|j: int|
                0 <= j < i ==> (#[trigger] input_items(body@)[j]).get_str("type"@) != Some(
                    "compaction_trigger"@,
                ),
        decreases items.len() - i,
    {
        proof {
            assert(ref_views(items@)[i as int] == items@[i as int]@);
        }
        if let Some(t) = items[i].get_str("type") {
            if str_eq(t, "compaction_trigger") {
                return true;
            }
        }
        i = i + 1;
    }
    proof {
        assert(ref_views(items@).len() == items.len());
    }
    false
}

/// An item that only the route which made it can read.
pub open spec fn is_compaction_item(item: JsonV) -> bool {
    item.get_str("type"@) == Some("compaction"@) || item.get_str("type"@) == Some(
        "compaction_trigger"@,
    )
}

/// An item, or the content of one, that only the route which made it can read.
pub open spec fn holds_compaction(item: JsonV) -> bool {
    ||| is_compaction_item(item)
    ||| item.get("content"@) matches Some(content) && {
        ||| is_compaction_item(content)
        ||| content.as_array() matches Some(parts) && exists|k: int|
            0 <= k < parts.len() && is_compaction_item(#[trigger] parts[k])
    }
}

/// Another route can read the whole history of the request.
pub open spec fn portable(body: JsonV) -> bool {
    forall|i: int|
        0 <= i < input_items(body).len() ==> !holds_compaction(#[trigger] input_items(body)[i])
}

/// What is said of a history that another route cannot read.
pub open spec fn not_portable() -> FailureV {
    FailureV::Text("context_not_portable: compaction 历史不能转换到当前线路；请回到原线路完成本地摘要后再切换"@)
}

fn item_is_compaction(item: &Json) -> (r: bool)
    ensures
        r == is_compaction_item(item@),
{
    match item.get_str("type") {
        Some(t) => str_eq(t, "compaction") || str_eq(t, "compaction_trigger"),
        None => false,
    }
}

fn item_holds_compaction(item: &Json) -> (r: bool)
    ensures
        r == holds_compaction(item@),
{
    if item_is_compaction(item) {
        return true;
    }
    match item.get("content") {
        None => false,
        Some(content) => {
            if item_is_compaction(content) {
                return true;
            }
            match content.as_array() {
                None => false,
                Some(parts) => {
                    let mut k: usize = 0;
                    while k < parts.len()
                        invariant
                            k <= parts.len(),
                            forall|j: int|
                                0 <= j < k ==> !is_compaction_item(#[trigger] views(parts@)[j]),
                            item@.get("content"@) == Some(content@),
                            content@.as_array() == Some(views(parts@)),
                        decreases parts.len() - k,
                    {
                        if item_is_compaction(&parts[k]) {
                            proof {
                                let all = views(parts@);
                                assert(is_compaction_item(all[k as int]));
                                assert(content@.as_array()->0 == all);
                            }
                            return true;
                        }
                        k = k + 1;
                    }
                    false
                },
            }
        },
    }
}

/// Fails exactly when another route could not read the whole history.
pub fn validate_portable_context(body: &Json) -> (r: Result<(), Failure>)
    ensures
        done_view(r) == if portable(body@) {
            Ok(())
        } else {
            Err::<(), FailureV>(not_portable())
        },
{
    let items = input_item_list(body);
    let mut i: usize = 0;
    while i < items.len()
        invariant
            i <= items.len(),
            ref_views(items@) == input_items(body@),
            forall|j: int| 0 <= j < i ==> !holds_compaction(#[trigger] input_items(body@)[j]),
        decreases items.len() - i,
    {
        proof {
            assert(ref_views(items@)[i as int] == items@[i as int]@);
        }
        if item_holds_compaction(items[i]) {
            return Err(
                fail("context_not_portable: compaction 历史不能转换到当前线路；请回到原线路完成本地摘要后再切换"),
            );
        }
        i = i + 1;
    }
    proof {
        assert(ref_views(items@).len() == items.len());
    }
    Ok(())
}

/// The size of a document's compact text, where it is within a limit.
pub open spec fn bounded_size(value: JsonV, limit: nat) -> Result<nat, FailureV> {
    if byte_len(json_text(value)) <= limit {
        Ok(byte_len(json_text(value)))
    } else {
        Err(FailureV::Text("会话历史超过上限，请先压缩上下文"@))
    }
}

/// Measures a document's compact text against a limit.
pub fn bounded_json_bytes(value: &Json, limit: usize) -> (r: Result<usize, Failure>)
    ensures
        match r {
            Ok(n) => bounded_size(value@, limit as nat) == Ok::<nat, FailureV>(n as nat),
            Err(e) => bounded_size(value@, limit as nat) == Err::<nat, FailureV>(e@),
        },
{
    let size = text_byte_len(value.to_text().as_str());
    if size <= limit {
        Ok(size)
    } else {
        Err(fail("会话历史超过上限，请先压缩上下文"))
    }
}

pub open spec fn is_snapshot(item: JsonV) -> bool {
    item.get_str("type"@) == Some("compaction"@)
}

/// The first thing wrong with the items of a compaction's output, from left to right.
pub open spec fn bad_item(output: Seq<JsonV>) -> Option<FailureV>
    decreases output.len(),
{
    if output.len() == 0 {
        None
    } else {
        let item = output[0];
        if item.get_str("type"@) is None {
            Some(FailureV::Text("远程压缩包含无效的输出项"@))
        } else if is_snapshot(item) && trim(item.str_or_empty("encrypted_content"@)).len() == 0 {
            Some(FailureV::Text("远程压缩缺少有效的 encrypted_content"@))
        } else {
            bad_item(output.subrange(1, output.len() as int))
        }
    }
}

/// How many snapshots an output holds.
pub open spec fn snapshots(output: Seq<JsonV>) -> nat
    decreases output.len(),
{
    if output.len() == 0 {
        0
    } else {
        snapshots(output.subrange(1, output.len() as int)) + if is_snapshot(output[0]) {
            1nat
        } else {
            0nat
        }
    }
}

/// What is wrong with the result of a compaction, if anything is. A good one fits the next
/// request, is complete, and holds exactly one snapshot, which is not empty.
pub open spec fn compaction_check(value: JsonV, v2: bool) -> Result<(), FailureV> {
    if context_length_error(value) {
        Err(FailureV::ContextLength)
    } else if bounded_size(value, MAX_REQUEST_BYTES as nat) is Err {
        Err(bounded_size(value, MAX_REQUEST_BYTES as nat)->Err_0)
    } else if v2 && value.get_str("status"@) != Some("completed"@) {
        Err(FailureV::Text("远程压缩未成功完成"@))
    } else {
        match value.get_array("output"@) {
            None => Err(FailureV::Text("远程压缩缺少 output 数组"@)),
            Some(output) => match bad_item(output) {
                Some(e) => Err(e),
                None => if snapshots(output) == 1 {
                    Ok(())
                } else {
                    Err(
                        FailureV::Text(
                            "远程压缩必须返回且仅返回一个 compaction 项，实际收到 "@ + digits(
                                snapshots(output),
                            ) + " 个"@,
                        ),
                    )
                },
            },
        }
    }
}

fn validate_output(output: &Vec<Json>) -> (r: Result<(), Failure>)
    ensures
        done_view(r) == match bad_item(views(output@)) {
            Some(e) => Err::<(), FailureV>(e),
            None => if snapshots(views(output@)) == 1 {
                Ok(())
            } else {
                Err(
                    FailureV::Text(
                        "远程压缩必须返回且仅返回一个 compaction 项，实际收到 "@ + digits(
                            snapshots(views(output@)),
                        ) + " 个"@,
                    ),
                )
            },
        },
{
    let ghost all = views(output@);
    let mut i: usize = 0;
    let mut count: u64 = 0;
    proof {
        assert(all.subrange(0, all.len() as int) =~= all);
    }
    while i < output.len()
        invariant
            i <= output.len(),
            all == views(output@),
            count <= i,
            bad_item(all) == bad_item(all.subrange(i as int, all.len() as int)),
            snapshots(all) == count + snapshots(all.subrange(i as int, all.len() as int)),
        decreases output.len() - i,
    {
        let item = &output[i];
        proof {
            let rest = all.subrange(i as int, all.len() as int);
            assert(rest[0] == item@);
            assert(rest.subrange(1, rest.len() as int) =~= all.subrange(i + 1, all.len() as int));
        }
        match item.get_str("type") {
            None => {
                return Err(fail("远程压缩包含无效的输出项"));
            },
            Some(t) => if str_eq(t, "compaction") {
                count = count + 1;
                let content = item.str_or_empty("encrypted_content");
                if trimmed(content.as_str()).as_str().is_empty() {
                    return Err(fail("远程压缩缺少有效的 encrypted_content"));
                }
            },
        }
        i = i + 1;
    }
    if count != 1 {
        return Err(
            Failure::Text(
                cat3(
                    "远程压缩必须返回且仅返回一个 compaction 项，实际收到 ",
                    decimal_text(count).as_str(),
                    " 个",
                ),
            ),
        );
    }
    Ok(())
}

/// Checks the result of a compaction.
pub fn validate_compaction_result(value: &Json, v2: bool) -> (r: Result<(), Failure>)
    ensures
        done_view(r) == compaction_check(value@, v2),
{
    if is_context_length_error(value) {
        return Err(Failure::ContextLength);
    }
    if let Err(e) = bounded_json_bytes(value, MAX_REQUEST_BYTES) {
        return Err(e);
    }
    if v2 {
        let complete = match value.get_str("status") {
            Some(s) => str_eq(s, "completed"),
            None => false,
        };
        if !complete {
            return Err(fail("远程压缩未成功完成"));
        }
    }
    match value.get_array("output") {
        None => Err(fail("远程压缩缺少 output 数组")),
        Some(output) => validate_output(output),
    }
}

/// What a compaction stream has brought so far.
pub struct CompactionState {
    pub response: Option<JsonV>,
    pub output: Seq<(u64, JsonV)>,
    pub count: u64,
}

/// The keys of the table are 0, 1, 2 and so on, up to a count.
pub open spec fn contiguous(table: Seq<(u64, JsonV)>, count: u64) -> bool {
    table.len() == count && forall|i: int| 0 <= i < table.len() ==> (#[trigger] table[i]).0 == i
}

/// The response of a completion event, with the output that came before it where it has none of
/// its own, and with the status that the event implies. Nothing where the items that came have
/// gaps.
pub open spec fn completed_response(state: CompactionState, response: JsonV) -> Option<JsonV> {
    let empty = match response.get("output"@) {
        None => true,
        Some(JsonV::Array(items)) => items.len() == 0,
        Some(_) => false,
    };
    if empty && !contiguous(state.output, state.count) {
        None
    } else {
        let filled = if empty {
            response.with("output"@, JsonV::Array(slot_values(state.output)))
        } else {
            response
        };
        Some(
            if filled.has("status"@) {
                filled
            } else {
                filled.with("status"@, JsonV::Str("completed"@))
            },
        )
    }
}

/// The completion event uses up the items that came before it.
pub open spec fn uses_items(response: JsonV) -> bool {
    match response.get("output"@) {
        None => true,
        Some(JsonV::Array(items)) => items.len() == 0,
        Some(_) => false,
    }
}

/// One event of a compaction stream. Items count only once they are done; the result counts only
/// once the completion event has brought a good one.
pub open spec fn compaction_step(state: CompactionState, event: JsonV) -> (CompactionState, Result<
    (),
    FailureV,
>) {
    let kind = event.get_str("type"@);
    if context_length_error(event) {
        (state, Err(FailureV::ContextLength))
    } else if kind == Some("response.output_item.added"@) || kind == Some(
        "response.output_item.done"@,
    ) {
        match event.at("output_index"@).as_u64() {
            None => (state, Err(FailureV::Text("远程压缩输出项缺少有效的 output_index"@))),
            Some(index) => if index == u64::MAX {
                (state, Err(FailureV::Text("远程压缩 output_index 超过上限"@)))
            } else {
                let counted = CompactionState {
                    count: if state.count > index {
                        state.count
                    } else {
                        (index + 1) as u64
                    },
                    ..state
                };
                if kind == Some("response.output_item.added"@) {
                    (counted, Ok(()))
                } else if slot(state.output, index) matches Some(previous) && !same_document(
                    previous,
                    event.at("item"@),
                ) {
                    (counted, Err(FailureV::Text("远程压缩包含冲突的 output_index"@)))
                } else {
                    (
                        CompactionState {
                            output: put(state.output, index, event.at("item"@)),
                            ..counted
                        },
                        Ok(()),
                    )
                }
            },
        }
    } else if kind == Some("response.completed"@) {
        let response = event.at("response"@);
        if !response.is_object() {
            (state, Err(FailureV::Text("远程压缩完成事件缺少有效的 response"@)))
        } else {
            match completed_response(state, response) {
                None => (state, Err(FailureV::Text("远程压缩输出项不连续，无法恢复完整结果"@))),
                Some(result) => {
                    let used = CompactionState {
                        output: if uses_items(response) {
                            Seq::empty()
                        } else {
                            state.output
                        },
                        ..state
                    };
                    match compaction_check(result, true) {
                        Err(e) => (used, Err(e)),
                        Ok(()) => (CompactionState { response: Some(result), ..used }, Ok(())),
                    }
                },
            }
        }
    } else if kind == Some("response.failed"@) || kind == Some("response.incomplete"@) || kind
        == Some("error"@) {
        (state, Err(FailureV::Text("远程压缩返回失败或未完成终态"@)))
    } else {
        (state, Ok(()))
    }
}

/// Collects the result of a compaction from a stream.
pub struct CompactionAccumulator {
    pub response: Option<Json>,
    pub output: Slots<Json>,
    pub output_count: u64,
}

impl CompactionAccumulator {
    pub fn new() -> (r: CompactionAccumulator)
        ensures
            r.state() == (CompactionState { response: None, output: Seq::empty(), count: 0 }),
    {
        CompactionAccumulator { response: None, output: Slots::new(), output_count: 0 }
    }

    fn is_contiguous(&self) -> (r: bool)
        ensures
            r == contiguous(self.output@, self.output_count),
    {
        if self.output.len() as u64 != self.output_count {
            return false;
        }
        let mut i: usize = 0;
        while i < self.output.len()
            invariant
                i <= self.output@.len(),
                self.output@.len() == self.output_count,
                forall|j: int| 0 <= j < i ==> (#[trigger] self.output@[j]).0 == j,
            decreases self.output@.len() - i,
        {
            if self.output.key_at(i) != i as u64 {
                return false;
            }
            i = i + 1;
        }
        true
    }

    fn values(&self) -> (r: Vec<Json>)
        ensures
            views(r@) == slot_values(self.output@),
    {
        let mut out: Vec<Json> = Vec::new();
        let mut i: usize = 0;
        while i < self.output.len()
            invariant
                i <= self.output@.len(),
                views(out@) == slot_values(self.output@).subrange(0, i as int),
            decreases self.output@.len() - i,
        {
            let item = self.output.value_at(i).clone_json();
            let ghost before = out@;
            out.push(item);
            i = i + 1;
            proof {
                views_push(before, item);
                assert(views(out@) =~= slot_values(self.output@).subrange(0, i as int));
            }
        }
        proof {
            assert(slot_values(self.output@).subrange(0, i as int) =~= slot_values(self.output@));
        }
        out
    }

    fn complete(&mut self, event: &Json) -> (r: Result<(), Failure>)
        requires
            !context_length_error(event@),
            event@.get_str("type"@) == Some("response.completed"@),
        ensures
            (final(self).state(), done_view(r)) == compaction_step(old(self).state(), event@),
    {
        proof {
            literals_differ();
        }
        let mut response = match event.get_object("response") {
            Some(v) => v.clone_json(),
            None => {
                return Err(fail("远程压缩完成事件缺少有效的 response"));
            },
        };
        let empty = match response.get("output") {
            None => true,
            Some(v) => match v.as_array() {
                Some(items) => items.len() == 0,
                None => false,
            },
        };
        if empty {
            if !self.is_contiguous() {
                return Err(fail("远程压缩输出项不连续，无法恢复完整结果"));
            }
            let items = self.values();
            self.output = Slots::new();
            response.insert("output", Json::array(items));
        }
        if !response.has("status") {
            response.insert("status", Json::str("completed"));
        }
        if let Err(e) = validate_compaction_result(&response, true) {
            return Err(e);
        }
        self.response = Some(response);
        Ok(())
    }

    /// Takes in one event.
    pub fn ingest(&mut self, event: &Json) -> (r: Result<(), Failure>)
        ensures
            (final(self).state(), done_view(r)) == compaction_step(old(self).state(), event@),
    {
        if is_context_length_error(event) {
            return Err(Failure::ContextLength);
        }
        let kind = match event.get_str("type") {
            Some(t) => t,
            None => {
                return Ok(());
            },
        };
        let added = str_eq(kind, "response.output_item.added");
        if added || str_eq(kind, "response.output_item.done") {
            let index: u64 = match event.get_u64("output_index") {
                Some(n) => n,
                None => {
                    return Err(fail("远程压缩输出项缺少有效的 output_index"));
                },
            };
            if index == u64::MAX {
                return Err(fail("远程压缩 output_index 超过上限"));
            }
            if self.output_count <= index {
                self.output_count = index + 1;
            }
            if added {
                return Ok(());
            }
            let item = match event.get("item") {
                Some(v) => v.clone_json(),
                None => Json::null(),
            };
            if let Some(previous) = self.output.get(index) {
                if !previous.same(&item) {
                    return Err(fail("远程压缩包含冲突的 output_index"));
                }
            }
            self.output.put(index, item);
            Ok(())
        } else if str_eq(kind, "response.completed") {
            self.complete(event)
        } else if str_eq(kind, "response.failed") || str_eq(kind, "response.incomplete") || str_eq(
            kind,
            "error",
        ) {
            Err(fail("远程压缩返回失败或未完成终态"))
        } else {
            Ok(())
        }
    }
}

proof fn literals_differ()
    ensures
        "response.completed"@ != "response.output_item.added"@,
        "response.completed"@ != "response.output_item.done"@,
{
    reveal_strlit("response.completed");
    reveal_strlit("response.output_item.added");
    reveal_strlit("response.output_item.done");
    assert("response.completed"@.len() == 18);
    assert("response.output_item.added"@.len() == 26);
    assert("response.output_item.done"@.len() == 25);
}

impl SseFrameAccumulator for CompactionAccumulator {
    type S = CompactionState;

    open spec fn state(&self) -> CompactionState {
        CompactionState {
            response: own_view(self.response),
            output: self.output@,
            count: self.output_count,
        }
    }

    open spec fn step(state: CompactionState, data: Seq<char>, trailing: bool) -> (
        CompactionState,
        Result<(), FailureV>,
    ) {
        match json_frame(data, "Responses compaction"@, trailing) {
            Err(e) => (state, Err(e)),
            Ok(event) => compaction_step(state, event),
        }
    }

    open spec fn is_finished(state: CompactionState) -> bool {
        state.response is Some
    }

    open spec fn inv(&self) -> bool {
        true
    }

    fn ingest_frame(&mut self, data: &str, trailing: bool) -> (r: Result<(), Failure>) {
        match sse_json_frame(data, "Responses compaction", trailing) {
            Err(e) => Err(e),
            Ok(event) => self.ingest(&event),
        }
    }

    fn finished(&self) -> (r: bool) {
        self.response.is_some()
    }
}

/// A stream brings a result only through a completion event, and a result that it brings is good:
/// it fits the next request, says that it is complete, and holds exactly one snapshot.
pub proof fn a_result_is_a_checked_completion(state: CompactionState, event: JsonV)
    requires
        state.response is None,
        compaction_step(state, event).0.response is Some,
    ensures
        event.get_str("type"@) == Some("response.completed"@),
        compaction_check(compaction_step(state, event).0.response->0, true) == Ok::<(), FailureV>(()),
        compaction_step(state, event).1 == Ok::<(), FailureV>(()),
{
}

/// Whether an item was announced does not change the items that are restored.
pub proof fn announced_items_are_not_restored(state: CompactionState, event: JsonV)
    requires
        event.get_str("type"@) == Some("response.output_item.added"@),
    ensures
        compaction_step(state, event).0.output == state.output,
        compaction_step(state, event).0.response == state.response,
{
}

/// Taking in the same finished item twice is taking it in once.
pub proof fn a_repeated_item_changes_nothing(state: CompactionState, event: JsonV)
    requires
        event.get_str("type"@) == Some("response.output_item.done"@),
        rising(state.output),
        compaction_step(state, event).1 == Ok::<(), FailureV>(()),
    ensures
        compaction_step(compaction_step(state, event).0, event) == compaction_step(state, event),
{
    let index = event.at("output_index"@).as_u64()->0;
    let once = compaction_step(state, event).0;
    reveal_strlit("response.output_item.added");
    reveal_strlit("response.output_item.done");
    assert("response.output_item.added"@.len() == 26);
    assert("response.output_item.done"@.len() == 25);
    put_fills_one_slot(state.output, index, event.at("item"@));
    put_again(state.output, index, event.at("item"@));
    same_as_itself(event.at("item"@));
    assert(compaction_step(once, event).0.output =~= once.output);
}

/// The item is a snapshot with something in it.
pub open spec fn holds_snapshot(item: JsonV) -> bool {
    item.get("type"@) == Some(JsonV::Str("compaction"@)) && item.get("encrypted_content"@) is Some && (
    item.get("encrypted_content"@)->0 matches JsonV::Str(text) && trim(text).len() > 0)
}

proof fn lemma_good_items(output: Seq<JsonV>)
    ensures
        bad_item(output) is None <==> forall|i: int|
            0 <= i < output.len() ==> (#[trigger] output[i]).get_str("type"@) is Some && (is_snapshot(
                output[i],
            ) ==> holds_snapshot(output[i])),
    decreases output.len(),
{
    assert(trim(Seq::<char>::empty()).len() == 0) by {
        reveal_with_fuel(trim_start, 2);
    }
    if output.len() > 0 {
        let rest = output.subrange(1, output.len() as int);
        lemma_good_items(rest);
        assert forall|i: int| 0 <= i < rest.len() implies #[trigger] rest[i] == output[i + 1] by {}
        if bad_item(output) is None {
            assert forall|i: int| 0 <= i < output.len() implies (#[trigger] output[i]).get_str(
                "type"@,
            ) is Some && (is_snapshot(output[i]) ==> holds_snapshot(output[i])) by {
                if i > 0 {
                    assert(rest[i - 1] == output[i]);
                }
            }
        } else {
            if forall|i: int|
                0 <= i < output.len() ==> (#[trigger] output[i]).get_str("type"@) is Some && (
                is_snapshot(output[i]) ==> holds_snapshot(output[i])) {
                assert(output[0].get_str("type"@) is Some);
                assert forall|i: int| 0 <= i < rest.len() implies (#[trigger] rest[i]).get_str(
                    "type"@,
                ) is Some && (is_snapshot(rest[i]) ==> holds_snapshot(rest[i])) by {
                    assert(rest[i] == output[i + 1]);
                }
                assert(false);
            }
        }
    }
}

proof fn lemma_snapshot_count(output: Seq<JsonV>)
    ensures
        snapshots(output) == 0 <==> forall|i: int|
            0 <= i < output.len() ==> !is_snapshot(#[trigger] output[i]),
        snapshots(output) <= 1 <==> forall|i: int, j: int|
            0 <= i < output.len() && 0 <= j < output.len() && is_snapshot(#[trigger] output[i])
                && is_snapshot(#[trigger] output[j]) ==> i == j,
    decreases output.len(),
{
    if output.len() > 0 {
        let rest = output.subrange(1, output.len() as int);
        lemma_snapshot_count(rest);
        assert forall|i: int| 0 <= i < rest.len() implies #[trigger] rest[i] == output[i + 1] by {}
        assert forall|i: int| 1 <= i < output.len() implies #[trigger] output[i] == rest[i - 1] by {}
        if forall|i: int| 0 <= i < output.len() ==> !is_snapshot(#[trigger] output[i]) {
            assert(!is_snapshot(output[0]));
            assert forall|i: int| 0 <= i < rest.len() implies !is_snapshot(#[trigger] rest[i]) by {
                assert(!is_snapshot(output[i + 1]));
            }
        }
        if snapshots(output) == 0 {
            assert forall|i: int| 0 <= i < output.len() implies !is_snapshot(#[trigger] output[i]) by {
                if i > 0 {
                    assert(!is_snapshot(rest[i - 1]));
                }
            }
        }
        if snapshots(output) <= 1 {
            assert forall|i: int, j: int|
                0 <= i < output.len() && 0 <= j < output.len() && is_snapshot(#[trigger] output[i])
                    && is_snapshot(#[trigger] output[j]) implies i == j by {
                if i > 0 && j > 0 {
                    assert(is_snapshot(rest[i - 1]) && is_snapshot(rest[j - 1]));
                } else if i > 0 {
                    assert(is_snapshot(output[0]));
                    assert(is_snapshot(rest[i - 1]));
                } else if j > 0 {
                    assert(is_snapshot(rest[j - 1]));
                }
            }
        } else {
            if forall|i: int, j: int|
                0 <= i < output.len() && 0 <= j < output.len() && is_snapshot(#[trigger] output[i])
                    && is_snapshot(#[trigger] output[j]) ==> i == j {
                assert forall|i: int, j: int|
                    0 <= i < rest.len() && 0 <= j < rest.len() && is_snapshot(#[trigger] rest[i])
                        && is_snapshot(#[trigger] rest[j]) implies i == j by {
                    assert(is_snapshot(output[i + 1]) && is_snapshot(output[j + 1]));
                }
                assert(snapshots(rest) == 1);
                let i = choose|i: int| 0 <= i < rest.len() && is_snapshot(#[trigger] rest[i]);
                assert(is_snapshot(output[i + 1]) && is_snapshot(output[0]));
                assert(false);
            }
        }
    }
}

/// The result of a compaction is good exactly where it is no error, fits the next request, says that
/// it is complete, and its items all tell their kind and hold one snapshot, and no more, with something
/// in it.
pub proof fn a_good_result_holds_one_snapshot(value: JsonV, output: Seq<JsonV>)
    requires
        value.get("output"@) == Some(JsonV::Array(output)),
    ensures
        compaction_check(value, true) is Ok <==> {
            &&& !context_length_error(value)
            &&& byte_len(json_text(value)) <= MAX_REQUEST_BYTES
            &&& value.get("status"@) == Some(JsonV::Str("completed"@))
            &&& forall|i: int|
                0 <= i < output.len() ==> (#[trigger] output[i]).get("type"@) is Some
                    && output[i].get("type"@)->0 is Str
            &&& exists|i: int| 0 <= i < output.len() && holds_snapshot(#[trigger] output[i])
            &&& forall|i: int, j: int|
                0 <= i < output.len() && 0 <= j < output.len() && is_snapshot(#[trigger] output[i])
                    && is_snapshot(#[trigger] output[j]) ==> i == j
        },
{
    lemma_good_items(output);
    lemma_snapshot_count(output);
    if compaction_check(value, true) is Ok {
        assert(snapshots(output) == 1);
        let i = choose|i: int| 0 <= i < output.len() && is_snapshot(#[trigger] output[i]);
        assert(holds_snapshot(output[i]));
        assert forall|k: int| 0 <= k < output.len() implies (#[trigger] output[k]).get(
            "type"@,
        ) is Some && output[k].get("type"@)->0 is Str by {
            assert(output[k].get_str("type"@) is Some);
        }
    } else if {
        &&& !context_length_error(value)
        &&& byte_len(json_text(value)) <= MAX_REQUEST_BYTES
        &&& value.get("status"@) == Some(JsonV::Str("completed"@))
        &&& forall|i: int|
            0 <= i < output.len() ==> (#[trigger] output[i]).get("type"@) is Some && output[i].get(
                "type"@,
            )->0 is Str
        &&& exists|i: int| 0 <= i < output.len() && holds_snapshot(#[trigger] output[i])
        &&& forall|i: int, j: int|
            0 <= i < output.len() && 0 <= j < output.len() && is_snapshot(#[trigger] output[i])
                && is_snapshot(#[trigger] output[j]) ==> i == j
    } {
        let one = choose|i: int| 0 <= i < output.len() && holds_snapshot(#[trigger] output[i]);
        assert(is_snapshot(output[one]));
        assert forall|k: int| 0 <= k < output.len() implies (#[trigger] output[k]).get_str(
            "type"@,
        ) is Some && (is_snapshot(output[k]) ==> holds_snapshot(output[k])) by {
            assert(output[k].get("type"@) is Some);
        }
        assert(snapshots(output) == 1);
        assert(false);
    }
}

/// A completion event without an output of its own is completed with the items that came before it,
/// each in its place, where none is missing; one that has an output keeps it. The rest of the response
/// stays, and it says that it is complete unless it says something else.
pub proof fn a_completion_is_filled_with_the_items_that_came(
    state: CompactionState,
    response: JsonV,
    key: Seq<char>,
)
    requires
        response is Object,
    ensures
        ({
            let r = completed_response(state, response);
            let empty = response.get("output"@) is None || response.get("output"@) == Some(
                JsonV::Array(Seq::empty()),
            );
            let gapless = state.output.len() == state.count && forall|i: int|
                0 <= i < state.output.len() ==> (#[trigger] state.output[i]).0 == i;
            &&& r is Some <==> !empty || gapless
            &&& r is Some && !empty ==> r->0.get("output"@) == response.get("output"@)
            &&& r is Some && empty ==> (r->0.get("output"@) matches Some(JsonV::Array(items))
                && items.len() == state.output.len() && forall|i: int|
                0 <= i < items.len() ==> #[trigger] items[i] == state.output[i].1)
            &&& r is Some ==> r->0.get("status"@) == if response.get("status"@) is Some {
                response.get("status"@)
            } else {
                Some(JsonV::Str("completed"@))
            }
            &&& r is Some && key != "output"@ && key != "status"@ ==> r->0.get(key) == response.get(key)
        }),
{
    reveal_strlit("output");
    reveal_strlit("status");
    assert("output"@[0] == 'o' && "status"@[0] == 's');
    if let Some(JsonV::Array(items)) = response.get("output"@) {
        if items.len() == 0 {
            assert(items =~= Seq::<JsonV>::empty());
        }
    }
}

} // verus!
