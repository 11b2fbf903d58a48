//! What sessions are doing, by their rollout files: turns that run, wait, failed or ended.
use crate::json::{Json, JsonV, json_text, parse_text, string_view, text_parsed, views, views_push};
use crate::text::{
    lines_of, ordered_pairs, ordered_pairs_are_in_order, pairs_in_order, pairs_view, sort_pairs,
    split_lines_of, str_eq, texts, texts_push, trim, trimmed, words,
};
use crate::textmap::{
    TextBox, TextMap, distinct, distinct_after_remove, distinct_after_set, lemma_without_at,
    lookup, lookup_at, lookup_place, remove_then_look, set_then_look, with_key, without_key,
};
use vstd::prelude::*;
use vstd::string::*;

verus! {

/// Seconds for which a session counts as recent, and how many sessions are looked at.
pub const RECENT_SESSION_WINDOW: u64 = 86_400;

pub const MAX_RECENT_SESSIONS: usize = 64;

/// A question that a session waits on.
#[derive(Debug, Clone, PartialEq, Eq)]
pub struct PendingApproval {
    pub session_id: String,
    pub turn_id: String,
    pub waiting_id: String,
    pub duration_ms: u128,
}

#[derive(Debug, Clone, PartialEq, Eq)]
pub struct StartedTurn {
    pub session_id: String,
    pub turn_id: String,
}

#[derive(Debug, Clone, PartialEq, Eq)]
pub struct AbortedTurn {
    pub session_id: String,
    pub turn_id: String,
}

#[derive(Debug, Clone, PartialEq, Eq)]
pub struct TurnConfiguration {
    pub model: String,
    pub reasoning_effort: String,
}

impl View for TurnConfiguration {
    type V = (Seq<char>, Seq<char>);

    open spec fn view(&self) -> (Seq<char>, Seq<char>) {
        (self.model@, self.reasoning_effort@)
    }
}

#[derive(Debug, Clone, PartialEq, Eq)]
pub struct CompletedTurn {
    pub session_id: String,
    pub turn_id: String,
    pub duration_ms: u128,
    pub completed_at: Option<i64>,
    pub error: Option<String>,
    pub is_snapshot_replay: bool,
}

/// What a session is doing.
#[derive(Debug, Clone, Copy, PartialEq, Eq, Structural)]
pub enum SessionLifecycleStatus {
    Idle,
    Running,
    Error,
    Waiting,
}

impl View for SessionLifecycleStatus {
    type V = SessionLifecycleStatus;

    open spec fn view(&self) -> SessionLifecycleStatus {
        *self
    }
}

impl Default for SessionLifecycleStatus {
    fn default() -> (r: SessionLifecycleStatus)
        ensures
            r == SessionLifecycleStatus::Idle,
    {
        SessionLifecycleStatus::Idle
    }
}

/// The end of a turn as a rollout records it.
#[derive(Debug, Clone, PartialEq, Eq)]
pub struct CompletedRecord {
    pub turn_id: String,
    pub duration_ms: u128,
    pub completed_at: Option<i64>,
    pub error: Option<String>,
}

#[verifier::ext_equal]
pub struct CompletedV {
    pub turn_id: Seq<char>,
    pub duration_ms: u128,
    pub completed_at: Option<i64>,
    pub error: Option<Seq<char>>,
}

impl View for CompletedRecord {
    type V = CompletedV;

    open spec fn view(&self) -> CompletedV {
        CompletedV {
            turn_id: self.turn_id@,
            duration_ms: self.duration_ms,
            completed_at: self.completed_at,
            error: string_view(self.error),
        }
    }
}

pub open spec fn completed_list(v: Seq<CompletedRecord>) -> Seq<CompletedV> {
    Seq::new(v.len(), |i: int| v[i]@)
}

/// A mark on a turn.
#[derive(Debug, Clone, Copy)]
pub struct Mark;

impl View for Mark {
    type V = bool;

    open spec fn view(&self) -> bool {
        true
    }
}

/// What a rollout has told so far.
#[verifier::ext_equal]
pub struct RolloutV {
    /// The turn that the last context belonged to.
    pub current: Seq<char>,
    /// Calls that wait for an answer, with their turns.
    pub waiting: Seq<(Seq<char>, Seq<char>)>,
    pub terminal: Seq<(Seq<char>, bool)>,
    pub active: Seq<(Seq<char>, bool)>,
    pub latest: SessionLifecycleStatus,
    pub started: Seq<Seq<char>>,
    pub aborted: Seq<Seq<char>>,
    pub completed: Seq<CompletedV>,
    pub configurations: Seq<(Seq<char>, (Seq<char>, Seq<char>))>,
}

pub open spec fn fresh_rollout() -> RolloutV {
    RolloutV {
        current: Seq::empty(),
        waiting: Seq::empty(),
        terminal: Seq::empty(),
        active: Seq::empty(),
        latest: SessionLifecycleStatus::Idle,
        started: Seq::empty(),
        aborted: Seq::empty(),
        completed: Seq::empty(),
        configurations: Seq::empty(),
    }
}

/// The record is that of a subagent's session.
pub open spec fn is_subagent(payload: JsonV) -> bool {
    ||| payload.get_str("thread_source"@) == Some("subagent"@)
    ||| trim(payload.str_or_empty("parent_thread_id"@)).len() > 0
    ||| payload.get_object("source"@) matches Some(s) && (s.has("subagent"@) || s.has(
        "sub_agent"@,
    ))
}

fn is_subagent_payload(payload: &Json) -> (r: bool)
    ensures
        r == is_subagent(payload@),
{
    let named = match payload.get_str("thread_source") {
        Some(s) => str_eq(s, "subagent"),
        None => false,
    };
    if named {
        return true;
    }
    if !trimmed(payload.str_or_empty("parent_thread_id").as_str()).as_str().is_empty() {
        return true;
    }
    match payload.get_object("source") {
        Some(s) => s.has("subagent") || s.has("sub_agent"),
        None => false,
    }
}

/// The effort of a turn.
pub open spec fn turn_effort(payload: JsonV) -> Seq<char> {
    let place = match payload.get_either("effort"@, "reasoning_effort"@) {
        Some(v) => Some(v),
        None => payload.get("reasoningEffort"@),
    };
    match place {
        Some(JsonV::Str(s)) => trim(s),
        _ => trim(Seq::empty()),
    }
}

/// The context of a turn.
pub open spec fn context_step(state: RolloutV, payload: JsonV) -> RolloutV {
    match payload.get_str("turn_id"@) {
        None => state,
        Some(turn) => {
            let model = trim(payload.str_or_empty("model"@));
            let effort = turn_effort(payload);
            RolloutV {
                current: turn,
                configurations: if model.len() > 0 || effort.len() > 0 {
                    with_key(state.configurations, turn, (model, effort))
                } else {
                    state.configurations
                },
                ..state
            }
        },
    }
}

/// What a completion says went wrong.
pub open spec fn completion_error(payload: JsonV) -> Option<Seq<char>> {
    match payload.get("error"@) {
        None => None,
        Some(JsonV::Null) => None,
        Some(error) => {
            let words = match error.get_str("message"@) {
                Some(s) => trim(s),
                None => match error.as_str() {
                    Some(s) => trim(s),
                    None => Seq::empty(),
                },
            };
            if words.len() > 0 {
                Some(words)
            } else {
                Some(json_text(error))
            }
        },
    }
}

fn task_completion_error(payload: &Json) -> (r: Option<String>)
    ensures
        string_view(r) == completion_error(payload@),
{
    let error = match payload.get("error") {
        None => {
            return None;
        },
        Some(e) => e,
    };
    if error.is_null() {
        return None;
    }
    let words = match error.get_str("message") {
        Some(s) => trimmed(s),
        None => match error.as_str() {
            Some(s) => trimmed(s),
            None => String::new(),
        },
    };
    if words.as_str().is_empty() {
        Some(error.to_text())
    } else {
        Some(words)
    }
}

/// An event of a turn.
pub open spec fn event_step(state: RolloutV, payload: JsonV) -> RolloutV {
    let turn = trim(payload.str_or_empty("turn_id"@));
    let kind = payload.get_str("type"@);
    if turn.len() == 0 {
        state
    } else if kind == Some("task_started"@) {
        RolloutV {
            active: with_key(state.active, turn, true),
            started: state.started.push(turn),
            ..state
        }
    } else if kind == Some("task_complete"@) {
        let error = completion_error(payload);
        RolloutV {
            terminal: with_key(state.terminal, turn, true),
            active: without_key(state.active, turn),
            latest: if error is Some {
                SessionLifecycleStatus::Error
            } else {
                SessionLifecycleStatus::Idle
            },
            completed: state.completed.push(
                CompletedV {
                    turn_id: turn,
                    duration_ms: payload.u64_or_zero("duration_ms"@) as u128,
                    completed_at: match payload.get("completed_at"@) {
                        Some(v) => v.as_i64(),
                        None => None,
                    },
                    error,
                },
            ),
            ..state
        }
    } else if kind == Some("turn_aborted"@) {
        RolloutV {
            terminal: with_key(state.terminal, turn, true),
            active: without_key(state.active, turn),
            latest: SessionLifecycleStatus::Idle,
            aborted: state.aborted.push(turn),
            ..state
        }
    } else {
        state
    }
}

/// A call that asks the user, or the answer to one.
pub open spec fn item_step(state: RolloutV, payload: JsonV) -> RolloutV {
    let kind = payload.get_str("type"@);
    let name = payload.str_or_empty("name"@);
    match payload.get_str("call_id"@) {
        None => state,
        Some(call) => if kind == Some("function_call"@) && (name == "request_permissions"@ || name
            == "request_user_input"@) {
            let turn = match payload.get2(
                "internal_chat_message_metadata_passthrough"@,
                "turn_id"@,
            ) {
                Some(JsonV::Str(t)) => t,
                _ => state.current,
            };
            RolloutV { waiting: with_key(state.waiting, call, turn), ..state }
        } else if kind == Some("function_call_output"@) {
            RolloutV { waiting: without_key(state.waiting, call), ..state }
        } else {
            state
        },
    }
}

/// One record of a rollout. That of a subagent's session ends the reading.
pub open spec fn record_step(state: RolloutV, record: JsonV) -> Option<RolloutV> {
    let kind = record.get_str("type"@);
    match record.get("payload"@) {
        None => Some(state),
        Some(payload) => if kind == Some("session_meta"@) {
            if is_subagent(payload) {
                None
            } else {
                Some(state)
            }
        } else if kind == Some("turn_context"@) {
            Some(context_step(state, payload))
        } else if kind == Some("event_msg"@) {
            Some(event_step(state, payload))
        } else if kind == Some("response_item"@) {
            Some(item_step(state, payload))
        } else {
            Some(state)
        },
    }
}

/// The first records of a rollout.
pub open spec fn rollout_state(records: Seq<JsonV>, n: int) -> Option<RolloutV>
    decreases n,
{
    if n <= 0 {
        Some(fresh_rollout())
    } else {
        match rollout_state(records, n - 1) {
            None => None,
            Some(state) => record_step(state, records[n - 1]),
        }
    }
}

/// Calls that still wait, by turn: those of a turn that is known and has not ended.
pub open spec fn still_waiting(
    waiting: Seq<(Seq<char>, Seq<char>)>,
    terminal: Seq<(Seq<char>, bool)>,
) -> Seq<(Seq<char>, Seq<char>)>
    decreases waiting.len(),
{
    if waiting.len() == 0 {
        Seq::empty()
    } else {
        let rest = still_waiting(waiting.drop_last(), terminal);
        let (call, turn) = waiting.last();
        if turn.len() > 0 && lookup(terminal, turn) is None {
            rest.push((turn, call))
        } else {
            rest
        }
    }
}

/// What a rollout comes to.
#[verifier::ext_equal]
pub struct ParsedV {
    pub pending: Seq<(Seq<char>, Seq<char>)>,
    pub started: Seq<Seq<char>>,
    pub aborted: Seq<Seq<char>>,
    pub completed: Seq<CompletedV>,
    pub configurations: Seq<(Seq<char>, (Seq<char>, Seq<char>))>,
    pub status: SessionLifecycleStatus,
}

/// What a session is doing: a question that waits comes first, then a turn that runs, then how the
/// last turn ended.
pub open spec fn status_of(pending: Seq<(Seq<char>, Seq<char>)>, state: RolloutV) -> SessionLifecycleStatus {
    if pending.len() > 0 {
        SessionLifecycleStatus::Waiting
    } else if state.active.len() > 0 {
        SessionLifecycleStatus::Running
    } else {
        state.latest
    }
}

/// What the records of a rollout come to. A subagent's come to nothing.
pub open spec fn rollout_events(records: Seq<JsonV>) -> Option<ParsedV> {
    match rollout_state(records, records.len() as int) {
        None => None,
        Some(state) => {
            let pending = ordered_pairs(still_waiting(state.waiting, state.terminal));
            Some(
                ParsedV {
                    pending,
                    started: state.started,
                    aborted: state.aborted,
                    completed: state.completed,
                    configurations: state.configurations,
                    status: status_of(pending, state),
                },
            )
        },
    }
}

/// The records in the lines of a file. Lines that are no documents are left out.
pub open spec fn records_in(lines: Seq<Seq<char>>) -> Seq<JsonV>
    decreases lines.len(),
{
    if lines.len() == 0 {
        Seq::empty()
    } else {
        let rest = records_in(lines.drop_last());
        match text_parsed(lines.last()) {
            Ok(v) => rest.push(v),
            Err(_) => rest,
        }
    }
}

/// What a rollout comes to.
#[derive(Debug)]
pub struct ParsedRolloutEvents {
    /// Turns and calls that wait.
    pub pending_approvals: Vec<(String, String)>,
    pub started_turns: Vec<String>,
    pub aborted_turns: Vec<String>,
    pub completed_turns: Vec<CompletedRecord>,
    pub turn_configurations: Vec<(String, TurnConfiguration)>,
    pub status: SessionLifecycleStatus,
}

pub open spec fn configuration_list(v: Seq<(String, TurnConfiguration)>) -> Seq<
    (Seq<char>, (Seq<char>, Seq<char>)),
> {
    Seq::new(v.len(), |i: int| (v[i].0@, v[i].1@))
}

impl View for ParsedRolloutEvents {
    type V = ParsedV;

    open spec fn view(&self) -> ParsedV {
        ParsedV {
            pending: pairs_view(self.pending_approvals@),
            started: texts(self.started_turns@),
            aborted: texts(self.aborted_turns@),
            completed: completed_list(self.completed_turns@),
            configurations: configuration_list(self.turn_configurations@),
            status: self.status,
        }
    }
}

pub open spec fn parsed_opt(r: Option<ParsedRolloutEvents>) -> Option<ParsedV> {
    match r {
        Some(p) => Some(p@),
        None => None,
    }
}

struct RolloutReader {
    current: String,
    waiting: TextMap<TextBox>,
    terminal: TextMap<Mark>,
    active: TextMap<Mark>,
    latest: SessionLifecycleStatus,
    started: Vec<String>,
    aborted: Vec<String>,
    completed: Vec<CompletedRecord>,
    configurations: TextMap<TurnConfiguration>,
}

impl RolloutReader {
    spec fn inv(&self) -> bool {
        self.waiting.inv() && self.terminal.inv() && self.active.inv()
            && self.configurations.inv()
    }

    spec fn state(&self) -> RolloutV {
        RolloutV {
            current: self.current@,
            waiting: self.waiting@,
            terminal: self.terminal@,
            active: self.active@,
            latest: self.latest,
            started: texts(self.started@),
            aborted: texts(self.aborted@),
            completed: completed_list(self.completed@),
            configurations: self.configurations@,
        }
    }

    fn new() -> (r: RolloutReader)
        ensures
            r.inv(),
            r.state() == fresh_rollout(),
    {
        let r = RolloutReader {
            current: String::new(),
            waiting: TextMap::new(),
            terminal: TextMap::new(),
            active: TextMap::new(),
            latest: SessionLifecycleStatus::Idle,
            started: Vec::new(),
            aborted: Vec::new(),
            completed: Vec::new(),
            configurations: TextMap::new(),
        };
        proof {
            assert(r.state() =~= fresh_rollout());
        }
        r
    }

    fn context(&mut self, payload: &Json)
        requires
            old(self).inv(),
        ensures
            final(self).inv(),
            final(self).state() == context_step(old(self).state(), payload@),
    {
        if let Some(turn) = payload.get_str("turn_id") {
            self.current = turn.to_owned();
            let model = trimmed(payload.str_or_empty("model").as_str());
            let place = match payload.get_either("effort", "reasoning_effort") {
                Some(v) => Some(v),
                None => payload.get("reasoningEffort"),
            };
            let raw = match place {
                Some(v) => match v.as_str() {
                    Some(s) => s.to_owned(),
                    None => String::new(),
                },
                None => String::new(),
            };
            let reasoning_effort = trimmed(raw.as_str());
            if !model.as_str().is_empty() || !reasoning_effort.as_str().is_empty() {
                self.configurations.insert(turn, TurnConfiguration { model, reasoning_effort });
            }
        }
    }

    fn event(&mut self, payload: &Json)
        requires
            old(self).inv(),
        ensures
            final(self).inv(),
            final(self).state() == event_step(old(self).state(), payload@),
    {
        let turn = trimmed(payload.str_or_empty("turn_id").as_str());
        if turn.as_str().is_empty() {
            return ;
        }
        let kind = match payload.get_str("type") {
            Some(k) => k,
            None => {
                return ;
            },
        };
        if str_eq(kind, "task_started") {
            self.active.insert(turn.as_str(), Mark);
            proof {
                texts_push(self.started@, turn);
            }
            self.started.push(turn);
        } else if str_eq(kind, "task_complete") {
            self.terminal.insert(turn.as_str(), Mark);
            let _ = self.active.remove(turn.as_str());
            let error = task_completion_error(payload);
            self.latest = if error.is_some() {
                SessionLifecycleStatus::Error
            } else {
                SessionLifecycleStatus::Idle
            };
            let completed_at = match payload.get("completed_at") {
                Some(v) => v.as_i64(),
                None => None,
            };
            let record = CompletedRecord {
                turn_id: turn,
                duration_ms: payload.u64_or_zero("duration_ms") as u128,
                completed_at,
                error,
            };
            let ghost before = self.completed@;
            self.completed.push(record);
            proof {
                assert(completed_list(self.completed@) =~= completed_list(before).push(record@));
            }
        } else if str_eq(kind, "turn_aborted") {
            self.terminal.insert(turn.as_str(), Mark);
            let _ = self.active.remove(turn.as_str());
            self.latest = SessionLifecycleStatus::Idle;
            proof {
                texts_push(self.aborted@, turn);
            }
            self.aborted.push(turn);
        }
    }

    fn item(&mut self, payload: &Json)
        requires
            old(self).inv(),
        ensures
            final(self).inv(),
            final(self).state() == item_step(old(self).state(), payload@),
    {
        proof {
            reveal_strlit("function_call");
            reveal_strlit("function_call_output");
            assert("function_call"@.len() == 13);
            assert("function_call_output"@.len() == 20);
        }
        let call = match payload.get_str("call_id") {
            Some(c) => c,
            None => {
                return ;
            },
        };
        let kind = match payload.get_str("type") {
            Some(k) => k,
            None => {
                return ;
            },
        };
        if str_eq(kind, "function_call") {
            let name = payload.str_or_empty("name");
            if str_eq(name.as_str(), "request_permissions") || str_eq(
                name.as_str(),
                "request_user_input",
            ) {
                let own = match payload.get2(
                    "internal_chat_message_metadata_passthrough",
                    "turn_id",
                ) {
                    Some(v) => v.as_str(),
                    None => None,
                };
                let text = match own {
                    Some(t) => t.to_owned(),
                    None => self.current.clone(),
                };
                self.waiting.insert(call, TextBox { text });
            }
        } else if str_eq(kind, "function_call_output") {
            let _ = self.waiting.remove(call);
        }
    }

    /// Takes in a record. Says whether to go on.
    fn record(&mut self, record: &Json) -> (r: bool)
        requires
            old(self).inv(),
        ensures
            final(self).inv(),
            match record_step(old(self).state(), record@) {
                Some(state) => r && final(self).state() == state,
                None => !r,
            },
    {
        let payload = match record.get("payload") {
            Some(p) => p,
            None => {
                return true;
            },
        };
        let kind = match record.get_str("type") {
            Some(k) => k,
            None => {
                return true;
            },
        };
        if str_eq(kind, "session_meta") {
            return !is_subagent_payload(payload);
        }
        if str_eq(kind, "turn_context") {
            self.context(payload);
        } else if str_eq(kind, "event_msg") {
            self.event(payload);
        } else if str_eq(kind, "response_item") {
            self.item(payload);
        }
        true
    }

    fn pending(&self) -> (r: Vec<(String, String)>)
        requires
            self.inv(),
        ensures
            pairs_view(r@) == ordered_pairs(still_waiting(self.waiting@, self.terminal@)),
    {
        let ghost all = self.waiting@;
        let mut out: Vec<(String, String)> = Vec::new();
        let mut i: usize = 0;
        proof {
            assert(pairs_view(out@) =~= still_waiting(all.subrange(0, 0), self.terminal@));
        }
        while i < self.waiting.len()
            invariant
                i <= all.len(),
                self.inv(),
                all == self.waiting@,
                pairs_view(out@) == still_waiting(all.subrange(0, i as int), self.terminal@),
            decreases all.len() - i,
        {
            proof {
                assert(all.subrange(0, i + 1).drop_last() =~= all.subrange(0, i as int));
                assert(all.subrange(0, i + 1).last() == all[i as int]);
            }
            let turn = self.waiting.value_at(i).text.as_str();
            if !turn.is_empty() && !self.terminal.has(turn) {
                let ghost before = out@;
                out.push((turn.to_owned(), self.waiting.key_at(i).to_owned()));
                proof {
                    assert(pairs_view(out@) =~= pairs_view(before).push(
                        (all[i as int].1, all[i as int].0),
                    ));
                }
            }
            i = i + 1;
        }
        proof {
            assert(all.subrange(0, i as int) =~= all);
        }
        sort_pairs(&out)
    }

    fn finish(self) -> (r: ParsedRolloutEvents)
        requires
            self.inv(),
        ensures
            r@ == (ParsedV {
                pending: ordered_pairs(still_waiting(self.waiting@, self.terminal@)),
                started: self.state().started,
                aborted: self.state().aborted,
                completed: self.state().completed,
                configurations: self.configurations@,
                status: status_of(
                    ordered_pairs(still_waiting(self.waiting@, self.terminal@)),
                    self.state(),
                ),
            }),
    {
        let pending = self.pending();
        proof {
            assert(pairs_view(pending@).len() == pending.len());
        }
        let status = if pending.len() > 0 {
            SessionLifecycleStatus::Waiting
        } else if self.active.len() > 0 {
            SessionLifecycleStatus::Running
        } else {
            self.latest
        };
        let mut configurations: Vec<(String, TurnConfiguration)> = Vec::new();
        let ghost all = self.configurations@;
        let mut i: usize = 0;
        while i < self.configurations.len()
            invariant
                i <= all.len(),
                all == self.configurations@,
                configuration_list(configurations@) == all.subrange(0, i as int),
            decreases all.len() - i,
        {
            let c = self.configurations.value_at(i);
            let copy = TurnConfiguration {
                model: c.model.clone(),
                reasoning_effort: c.reasoning_effort.clone(),
            };
            let ghost before = configurations@;
            configurations.push((self.configurations.key_at(i).to_owned(), copy));
            i = i + 1;
            proof {
                assert(configuration_list(configurations@) =~= configuration_list(before).push(
                    all[i - 1],
                ));
                assert(configuration_list(configurations@) =~= all.subrange(0, i as int));
            }
        }
        proof {
            assert(all.subrange(0, i as int) =~= all);
        }
        ParsedRolloutEvents {
            pending_approvals: pending,
            started_turns: self.started,
            aborted_turns: self.aborted,
            completed_turns: self.completed,
            turn_configurations: configurations,
            status,
        }
    }
}

/// Once a rollout has said that it is a subagent's, nothing it says counts.
pub proof fn a_subagent_session_tells_nothing(records: Seq<JsonV>, n: int, m: int)
    requires
        0 <= n <= m,
        rollout_state(records, n) is None,
    ensures
        rollout_state(records, m) is None,
    decreases m - n,
{
    if n < m {
        a_subagent_session_tells_nothing(records, n, m - 1);
    }
}

/// What the records of a rollout come to. A subagent's come to nothing.
pub fn read_rollout_records(records: &Vec<Json>) -> (r: Option<ParsedRolloutEvents>)
    ensures
        parsed_opt(r) == rollout_events(views(records@)),
{
    let ghost all = views(records@);
    let mut reader = RolloutReader::new();
    let mut i: usize = 0;
    while i < records.len()
        invariant
            i <= records.len(),
            all == views(records@),
            reader.inv(),
            rollout_state(all, i as int) == Some(reader.state()),
        decreases records.len() - i,
    {
        proof {
            assert(all[i as int] == records@[i as int]@);
        }
        if !reader.record(&records[i]) {
            proof {
                a_subagent_session_tells_nothing(all, i + 1, records.len() as int);
            }
            return None;
        }
        i = i + 1;
    }
    Some(reader.finish())
}

/// Reads a rollout file. A subagent's comes to nothing.
pub fn parse_rollout_events(contents: &str) -> (r: Option<ParsedRolloutEvents>)
    ensures
        parsed_opt(r) == rollout_events(records_in(lines_of(contents@))),
{
    let lines = split_lines_of(contents);
    let ghost all = texts(lines@);
    let mut records: Vec<Json> = Vec::new();
    let mut i: usize = 0;
    proof {
        assert(views(records@) =~= records_in(all.subrange(0, 0)));
    }
    while i < lines.len()
        invariant
            i <= lines.len(),
            all == texts(lines@),
            views(records@) == records_in(all.subrange(0, i as int)),
        decreases lines.len() - i,
    {
        proof {
            assert(all.subrange(0, i + 1).drop_last() =~= all.subrange(0, i as int));
            assert(all.subrange(0, i + 1).last() == lines@[i as int]@);
        }
        if let Ok(record) = parse_text(lines[i].as_str()) {
            proof {
                views_push(records@, record);
            }
            records.push(record);
        }
        i = i + 1;
    }
    proof {
        assert(all.subrange(0, i as int) =~= all);
    }
    read_rollout_records(&records)
}

/// A turn that has ended waits for nothing, whatever calls it left behind.
pub proof fn an_ended_turn_does_not_wait(
    waiting: Seq<(Seq<char>, Seq<char>)>,
    terminal: Seq<(Seq<char>, bool)>,
    i: int,
)
    requires
        0 <= i < still_waiting(waiting, terminal).len(),
    ensures
        lookup(terminal, still_waiting(waiting, terminal)[i].0) is None,
        still_waiting(waiting, terminal)[i].0.len() > 0,
    decreases waiting.len(),
{
    let rest = still_waiting(waiting.drop_last(), terminal);
    if i < rest.len() {
        an_ended_turn_does_not_wait(waiting.drop_last(), terminal, i);
    }
}

/// The record tells of a turn: it is an event of the given kind that names the turn.
pub open spec fn tells_of_turn(record: JsonV, kind: Seq<char>, turn: Seq<char>) -> bool {
    &&& record.get("type"@) == Some(JsonV::Str("event_msg"@))
    &&& record.get2("payload"@, "type"@) == Some(JsonV::Str(kind))
    &&& record.get2("payload"@, "turn_id"@) matches Some(JsonV::Str(t)) && trim(t) == turn
    &&& turn.len() > 0
}

/// The record says that a turn was started.
pub open spec fn starts_turn(record: JsonV, turn: Seq<char>) -> bool {
    tells_of_turn(record, "task_started"@, turn)
}

/// The record says that a turn was completed, or that the user stopped it.
pub open spec fn ends_turn(record: JsonV, turn: Seq<char>) -> bool {
    tells_of_turn(record, "task_complete"@, turn) || tells_of_turn(record, "turn_aborted"@, turn)
}

/// The turn was started, and has not ended since.
pub open spec fn is_running(records: Seq<JsonV>, n: int, turn: Seq<char>) -> bool {
    exists|i: int| 0 <= i < n && #[trigger] starts_turn(records[i], turn) && not_ended_from(
        records,
        i,
        n,
        turn,
    )
}

pub open spec fn not_ended_from(records: Seq<JsonV>, i: int, n: int, turn: Seq<char>) -> bool {
    forall|j: int| i < j < n ==> !#[trigger] ends_turn(records[j], turn)
}

/// The turn has ended at some time.
pub open spec fn has_ended(records: Seq<JsonV>, n: int, turn: Seq<char>) -> bool {
    exists|i: int| 0 <= i < n && #[trigger] ends_turn(records[i], turn)
}

/// The record is a call that asks the user.
pub open spec fn asks_user(record: JsonV, call: Seq<char>) -> bool {
    &&& record.get("type"@) == Some(JsonV::Str("response_item"@))
    &&& record.get2("payload"@, "type"@) == Some(JsonV::Str("function_call"@))
    &&& record.get2("payload"@, "call_id"@) == Some(JsonV::Str(call))
    &&& record.get2("payload"@, "name"@) == Some(JsonV::Str("request_permissions"@))
        || record.get2("payload"@, "name"@) == Some(JsonV::Str("request_user_input"@))
}

/// The record is the answer to a call.
pub open spec fn answers_call(record: JsonV, call: Seq<char>) -> bool {
    &&& record.get("type"@) == Some(JsonV::Str("response_item"@))
    &&& record.get2("payload"@, "type"@) == Some(JsonV::Str("function_call_output"@))
    &&& record.get2("payload"@, "call_id"@) == Some(JsonV::Str(call))
}

/// The record is the context of a turn.
pub open spec fn names_context(record: JsonV, turn: Seq<char>) -> bool {
    record.get("type"@) == Some(JsonV::Str("turn_context"@)) && record.get2(
        "payload"@,
        "turn_id"@,
    ) == Some(JsonV::Str(turn))
}

/// The turn of the last context among the first records; none where there was no context.
pub open spec fn is_current(records: Seq<JsonV>, n: int, turn: Seq<char>) -> bool {
    (exists|i: int| 0 <= i < n && #[trigger] names_context(records[i], turn) && no_context_from(
        records,
        i + 1,
        n,
    )) || (turn.len() == 0 && no_context_from(records, 0, n))
}

pub open spec fn no_context_from(records: Seq<JsonV>, from: int, n: int) -> bool {
    forall|j: int, turn: Seq<char>|
        from <= j < n ==> !#[trigger] names_context(records[j], turn)
}

/// A question is that of the turn which it names itself, else of the current one.
pub open spec fn is_question_of(records: Seq<JsonV>, i: int, turn: Seq<char>) -> bool {
    match records[i].get3("payload"@, "internal_chat_message_metadata_passthrough"@, "turn_id"@) {
        Some(JsonV::Str(own)) => turn == own,
        _ => is_current(records, i, turn),
    }
}

/// The call was made and has been neither answered nor made anew since.
pub open spec fn is_open(records: Seq<JsonV>, n: int, call: Seq<char>, turn: Seq<char>) -> bool {
    exists|i: int|
        0 <= i < n && #[trigger] asks_user(records[i], call) && is_question_of(records, i, turn)
            && untouched_from(records, i, n, call)
}

pub open spec fn untouched_from(records: Seq<JsonV>, i: int, n: int, call: Seq<char>) -> bool {
    forall|j: int|
        i < j < n ==> !#[trigger] asks_user(records[j], call) && !answers_call(records[j], call)
}

/// A turn waits on a call: the call is open, and its turn is known and never ended.
pub open spec fn waits_on(records: Seq<JsonV>, turn: Seq<char>, call: Seq<char>) -> bool {
    let n = records.len() as int;
    turn.len() > 0 && is_open(records, n, call, turn) && !has_ended(records, n, turn)
}

/// The record ends some turn.
pub open spec fn ends_some_turn(record: JsonV) -> bool {
    exists|turn: Seq<char>| #[trigger] ends_turn(record, turn)
}

/// The last end of a turn that is told of was a completion with an error.
pub open spec fn ended_badly(records: Seq<JsonV>, n: int) -> bool {
    exists|i: int|
        0 <= i < n && #[trigger] completes_badly(records[i]) && no_end_from(records, i + 1, n)
}

pub open spec fn no_end_from(records: Seq<JsonV>, from: int, n: int) -> bool {
    forall|j: int| from <= j < n ==> !#[trigger] ends_some_turn(records[j])
}

/// The record says that a turn was completed, with an error.
pub open spec fn completes_badly(record: JsonV) -> bool {
    ends_some_turn(record) && record.get2("payload"@, "type"@) == Some(
        JsonV::Str("task_complete"@),
    ) && record.get2("payload"@, "error"@) is Some && record.get2("payload"@, "error"@) != Some(
        JsonV::Null,
    )
}

/// The record says that the session is a subagent's.
pub open spec fn is_of_subagent(record: JsonV) -> bool {
    record.get("type"@) == Some(JsonV::Str("session_meta"@)) && (record.get2(
        "payload"@,
        "thread_source"@,
    ) == Some(JsonV::Str("subagent"@)) || (record.get2("payload"@, "parent_thread_id"@) matches Some(
        JsonV::Str(parent),
    ) && trim(parent).len() > 0) || (record.get2("payload"@, "source"@) matches Some(source) && (
    source.get("subagent"@) is Some || source.get("sub_agent"@) is Some)))
}

proof fn lemma_record_kinds()
    ensures
        "session_meta"@ != "turn_context"@,
        "session_meta"@ != "event_msg"@,
        "session_meta"@ != "response_item"@,
        "turn_context"@ != "event_msg"@,
        "turn_context"@ != "response_item"@,
        "event_msg"@ != "response_item"@,
        "task_started"@ != "task_complete"@,
        "task_started"@ != "turn_aborted"@,
        "task_complete"@ != "turn_aborted"@,
        "function_call"@ != "function_call_output"@,
        "request_permissions"@.len() > 0,
        "request_user_input"@.len() > 0,
{
    reveal_strlit("request_permissions");
    reveal_strlit("request_user_input");
    reveal_strlit("session_meta");
    reveal_strlit("turn_context");
    reveal_strlit("event_msg");
    reveal_strlit("response_item");
    reveal_strlit("task_started");
    reveal_strlit("task_complete");
    reveal_strlit("turn_aborted");
    reveal_strlit("function_call");
    reveal_strlit("function_call_output");
    assert("session_meta"@[0] == 's' && "turn_context"@[0] == 't');
    assert("session_meta"@.len() == 12 && "turn_context"@.len() == 12);
    assert("event_msg"@.len() == 9 && "response_item"@.len() == 13);
    assert("task_started"@.len() == 12 && "task_complete"@.len() == 13);
    assert("turn_aborted"@.len() == 12);
    assert("task_started"@[1] == 'a' && "turn_aborted"@[1] == 'u');
    assert("function_call"@.len() == 13 && "function_call_output"@.len() == 20);
}

proof fn lemma_no_turn_in_nothing()
    ensures
        trim(Seq::<char>::empty()).len() == 0,
{
    assert(trim(Seq::<char>::empty()).len() == 0);
}

/// What one more record does to the turns that run and to those that have ended.
proof fn lemma_turn_step(state: RolloutV, record: JsonV, turn: Seq<char>)
    requires
        record_step(state, record) is Some,
    ensures
        ({
            let after = record_step(state, record)->0;
            &&& lookup(after.active, turn) is Some <==> (starts_turn(record, turn) || (lookup(
                state.active,
                turn,
            ) is Some && !ends_turn(record, turn)))
            &&& lookup(after.terminal, turn) is Some <==> (ends_turn(record, turn) || lookup(
                state.terminal,
                turn,
            ) is Some)
            &&& !(starts_turn(record, turn) && ends_turn(record, turn))
        }),
{
    lemma_record_kinds();
    lemma_no_turn_in_nothing();
    if let Some(payload) = record.get("payload"@) {
        let named = trim(payload.str_or_empty("turn_id"@));
        set_then_look(state.active, named, true, turn);
        remove_then_look(state.active, named, turn);
        set_then_look(state.terminal, named, true, turn);
    }
}

proof fn lemma_turns(records: Seq<JsonV>, n: int, turn: Seq<char>)
    requires
        0 <= n <= records.len(),
        rollout_state(records, n) is Some,
    ensures
        lookup(rollout_state(records, n)->0.active, turn) is Some <==> is_running(
            records,
            n,
            turn,
        ),
        lookup(rollout_state(records, n)->0.terminal, turn) is Some <==> has_ended(
            records,
            n,
            turn,
        ),
    decreases n,
{
    if n > 0 {
        lemma_turns(records, n - 1, turn);
        let state = rollout_state(records, n - 1)->0;
        let record = records[n - 1];
        lemma_turn_step(state, record, turn);
        if starts_turn(record, turn) {
            assert(not_ended_from(records, n - 1, n, turn));
            assert(is_running(records, n, turn));
        }
        if is_running(records, n - 1, turn) && !ends_turn(record, turn) {
            let i = choose|i: int|
                0 <= i < n - 1 && #[trigger] starts_turn(records[i], turn) && not_ended_from(
                    records,
                    i,
                    n - 1,
                    turn,
                );
            assert forall|j: int| i < j < n implies !#[trigger] ends_turn(records[j], turn) by {
                if j < n - 1 {
                    assert(!ends_turn(records[j], turn));
                }
            }
            assert(not_ended_from(records, i, n, turn));
            assert(is_running(records, n, turn));
        }
        if is_running(records, n, turn) {
            let i = choose|i: int|
                0 <= i < n && #[trigger] starts_turn(records[i], turn) && not_ended_from(
                    records,
                    i,
                    n,
                    turn,
                );
            if i < n - 1 {
                assert(!ends_turn(records[n - 1], turn));
                assert(not_ended_from(records, i, n - 1, turn));
                assert(is_running(records, n - 1, turn));
            }
        }
        if has_ended(records, n - 1, turn) {
            let i = choose|i: int| 0 <= i < n - 1 && #[trigger] ends_turn(records[i], turn);
            assert(ends_turn(records[i], turn));
        }
        if has_ended(records, n, turn) {
            let i = choose|i: int| 0 <= i < n && #[trigger] ends_turn(records[i], turn);
            if i < n - 1 {
                assert(has_ended(records, n - 1, turn));
            }
        }
    }
}

/// What one more record does to the current turn and to the calls that wait.
proof fn lemma_call_step(state: RolloutV, record: JsonV, call: Seq<char>)
    requires
        record_step(state, record) is Some,
    ensures
        ({
            let after = record_step(state, record)->0;
            &&& lookup(after.waiting, call) == if asks_user(record, call) {
                Some(
                    match record.get3(
                        "payload"@,
                        "internal_chat_message_metadata_passthrough"@,
                        "turn_id"@,
                    ) {
                        Some(JsonV::Str(own)) => own,
                        _ => state.current,
                    },
                )
            } else if answers_call(record, call) {
                None
            } else {
                lookup(state.waiting, call)
            }
            &&& forall|turn: Seq<char>| #[trigger]
                names_context(record, turn) ==> after.current == turn
            &&& (forall|turn: Seq<char>| !#[trigger] names_context(record, turn)) ==> after.current
                == state.current
        }),
{
    lemma_record_kinds();
    if let Some(payload) = record.get("payload"@) {
        if let Some(named) = payload.get_str("call_id"@) {
            let turn = match payload.get2(
                "internal_chat_message_metadata_passthrough"@,
                "turn_id"@,
            ) {
                Some(JsonV::Str(t)) => t,
                _ => state.current,
            };
            set_then_look(state.waiting, named, turn, call);
            remove_then_look(state.waiting, named, call);
        }
        if let Some(turn) = payload.get_str("turn_id"@) {
            if record.get("type"@) == Some(JsonV::Str("turn_context"@)) {
                assert(names_context(record, turn));
            }
        }
        let after = record_step(state, record)->0;
        assert(asks_user(record, call) ==> payload.get_str("call_id"@) == Some(call));
        assert(answers_call(record, call) ==> payload.get_str("call_id"@) == Some(call));
        if record.get("type"@) == Some(JsonV::Str("response_item"@)) {
            assert(after == item_step(state, payload));
            if asks_user(record, call) {
                assert(after.waiting == with_key(
                    state.waiting,
                    call,
                    match payload.get2("internal_chat_message_metadata_passthrough"@, "turn_id"@) {
                        Some(JsonV::Str(t)) => t,
                        _ => state.current,
                    },
                ));
            } else if answers_call(record, call) {
                assert(after.waiting == without_key(state.waiting, call));
            } else {
                assert(lookup(after.waiting, call) == lookup(state.waiting, call));
            }
        } else {
            assert(after.waiting == state.waiting);
        }
    }
}

proof fn lemma_current(records: Seq<JsonV>, n: int, turn: Seq<char>)
    requires
        0 <= n <= records.len(),
        rollout_state(records, n) is Some,
    ensures
        is_current(records, n, turn) <==> rollout_state(records, n)->0.current == turn,
    decreases n,
{
    if n > 0 {
        let state = rollout_state(records, n - 1)->0;
        let after = rollout_state(records, n)->0;
        let record = records[n - 1];
        lemma_current(records, n - 1, turn);
        lemma_current(records, n - 1, state.current);
        lemma_call_step(state, record, Seq::empty());
        if exists|t: Seq<char>| #[trigger] names_context(record, t) {
            let t = choose|t: Seq<char>| #[trigger] names_context(record, t);
            assert(after.current == t);
            assert(no_context_from(records, n, n));
            assert(names_context(records[n - 1], t));
            assert(is_current(records, n, t));
            if is_current(records, n, turn) {
                assert(!no_context_from(records, 0, n)) by {
                    assert(names_context(records[n - 1], t));
                }
                let i = choose|i: int|
                    0 <= i < n && #[trigger] names_context(records[i], turn) && no_context_from(
                        records,
                        i + 1,
                        n,
                    );
                if i < n - 1 {
                    assert(!names_context(records[n - 1], t));
                }
                assert(i == n - 1);
            }
        } else {
            assert forall|i: int| 0 <= i <= n - 1 implies (#[trigger] no_context_from(
                records,
                i,
                n,
            ) <==> no_context_from(records, i, n - 1)) by {
                if no_context_from(records, i, n - 1) {
                    assert forall|j: int, t: Seq<char>| i <= j < n implies !#[trigger] names_context(
                        records[j],
                        t,
                    ) by {}
                }
                if no_context_from(records, i, n) {
                    assert forall|j: int, t: Seq<char>|
                        i <= j < n - 1 implies !#[trigger] names_context(records[j], t) by {}
                }
            }
            if is_current(records, n, turn) {
                if exists|i: int|
                    0 <= i < n && #[trigger] names_context(records[i], turn) && no_context_from(
                        records,
                        i + 1,
                        n,
                    ) {
                    let i = choose|i: int|
                        0 <= i < n && #[trigger] names_context(records[i], turn)
                            && no_context_from(records, i + 1, n);
                    assert(i < n - 1);
                    assert(no_context_from(records, i + 1, n - 1));
                    assert(names_context(records[i], turn));
                } else {
                    assert(no_context_from(records, 0, n - 1));
                }
                assert(is_current(records, n - 1, turn));
            }
            if is_current(records, n - 1, turn) {
                if exists|i: int|
                    0 <= i < n - 1 && #[trigger] names_context(records[i], turn)
                        && no_context_from(records, i + 1, n - 1) {
                    let i = choose|i: int|
                        0 <= i < n - 1 && #[trigger] names_context(records[i], turn)
                            && no_context_from(records, i + 1, n - 1);
                    assert(no_context_from(records, i + 1, n));
                    assert(names_context(records[i], turn));
                } else {
                    assert(no_context_from(records, 0, n));
                }
                assert(is_current(records, n, turn));
            }
        }
    } else if turn.len() == 0 {
        assert(turn =~= Seq::<char>::empty());
    }
}

proof fn lemma_calls(records: Seq<JsonV>, n: int, call: Seq<char>, turn: Seq<char>)
    requires
        0 <= n <= records.len(),
        rollout_state(records, n) is Some,
    ensures
        lookup(rollout_state(records, n)->0.waiting, call) == Some(turn) <==> is_open(
            records,
            n,
            call,
            turn,
        ),
    decreases n,
{
    if n > 0 {
        lemma_calls(records, n - 1, call, turn);
        let state = rollout_state(records, n - 1)->0;
        let record = records[n - 1];
        lemma_call_step(state, record, call);
        lemma_current(records, n - 1, turn);
        lemma_record_kinds();
        assert(!(asks_user(record, call) && answers_call(record, call)));
        if asks_user(record, call) {
            assert(untouched_from(records, n - 1, n, call));
            assert(asks_user(records[n - 1], call));
            if is_question_of(records, n - 1, turn) {
                assert(is_open(records, n, call, turn));
            }
            if is_open(records, n, call, turn) {
                let i = choose|i: int|
                    0 <= i < n && #[trigger] asks_user(records[i], call) && is_question_of(
                        records,
                        i,
                        turn,
                    ) && untouched_from(records, i, n, call);
                if i < n - 1 {
                    assert(!asks_user(records[n - 1], call));
                }
                assert(i == n - 1);
            }
        } else {
            if is_open(records, n, call, turn) {
                let i = choose|i: int|
                    0 <= i < n && #[trigger] asks_user(records[i], call) && is_question_of(
                        records,
                        i,
                        turn,
                    ) && untouched_from(records, i, n, call);
                assert(i < n - 1);
                assert(!asks_user(records[n - 1], call));
                assert(!answers_call(records[n - 1], call));
                assert(untouched_from(records, i, n - 1, call)) by {
                    assert forall|j: int| i < j < n - 1 implies !#[trigger] asks_user(
                        records[j],
                        call,
                    ) && !answers_call(records[j], call) by {}
                }
                assert(is_open(records, n - 1, call, turn));
            }
            if is_open(records, n - 1, call, turn) && !answers_call(record, call) {
                let i = choose|i: int|
                    0 <= i < n - 1 && #[trigger] asks_user(records[i], call) && is_question_of(
                        records,
                        i,
                        turn,
                    ) && untouched_from(records, i, n - 1, call);
                assert(untouched_from(records, i, n, call)) by {
                    assert forall|j: int| i < j < n implies (!#[trigger] asks_user(
                        records[j],
                        call,
                    ) && !answers_call(records[j], call)) by {
                        if j == n - 1 {
                            assert(records[j] == record);
                        }
                    }
                }
                assert(is_open(records, n, call, turn));
            }
        }
    }
}

proof fn lemma_latest_step(state: RolloutV, record: JsonV)
    requires
        record_step(state, record) is Some,
    ensures
        record_step(state, record)->0.latest == if !ends_some_turn(record) {
            state.latest
        } else if completes_badly(record) {
            SessionLifecycleStatus::Error
        } else {
            SessionLifecycleStatus::Idle
        },
{
    lemma_record_kinds();
    lemma_no_turn_in_nothing();
    if let Some(payload) = record.get("payload"@) {
        let named = trim(payload.str_or_empty("turn_id"@));
        assert(ends_turn(record, named) ==> ends_some_turn(record));
        if ends_some_turn(record) {
            let turn = choose|turn: Seq<char>| #[trigger] ends_turn(record, turn);
            assert(turn == named);
        }
    }
}

proof fn lemma_latest(records: Seq<JsonV>, n: int)
    requires
        0 <= n <= records.len(),
        rollout_state(records, n) is Some,
    ensures
        rollout_state(records, n)->0.latest == if ended_badly(records, n) {
            SessionLifecycleStatus::Error
        } else {
            SessionLifecycleStatus::Idle
        },
    decreases n,
{
    if n > 0 {
        lemma_latest(records, n - 1);
        let state = rollout_state(records, n - 1)->0;
        let record = records[n - 1];
        lemma_latest_step(state, record);
        if ends_some_turn(record) {
            if completes_badly(record) {
                assert(no_end_from(records, n, n));
                assert(completes_badly(records[n - 1]));
                assert(ended_badly(records, n));
            }
            if ended_badly(records, n) {
                let i = choose|i: int|
                    0 <= i < n && #[trigger] completes_badly(records[i]) && no_end_from(
                        records,
                        i + 1,
                        n,
                    );
                if i < n - 1 {
                    assert(!ends_some_turn(records[n - 1]));
                }
                assert(i == n - 1);
            }
        } else {
            if ended_badly(records, n) {
                let i = choose|i: int|
                    0 <= i < n && #[trigger] completes_badly(records[i]) && no_end_from(
                        records,
                        i + 1,
                        n,
                    );
                assert(i < n - 1);
                assert(no_end_from(records, i + 1, n - 1));
                assert(ended_badly(records, n - 1));
            }
            if ended_badly(records, n - 1) {
                let i = choose|i: int|
                    0 <= i < n - 1 && #[trigger] completes_badly(records[i]) && no_end_from(
                        records,
                        i + 1,
                        n - 1,
                    );
                assert forall|j: int| i + 1 <= j < n implies !#[trigger] ends_some_turn(
                    records[j],
                ) by {}
                assert(no_end_from(records, i + 1, n));
                assert(ended_badly(records, n));
            }
        }
    }
}

proof fn lemma_waiting_distinct(records: Seq<JsonV>, n: int)
    requires
        0 <= n <= records.len(),
        rollout_state(records, n) is Some,
    ensures
        distinct(rollout_state(records, n)->0.waiting),
    decreases n,
{
    if n > 0 {
        lemma_waiting_distinct(records, n - 1);
        let state = rollout_state(records, n - 1)->0;
        if let Some(payload) = records[n - 1].get("payload"@) {
            if let Some(call) = payload.get_str("call_id"@) {
                let turn = match payload.get2(
                    "internal_chat_message_metadata_passthrough"@,
                    "turn_id"@,
                ) {
                    Some(JsonV::Str(t)) => t,
                    _ => state.current,
                };
                distinct_after_set(state.waiting, call, turn);
                distinct_after_remove(state.waiting, call);
            }
        }
    }
}

proof fn lemma_still_waiting(
    waiting: Seq<(Seq<char>, Seq<char>)>,
    terminal: Seq<(Seq<char>, bool)>,
    turn: Seq<char>,
    call: Seq<char>,
)
    ensures
        still_waiting(waiting, terminal).contains((turn, call)) <==> waiting.contains((call, turn))
            && turn.len() > 0 && lookup(terminal, turn) is None,
    decreases waiting.len(),
{
    if waiting.len() > 0 {
        let before = waiting.drop_last();
        lemma_still_waiting(before, terminal, turn, call);
        let rest = still_waiting(before, terminal);
        let all = still_waiting(waiting, terminal);
        if waiting.contains((call, turn)) {
            let i = choose|i: int| 0 <= i < waiting.len() && waiting[i] == (call, turn);
            if i < before.len() {
                assert(before[i] == (call, turn));
            }
        }
        if before.contains((call, turn)) {
            let i = choose|i: int| 0 <= i < before.len() && before[i] == (call, turn);
            assert(waiting[i] == (call, turn));
        }
        if rest.contains((turn, call)) {
            let i = choose|i: int| 0 <= i < rest.len() && rest[i] == (turn, call);
            assert(all[i] == (turn, call));
        }
        if all.contains((turn, call)) {
            let i = choose|i: int| 0 <= i < all.len() && all[i] == (turn, call);
            if i < rest.len() {
                assert(rest[i] == (turn, call));
            } else {
                assert(waiting[waiting.len() - 1] == (call, turn));
            }
        }
        if waiting.last() == (call, turn) && turn.len() > 0 && lookup(terminal, turn) is None {
            assert(all[rest.len() as int] == (turn, call));
        }
    }
}

/// A rollout is read unless one of its records says that it is a subagent's.
pub proof fn only_a_subagent_session_is_left_out(records: Seq<JsonV>, n: int)
    requires
        0 <= n <= records.len(),
    ensures
        rollout_state(records, n) is None <==> exists|i: int|
            0 <= i < n && is_of_subagent(#[trigger] records[i]),
        rollout_events(records) is None <==> exists|i: int|
            0 <= i < records.len() && is_of_subagent(#[trigger] records[i]),
    decreases records.len() - n,
{
    lemma_left_out(records, n);
    lemma_left_out(records, records.len() as int);
}

proof fn lemma_left_out(records: Seq<JsonV>, n: int)
    requires
        0 <= n <= records.len(),
    ensures
        rollout_state(records, n) is None <==> exists|i: int|
            0 <= i < n && is_of_subagent(#[trigger] records[i]),
    decreases n,
{
    if n > 0 {
        lemma_left_out(records, n - 1);
        lemma_record_kinds();
        lemma_no_turn_in_nothing();
        let record = records[n - 1];
        if rollout_state(records, n - 1) is Some {
            let state = rollout_state(records, n - 1)->0;
            assert(record_step(state, record) is None <==> is_of_subagent(record));
        } else {
            let i = choose|i: int| 0 <= i < n - 1 && is_of_subagent(#[trigger] records[i]);
            assert(is_of_subagent(records[i]));
        }
    }
}

/// What a session is doing, told by its records. It waits exactly where a turn waits on a call to the
/// user, and those turns and calls are the ones that are listed. Else it runs exactly where a turn was
/// started and has not ended since. Else it has failed exactly where the last turn that ended was
/// completed with an error, and is idle otherwise.
pub proof fn a_session_does_what_its_records_tell(records: Seq<JsonV>)
    requires
        forall|i: int| 0 <= i < records.len() ==> !is_of_subagent(#[trigger] records[i]),
    ensures
        rollout_events(records) is Some,
        ({
            let told = rollout_events(records)->0;
            let n = records.len() as int;
            let waits = exists|turn: Seq<char>, call: Seq<char>| #[trigger]
                waits_on(records, turn, call);
            let runs = exists|turn: Seq<char>| #[trigger] is_running(records, n, turn);
            &&& forall|turn: Seq<char>, call: Seq<char>| #[trigger]
                told.pending.contains((turn, call)) <==> waits_on(records, turn, call)
            &&& pairs_in_order(told.pending)
            &&& told.status == if waits {
                SessionLifecycleStatus::Waiting
            } else if runs {
                SessionLifecycleStatus::Running
            } else if ended_badly(records, n) {
                SessionLifecycleStatus::Error
            } else {
                SessionLifecycleStatus::Idle
            }
        }),
{
    let n = records.len() as int;
    lemma_left_out(records, n);
    let state = rollout_state(records, n)->0;
    let told = rollout_events(records)->0;
    let unsorted = still_waiting(state.waiting, state.terminal);
    ordered_pairs_are_in_order(unsorted);
    lemma_waiting_distinct(records, n);
    lemma_latest(records, n);
    assert forall|turn: Seq<char>, call: Seq<char>| #[trigger]
        told.pending.contains((turn, call)) <==> waits_on(records, turn, call) by {
        broadcast use vstd::seq_lib::group_to_multiset_ensures;

        assert(told.pending.contains((turn, call)) <==> told.pending.to_multiset().contains(
            (turn, call),
        ));
        assert(unsorted.contains((turn, call)) <==> unsorted.to_multiset().contains(
            (turn, call),
        ));
        lemma_still_waiting(state.waiting, state.terminal, turn, call);
        lemma_calls(records, n, call, turn);
        lemma_turns(records, n, turn);
        if state.waiting.contains((call, turn)) {
            let i = choose|i: int|
                0 <= i < state.waiting.len() && state.waiting[i] == (call, turn);
            lookup_at(state.waiting, i);
        }
        if lookup(state.waiting, call) == Some(turn) {
            lookup_place(state.waiting, call);
            let i = choose|i: int|
                0 <= i < state.waiting.len() && (#[trigger] state.waiting[i]).0 == call;
            lookup_at(state.waiting, i);
            assert(state.waiting[i] == (call, turn));
        }
    }
    if told.pending.len() > 0 {
        let (turn, call) = told.pending[0];
        assert(told.pending.contains((turn, call)));
        assert(waits_on(records, turn, call));
    }
    if exists|turn: Seq<char>, call: Seq<char>| #[trigger] waits_on(records, turn, call) {
        let (turn, call) = choose|turn: Seq<char>, call: Seq<char>| #[trigger]
            waits_on(records, turn, call);
        assert(told.pending.contains((turn, call)));
    }
    if state.active.len() > 0 {
        let turn = state.active[0].0;
        lookup_place(state.active, turn);
        lemma_turns(records, n, turn);
        assert(is_running(records, n, turn));
    }
    if exists|turn: Seq<char>| #[trigger] is_running(records, n, turn) {
        let turn = choose|turn: Seq<char>| #[trigger] is_running(records, n, turn);
        lemma_turns(records, n, turn);
        lookup_place(state.active, turn);
    }
}

/// One more record adds to the lists exactly what it says: a turn that was started, one that the user
/// stopped, or one that was completed, with its duration, its time and its error.
pub proof fn a_record_adds_what_it_says(records: Seq<JsonV>, record: JsonV, turn: Seq<char>)
    requires
        rollout_events(records.push(record)) is Some,
    ensures
        rollout_events(records) is Some,
        ({
            let before = rollout_events(records)->0;
            let after = rollout_events(records.push(record))->0;
            &&& starts_turn(record, turn) ==> after.started == before.started.push(turn)
            &&& (forall|t: Seq<char>| !#[trigger] starts_turn(record, t)) ==> after.started
                == before.started
            &&& tells_of_turn(record, "turn_aborted"@, turn) ==> after.aborted
                == before.aborted.push(turn)
            &&& (forall|t: Seq<char>| !#[trigger] tells_of_turn(record, "turn_aborted"@, t))
                ==> after.aborted == before.aborted
            &&& (forall|t: Seq<char>| !#[trigger] tells_of_turn(record, "task_complete"@, t))
                ==> after.completed == before.completed
            &&& tells_of_turn(record, "task_complete"@, turn) ==> after.completed.len()
                == before.completed.len() + 1 && after.completed.drop_last() == before.completed
                && after.completed.last().turn_id == turn && after.completed.last().duration_ms
                == (match record.get2("payload"@, "duration_ms"@) {
                Some(JsonV::Unsigned(ms)) => ms as u128,
                _ => 0,
            }) && after.completed.last().completed_at == (match record.get2(
                "payload"@,
                "completed_at"@,
            ) {
                Some(v) => v.as_i64(),
                None => None,
            }) && (after.completed.last().error is Some <==> record.get2(
                "payload"@,
                "error"@,
            ) is Some && record.get2("payload"@, "error"@) != Some(JsonV::Null))
        }),
{
    lemma_record_kinds();
    lemma_no_turn_in_nothing();
    let all = records.push(record);
    lemma_same_beginning(records, record, records.len() as int);
    let state = rollout_state(records, records.len() as int)->0;
    let after = record_step(state, record)->0;
    if let Some(payload) = record.get("payload"@) {
        let named = trim(payload.str_or_empty("turn_id"@));
        assert(starts_turn(record, turn) ==> turn == named);
        if record.get("type"@) == Some(JsonV::Str("event_msg"@)) && named.len() > 0 {
            if payload.get_str("type"@) == Some("task_started"@) {
                assert(starts_turn(record, named));
            } else if payload.get_str("type"@) == Some("turn_aborted"@) {
                assert(tells_of_turn(record, "turn_aborted"@, named));
            } else if payload.get_str("type"@) == Some("task_complete"@) {
                assert(tells_of_turn(record, "task_complete"@, named));
                assert(after.completed.drop_last() =~= state.completed);
            }
        }
    }
}

proof fn lemma_same_beginning(records: Seq<JsonV>, record: JsonV, n: int)
    requires
        0 <= n <= records.len(),
    ensures
        rollout_state(records.push(record), n) == rollout_state(records, n),
    decreases n,
{
    if n > 0 {
        lemma_same_beginning(records, record, n - 1);
        assert(records.push(record)[n - 1] == records[n - 1]);
    }
}

/// A turn that ends well clears the error of an earlier one.
pub proof fn a_good_turn_clears_an_error(state: RolloutV, payload: JsonV)
    requires
        trim(payload.str_or_empty("turn_id"@)).len() > 0,
        payload.get_str("type"@) == Some("task_complete"@),
        payload.get("error"@) is None,
    ensures
        event_step(state, payload).latest == SessionLifecycleStatus::Idle,
{
    reveal_strlit("task_complete");
    reveal_strlit("task_started");
    assert("task_complete"@.len() == 13);
    assert("task_started"@.len() == 12);
}

/// What tells whether a rollout file has changed.
#[derive(Debug, Clone, Copy, PartialEq, Eq, Structural)]
pub struct RolloutSignature {
    pub len: u64,
    /// When the file was last changed, in nanoseconds, where that is known.
    pub modified: Option<u128>,
}

/// A rollout file as it was last read.
#[derive(Debug)]
pub struct CachedRolloutEvents {
    pub session_id: String,
    pub signature: RolloutSignature,
    pub parsed: Option<ParsedRolloutEvents>,
}

#[verifier::ext_equal]
pub struct CachedV {
    pub session_id: Seq<char>,
    pub signature: RolloutSignature,
    pub parsed: Option<ParsedV>,
}

impl View for CachedRolloutEvents {
    type V = CachedV;

    open spec fn view(&self) -> CachedV {
        CachedV {
            session_id: self.session_id@,
            signature: self.signature,
            parsed: parsed_opt(self.parsed),
        }
    }
}

/// A rollout file as it is found.
#[derive(Debug)]
pub struct RolloutFile {
    pub session_id: String,
    pub path: String,
    /// None where the file is not there.
    pub signature: Option<RolloutSignature>,
    /// The file's text, where it was read.
    pub contents: Option<String>,
    /// Milliseconds since the file was last changed.
    pub age_ms: u128,
    /// The file is a copy of another session.
    pub imported: bool,
}

#[verifier::ext_equal]
pub struct FileV {
    pub session_id: Seq<char>,
    pub path: Seq<char>,
    pub signature: Option<RolloutSignature>,
    pub contents: Option<Seq<char>>,
    pub age_ms: u128,
    pub imported: bool,
}

impl View for RolloutFile {
    type V = FileV;

    open spec fn view(&self) -> FileV {
        FileV {
            session_id: self.session_id@,
            path: self.path@,
            signature: self.signature,
            contents: string_view(self.contents),
            age_ms: self.age_ms,
            imported: self.imported,
        }
    }
}

pub open spec fn file_list(v: Seq<RolloutFile>) -> Seq<FileV> {
    Seq::new(v.len(), |i: int| v[i]@)
}

/// What a rollout file's text comes to.
pub open spec fn events_of(contents: Seq<char>) -> Option<ParsedV> {
    rollout_events(records_in(lines_of(contents)))
}

/// The cache has the file as it is.
pub open spec fn is_cached(
    cache: Seq<(Seq<char>, CachedV)>,
    session_id: Seq<char>,
    path: Seq<char>,
    signature: RolloutSignature,
) -> bool {
    lookup(cache, path) matches Some(c) && c.session_id == session_id && c.signature == signature
}

/// The cache after one file. A file that has not changed is not read again; one that is gone or
/// cannot be read is forgotten.
pub open spec fn cache_step(cache: Seq<(Seq<char>, CachedV)>, file: FileV) -> Seq<
    (Seq<char>, CachedV),
> {
    match file.signature {
        None => without_key(cache, file.path),
        Some(signature) => if is_cached(cache, file.session_id, file.path, signature) {
            cache
        } else {
            match file.contents {
                None => without_key(cache, file.path),
                Some(text) => with_key(
                    cache,
                    file.path,
                    CachedV {
                        session_id: file.session_id,
                        signature,
                        parsed: events_of(text),
                    },
                ),
            }
        },
    }
}

/// What is known of a file once the cache has it.
pub open spec fn known_events(cache: Seq<(Seq<char>, CachedV)>, file: FileV) -> Option<ParsedV> {
    if file.signature is None {
        None
    } else {
        match lookup(cache, file.path) {
            Some(c) => c.parsed,
            None => None,
        }
    }
}

/// What the recent sessions are doing.
pub struct RecentSessionEvents {
    pub pending_approvals: Vec<PendingApproval>,
    pub started_turns: Vec<StartedTurn>,
    pub aborted_turns: Vec<AbortedTurn>,
    pub completed_turns: Vec<CompletedTurn>,
    pub session_statuses: TextMap<SessionLifecycleStatus>,
    pub turn_configurations: TextMap<ConfigurationList>,
}

/// The configurations of a session's turns.
#[derive(Debug)]
pub struct ConfigurationList {
    pub turns: Vec<(String, TurnConfiguration)>,
}

impl View for ConfigurationList {
    type V = Seq<(Seq<char>, (Seq<char>, Seq<char>))>;

    open spec fn view(&self) -> Seq<(Seq<char>, (Seq<char>, Seq<char>))> {
        configuration_list(self.turns@)
    }
}

#[verifier::ext_equal]
pub struct SessionEventsV {
    pub pending: Seq<(Seq<char>, (Seq<char>, Seq<char>), u128)>,
    pub started: Seq<(Seq<char>, Seq<char>)>,
    pub aborted: Seq<(Seq<char>, Seq<char>)>,
    pub completed: Seq<(Seq<char>, CompletedV, bool)>,
    pub statuses: Seq<(Seq<char>, SessionLifecycleStatus)>,
    pub configurations: Seq<(Seq<char>, Seq<(Seq<char>, (Seq<char>, Seq<char>))>)>,
}

pub open spec fn pending_list(v: Seq<PendingApproval>) -> Seq<
    (Seq<char>, (Seq<char>, Seq<char>), u128),
> {
    Seq::new(
        v.len(),
        |i: int| (v[i].session_id@, (v[i].turn_id@, v[i].waiting_id@), v[i].duration_ms),
    )
}

pub open spec fn started_list(v: Seq<StartedTurn>) -> Seq<(Seq<char>, Seq<char>)> {
    Seq::new(v.len(), |i: int| (v[i].session_id@, v[i].turn_id@))
}

pub open spec fn aborted_list(v: Seq<AbortedTurn>) -> Seq<(Seq<char>, Seq<char>)> {
    Seq::new(v.len(), |i: int| (v[i].session_id@, v[i].turn_id@))
}

pub open spec fn ended_list(v: Seq<CompletedTurn>) -> Seq<(Seq<char>, CompletedV, bool)> {
    Seq::new(
        v.len(),
        |i: int|
            (
                v[i].session_id@,
                CompletedV {
                    turn_id: v[i].turn_id@,
                    duration_ms: v[i].duration_ms,
                    completed_at: v[i].completed_at,
                    error: string_view(v[i].error),
                },
                v[i].is_snapshot_replay,
            ),
    )
}

/// The events with those of one session.
pub open spec fn add_session(events: SessionEventsV, file: FileV, parsed: ParsedV) -> SessionEventsV {
    SessionEventsV {
        pending: events.pending + Seq::new(
            parsed.pending.len(),
            |i: int| (file.session_id, parsed.pending[i], file.age_ms),
        ),
        started: events.started + Seq::new(
            parsed.started.len(),
            |i: int| (file.session_id, parsed.started[i]),
        ),
        aborted: events.aborted + Seq::new(
            parsed.aborted.len(),
            |i: int| (file.session_id, parsed.aborted[i]),
        ),
        completed: events.completed + Seq::new(
            parsed.completed.len(),
            |i: int| (file.session_id, parsed.completed[i], file.imported),
        ),
        statuses: with_key(events.statuses, file.session_id, parsed.status),
        configurations: with_key(events.configurations, file.session_id, parsed.configurations),
    }
}

/// The entries of files that are still looked at.
pub open spec fn active_only(cache: Seq<(Seq<char>, CachedV)>, files: Seq<FileV>) -> Seq<
    (Seq<char>, CachedV),
>
    decreases cache.len(),
{
    if cache.len() == 0 {
        cache
    } else {
        let rest = active_only(cache.drop_last(), files);
        if names_path(files, cache.last().0) {
            rest.push(cache.last())
        } else {
            rest
        }
    }
}

pub open spec fn names_path(files: Seq<FileV>, path: Seq<char>) -> bool {
    exists|i: int| 0 <= i < files.len() && (#[trigger] files[i]).path == path
}

/// The cache and the events after the first files.
pub open spec fn refreshed(cache: Seq<(Seq<char>, CachedV)>, files: Seq<FileV>, n: int) -> (Seq<
    (Seq<char>, CachedV),
>, SessionEventsV)
    decreases n,
{
    if n <= 0 {
        (
            cache,
            SessionEventsV {
                pending: Seq::empty(),
                started: Seq::empty(),
                aborted: Seq::empty(),
                completed: Seq::empty(),
                statuses: Seq::empty(),
                configurations: Seq::empty(),
            },
        )
    } else {
        let (before, events) = refreshed(cache, files, n - 1);
        let file = files[n - 1];
        let after = cache_step(before, file);
        match known_events(after, file) {
            Some(parsed) => (after, add_session(events, file, parsed)),
            None => (after, events),
        }
    }
}

/// Keeps what rollout files came to, so that a file that has not changed is not read again.
pub struct RecentSessionEventCache {
    pub rollouts: TextMap<CachedRolloutEvents>,
}

impl RecentSessionEvents {
    pub open spec fn inv(&self) -> bool {
        self.session_statuses.inv() && self.turn_configurations.inv()
    }

    pub open spec fn state(&self) -> SessionEventsV {
        SessionEventsV {
            pending: pending_list(self.pending_approvals@),
            started: started_list(self.started_turns@),
            aborted: aborted_list(self.aborted_turns@),
            completed: ended_list(self.completed_turns@),
            statuses: self.session_statuses@,
            configurations: self.turn_configurations@,
        }
    }

    pub fn new() -> (r: RecentSessionEvents)
        ensures
            r.inv(),
            r.state() == refreshed(Seq::empty(), Seq::empty(), 0).1,
    {
        let r = RecentSessionEvents {
            pending_approvals: Vec::new(),
            started_turns: Vec::new(),
            aborted_turns: Vec::new(),
            completed_turns: Vec::new(),
            session_statuses: TextMap::new(),
            turn_configurations: TextMap::new(),
        };
        proof {
            assert(r.state() =~= refreshed(Seq::empty(), Seq::empty(), 0).1);
        }
        r
    }

    fn add_pending(&mut self, session_id: &str, list: &Vec<(String, String)>, age_ms: u128)
        requires
            old(self).inv(),
        ensures
            final(self).inv(),
            final(self).state() == (SessionEventsV {
                pending: old(self).state().pending + Seq::new(
                    pairs_view(list@).len(),
                    |i: int| (session_id@, pairs_view(list@)[i], age_ms),
                ),
                ..old(self).state()
            }),
    {
        let ghost start = self.state().pending;
        let ghost added = Seq::new(
            pairs_view(list@).len(),
            |i: int| (session_id@, pairs_view(list@)[i], age_ms),
        );
        let mut i: usize = 0;
        proof {
            assert(start =~= start + added.subrange(0, 0));
        }
        while i < list.len()
            invariant
                i <= list.len(),
                added == Seq::new(
                    pairs_view(list@).len(),
                    |i: int| (session_id@, pairs_view(list@)[i], age_ms),
                ),
                start == old(self).state().pending,
                self.inv(),
                self.state() == (SessionEventsV {
                    pending: start + added.subrange(0, i as int),
                    ..old(self).state()
                }),
            decreases list.len() - i,
        {
            let ghost before = self.pending_approvals@;
            self.pending_approvals.push(
                PendingApproval {
                    session_id: session_id.to_owned(),
                    turn_id: list[i].0.clone(),
                    waiting_id: list[i].1.clone(),
                    duration_ms: age_ms,
                },
            );
            i = i + 1;
            proof {
                assert(pending_list(self.pending_approvals@) =~= pending_list(before).push(
                    added[i - 1],
                ));
                assert(pending_list(self.pending_approvals@) =~= start + added.subrange(
                    0,
                    i as int,
                ));
            }
        }
        proof {
            assert(added.subrange(0, i as int) =~= added);
        }
    }

    fn add_started(&mut self, session_id: &str, list: &Vec<String>)
        requires
            old(self).inv(),
        ensures
            final(self).inv(),
            final(self).state() == (SessionEventsV {
                started: old(self).state().started + Seq::new(
                    texts(list@).len(),
                    |i: int| (session_id@, texts(list@)[i]),
                ),
                ..old(self).state()
            }),
    {
        let ghost start = self.state().started;
        let ghost added = Seq::new(
            texts(list@).len(),
            |i: int| (session_id@, texts(list@)[i]),
        );
        let mut i: usize = 0;
        proof {
            assert(start =~= start + added.subrange(0, 0));
        }
        while i < list.len()
            invariant
                i <= list.len(),
                added == Seq::new(
                    texts(list@).len(),
                    |i: int| (session_id@, texts(list@)[i]),
                ),
                start == old(self).state().started,
                self.inv(),
                self.state() == (SessionEventsV {
                    started: start + added.subrange(0, i as int),
                    ..old(self).state()
                }),
            decreases list.len() - i,
        {
            let ghost before = self.started_turns@;
            self.started_turns.push(
                StartedTurn { session_id: session_id.to_owned(), turn_id: list[i].clone() },
            );
            i = i + 1;
            proof {
                assert(started_list(self.started_turns@) =~= started_list(before).push(
                    added[i - 1],
                ));
                assert(started_list(self.started_turns@) =~= start + added.subrange(0, i as int));
            }
        }
        proof {
            assert(added.subrange(0, i as int) =~= added);
        }
    }

    fn add_aborted(&mut self, session_id: &str, list: &Vec<String>)
        requires
            old(self).inv(),
        ensures
            final(self).inv(),
            final(self).state() == (SessionEventsV {
                aborted: old(self).state().aborted + Seq::new(
                    texts(list@).len(),
                    |i: int| (session_id@, texts(list@)[i]),
                ),
                ..old(self).state()
            }),
    {
        let ghost start = self.state().aborted;
        let ghost added = Seq::new(
            texts(list@).len(),
            |i: int| (session_id@, texts(list@)[i]),
        );
        let mut i: usize = 0;
        proof {
            assert(start =~= start + added.subrange(0, 0));
        }
        while i < list.len()
            invariant
                i <= list.len(),
                added == Seq::new(
                    texts(list@).len(),
                    |i: int| (session_id@, texts(list@)[i]),
                ),
                start == old(self).state().aborted,
                self.inv(),
                self.state() == (SessionEventsV {
                    aborted: start + added.subrange(0, i as int),
                    ..old(self).state()
                }),
            decreases list.len() - i,
        {
            let ghost before = self.aborted_turns@;
            self.aborted_turns.push(
                AbortedTurn { session_id: session_id.to_owned(), turn_id: list[i].clone() },
            );
            i = i + 1;
            proof {
                assert(aborted_list(self.aborted_turns@) =~= aborted_list(before).push(
                    added[i - 1],
                ));
                assert(aborted_list(self.aborted_turns@) =~= start + added.subrange(0, i as int));
            }
        }
        proof {
            assert(added.subrange(0, i as int) =~= added);
        }
    }

    fn add_completed(&mut self, session_id: &str, list: &Vec<CompletedRecord>, imported: bool)
        requires
            old(self).inv(),
        ensures
            final(self).inv(),
            final(self).state() == (SessionEventsV {
                completed: old(self).state().completed + Seq::new(
                    completed_list(list@).len(),
                    |i: int| (session_id@, completed_list(list@)[i], imported),
                ),
                ..old(self).state()
            }),
    {
        let ghost start = self.state().completed;
        let ghost added = Seq::new(
            completed_list(list@).len(),
            |i: int| (session_id@, completed_list(list@)[i], imported),
        );
        let mut i: usize = 0;
        proof {
            assert(start =~= start + added.subrange(0, 0));
        }
        while i < list.len()
            invariant
                i <= list.len(),
                added == Seq::new(
                    completed_list(list@).len(),
                    |i: int| (session_id@, completed_list(list@)[i], imported),
                ),
                start == old(self).state().completed,
                self.inv(),
                self.state() == (SessionEventsV {
                    completed: start + added.subrange(0, i as int),
                    ..old(self).state()
                }),
            decreases list.len() - i,
        {
            let ghost before = self.completed_turns@;
            let error = match &list[i].error {
                Some(e) => Some(e.clone()),
                None => None,
            };
            self.completed_turns.push(
                CompletedTurn {
                    session_id: session_id.to_owned(),
                    turn_id: list[i].turn_id.clone(),
                    duration_ms: list[i].duration_ms,
                    completed_at: list[i].completed_at,
                    error,
                    is_snapshot_replay: imported,
                },
            );
            i = i + 1;
            proof {
                assert(ended_list(self.completed_turns@) =~= ended_list(before).push(
                    added[i - 1],
                ));
                assert(ended_list(self.completed_turns@) =~= start + added.subrange(0, i as int));
            }
        }
        proof {
            assert(added.subrange(0, i as int) =~= added);
        }
    }

    fn add(&mut self, file: &RolloutFile, parsed: &ParsedRolloutEvents)
        requires
            old(self).inv(),
        ensures
            final(self).inv(),
            final(self).state() == add_session(old(self).state(), file@, parsed@),
    {
        let session = file.session_id.as_str();
        self.session_statuses.insert(session, parsed.status);
        let turns = copy_configurations(&parsed.turn_configurations);
        self.turn_configurations.insert(session, ConfigurationList { turns });
        self.add_pending(session, &parsed.pending_approvals, file.age_ms);
        self.add_started(session, &parsed.started_turns);
        self.add_completed(session, &parsed.completed_turns, file.imported);
        self.add_aborted(session, &parsed.aborted_turns);
        proof {
            assert(self.state() =~= add_session(old(self).state(), file@, parsed@));
        }
    }
}

fn copy_configurations(list: &Vec<(String, TurnConfiguration)>) -> (r: Vec<
    (String, TurnConfiguration),
>)
    ensures
        configuration_list(r@) == configuration_list(list@),
{
    let ghost all = configuration_list(list@);
    let mut out: Vec<(String, TurnConfiguration)> = Vec::new();
    let mut i: usize = 0;
    while i < list.len()
        invariant
            i <= list.len(),
            all == configuration_list(list@),
            configuration_list(out@) == all.subrange(0, i as int),
        decreases list.len() - i,
    {
        let copy = TurnConfiguration {
            model: list[i].1.model.clone(),
            reasoning_effort: list[i].1.reasoning_effort.clone(),
        };
        let ghost before = out@;
        out.push((list[i].0.clone(), copy));
        i = i + 1;
        proof {
            assert(configuration_list(out@) =~= configuration_list(before).push(all[i - 1]));
            assert(configuration_list(out@) =~= all.subrange(0, i as int));
        }
    }
    proof {
        assert(all.subrange(0, i as int) =~= all);
    }
    out
}

fn files_name(files: &Vec<RolloutFile>, path: &str) -> (r: bool)
    ensures
        r == names_path(file_list(files@), path@),
{
    let mut i: usize = 0;
    while i < files.len()
        invariant
            i <= files.len(),
            forall|j: int| 0 <= j < i ==> (#[trigger] file_list(files@)[j]).path != path@,
        decreases files.len() - i,
    {
        if str_eq(files[i].path.as_str(), path) {
            proof {
                assert(file_list(files@)[i as int].path == path@);
            }
            return true;
        }
        i = i + 1;
    }
    false
}

proof fn lemma_inactive_key(cache: Seq<(Seq<char>, CachedV)>, files: Seq<FileV>, key: Seq<char>)
    requires
        !names_path(files, key),
    ensures
        lookup(active_only(cache, files), key) is None,
        active_only(without_key(cache, key), files) == active_only(cache, files),
    decreases cache.len(),
{
    if cache.len() > 0 {
        let rest = cache.drop_last();
        lemma_inactive_key(rest, files, key);
        let after = active_only(cache, files);
        if names_path(files, cache.last().0) {
            assert(after.drop_last() =~= active_only(rest, files));
        }
        if cache.last().0 != key {
            let w = without_key(cache, key);
            assert(w.drop_last() =~= without_key(rest, key));
        }
    }
}

proof fn lemma_all_active(cache: Seq<(Seq<char>, CachedV)>, files: Seq<FileV>)
    requires
        forall|i: int| 0 <= i < cache.len() ==> names_path(files, (#[trigger] cache[i]).0),
    ensures
        active_only(cache, files) == cache,
    decreases cache.len(),
{
    if cache.len() > 0 {
        let rest = cache.drop_last();
        assert forall|i: int| 0 <= i < rest.len() implies names_path(
            files,
            (#[trigger] rest[i]).0,
        ) by {
            assert(names_path(files, cache[i].0));
        }
        lemma_all_active(rest, files);
        assert(names_path(files, cache[cache.len() - 1].0));
        assert(active_only(cache, files) =~= cache);
    }
}

impl RecentSessionEventCache {
    pub fn new() -> (r: RecentSessionEventCache)
        ensures
            r.rollouts.inv(),
            r.rollouts@ == Seq::<(Seq<char>, CachedV)>::empty(),
    {
        RecentSessionEventCache { rollouts: TextMap::new() }
    }

    /// Whether a file has to be read.
    pub fn needs_read(&self, session_id: &str, path: &str, signature: RolloutSignature) -> (r: bool)
        requires
            self.rollouts.inv(),
        ensures
            r == !is_cached(self.rollouts@, session_id@, path@, signature),
    {
        match self.rollouts.get(path) {
            Some(c) => !(str_eq(c.session_id.as_str(), session_id) && c.signature == signature),
            None => true,
        }
    }

    fn keep_active(&mut self, files: &Vec<RolloutFile>)
        requires
            old(self).rollouts.inv(),
        ensures
            final(self).rollouts.inv(),
            final(self).rollouts@ == active_only(old(self).rollouts@, file_list(files@)),
    {
        let ghost goal = active_only(self.rollouts@, file_list(files@));
        let mut i: usize = 0;
        while i < self.rollouts.len()
            invariant
                i <= self.rollouts@.len(),
                self.rollouts.inv(),
                active_only(self.rollouts@, file_list(files@)) == goal,
                forall|j: int|
                    0 <= j < i ==> names_path(
                        file_list(files@),
                        (#[trigger] self.rollouts@[j]).0,
                    ),
            decreases self.rollouts@.len() - i,
        {
            let path = self.rollouts.key_at(i).to_owned();
            if files_name(files, path.as_str()) {
                i = i + 1;
            } else {
                let ghost before = self.rollouts@;
                let _ = self.rollouts.remove(path.as_str());
                proof {
                    lemma_inactive_key(before, file_list(files@), path@);
                    lemma_removed_at(before, path@, i as int);
                    assert(self.rollouts@ == before.remove(i as int));
                    assert forall|j: int| 0 <= j < i implies names_path(
                        file_list(files@),
                        (#[trigger] self.rollouts@[j]).0,
                    ) by {
                        assert(before[j] == self.rollouts@[j]);
                    }
                }
            }
        }
        proof {
            lemma_all_active(self.rollouts@, file_list(files@));
        }
    }

    fn take(&mut self, file: &RolloutFile)
        requires
            old(self).rollouts.inv(),
        ensures
            final(self).rollouts.inv(),
            final(self).rollouts@ == cache_step(old(self).rollouts@, file@),
    {
        let path = file.path.as_str();
        let signature = match file.signature {
            None => {
                let _ = self.rollouts.remove(path);
                return ;
            },
            Some(s) => s,
        };
        if !self.needs_read(file.session_id.as_str(), path, signature) {
            return ;
        }
        match &file.contents {
            None => {
                let _ = self.rollouts.remove(path);
            },
            Some(text) => {
                let parsed = parse_rollout_events(text.as_str());
                self.rollouts.insert(
                    path,
                    CachedRolloutEvents {
                        session_id: file.session_id.clone(),
                        signature,
                        parsed,
                    },
                );
            },
        }
    }

    /// Takes in the recent files and says what their sessions are doing.
    pub fn refresh(&mut self, files: &Vec<RolloutFile>) -> (r: RecentSessionEvents)
        requires
            old(self).rollouts.inv(),
        ensures
            final(self).rollouts.inv(),
            r.inv(),
            (final(self).rollouts@, r.state()) == refreshed(
                active_only(old(self).rollouts@, file_list(files@)),
                file_list(files@),
                files.len() as int,
            ),
    {
        self.keep_active(files);
        let ghost start = self.rollouts@;
        let ghost all = file_list(files@);
        let mut events = RecentSessionEvents::new();
        let mut i: usize = 0;
        while i < files.len()
            invariant
                i <= files.len(),
                all == file_list(files@),
                self.rollouts.inv(),
                events.inv(),
                (self.rollouts@, events.state()) == refreshed(start, all, i as int),
            decreases files.len() - i,
        {
            let file = &files[i];
            proof {
                assert(all[i as int] == file@);
            }
            self.take(file);
            if file.signature.is_some() {
                if let Some(c) = self.rollouts.get(file.path.as_str()) {
                    if let Some(parsed) = &c.parsed {
                        events.add(file, parsed);
                    }
                }
            }
            i = i + 1;
        }
        events
    }
}

proof fn lemma_removed_at(cache: Seq<(Seq<char>, CachedV)>, key: Seq<char>, i: int)
    requires
        distinct(cache),
        0 <= i < cache.len(),
        cache[i].0 == key,
    ensures
        without_key(cache, key) == cache.remove(i),
{
    lemma_without_at(cache, key, i);
}

/// A file that has not changed is not read again: with the same signature the cache has it.
pub proof fn an_unchanged_file_is_cached(cache: Seq<(Seq<char>, CachedV)>, file: FileV)
    requires
        file.signature is Some,
        file.contents is Some,
    ensures
        is_cached(
            cache_step(cache, file),
            file.session_id,
            file.path,
            file.signature->0,
        ),
{
    if !is_cached(cache, file.session_id, file.path, file.signature->0) {
        set_then_look(
            cache,
            file.path,
            CachedV {
                session_id: file.session_id,
                signature: file.signature->0,
                parsed: events_of(file.contents->0),
            },
            file.path,
        );
    }
}

/// No two files have one path.
pub open spec fn paths_differ(files: Seq<FileV>) -> bool {
    forall|i: int, j: int|
        0 <= i < j < files.len() ==> (#[trigger] files[i]).path != (#[trigger] files[j]).path
}

/// The same files, found as they were. A file that could not be read before is not read now.
pub open spec fn found_again(files: Seq<FileV>, again: Seq<FileV>) -> bool {
    &&& again.len() == files.len()
    &&& forall|i: int|
        0 <= i < files.len() ==> (#[trigger] again[i]) == (FileV {
            contents: again[i].contents,
            ..files[i]
        }) && (files[i].contents is None ==> again[i].contents is None)
}

proof fn lemma_step_elsewhere(cache: Seq<(Seq<char>, CachedV)>, file: FileV, path: Seq<char>)
    requires
        path != file.path,
    ensures
        lookup(cache_step(cache, file), path) == lookup(cache, path),
{
    remove_then_look(cache, file.path, path);
    if let (Some(signature), Some(text)) = (file.signature, file.contents) {
        set_then_look(
            cache,
            file.path,
            CachedV { session_id: file.session_id, signature, parsed: events_of(text) },
            path,
        );
    }
}

proof fn lemma_entry_stays(
    start: Seq<(Seq<char>, CachedV)>,
    files: Seq<FileV>,
    i: int,
    n: int,
)
    requires
        paths_differ(files),
        0 <= i < n <= files.len(),
    ensures
        lookup(refreshed(start, files, n).0, files[i].path) == lookup(
            refreshed(start, files, i + 1).0,
            files[i].path,
        ),
    decreases n - i,
{
    if i + 1 < n {
        lemma_entry_stays(start, files, i, n - 1);
        assert(files[i].path != files[n - 1].path);
        lemma_step_elsewhere(refreshed(start, files, n - 1).0, files[n - 1], files[i].path);
    }
}

proof fn lemma_keys_are_named(start: Seq<(Seq<char>, CachedV)>, files: Seq<FileV>, n: int)
    requires
        0 <= n <= files.len(),
        forall|key: Seq<char>| lookup(start, key) is Some ==> #[trigger] names_path(files, key),
    ensures
        forall|key: Seq<char>|
            lookup(refreshed(start, files, n).0, key) is Some ==> #[trigger] names_path(files, key),
    decreases n,
{
    if n > 0 {
        lemma_keys_are_named(start, files, n - 1);
        let before = refreshed(start, files, n - 1).0;
        assert forall|key: Seq<char>|
            lookup(refreshed(start, files, n).0, key) is Some implies #[trigger] names_path(
            files,
            key,
        ) by {
            if key != files[n - 1].path {
                lemma_step_elsewhere(before, files[n - 1], key);
            }
        }
    }
}

proof fn lemma_active_keys(cache: Seq<(Seq<char>, CachedV)>, files: Seq<FileV>)
    ensures
        forall|key: Seq<char>|
            lookup(active_only(cache, files), key) is Some ==> #[trigger] names_path(files, key),
{
    assert forall|key: Seq<char>|
        lookup(active_only(cache, files), key) is Some implies #[trigger] names_path(files, key) by {
        if !names_path(files, key) {
            lemma_inactive_key(cache, files, key);
        }
    }
}

proof fn lemma_same_session(events: SessionEventsV, file: FileV, again: FileV, parsed: ParsedV)
    requires
        again == (FileV { contents: again.contents, ..file }),
    ensures
        add_session(events, again, parsed) == add_session(events, file, parsed),
{
    let a = add_session(events, again, parsed);
    let b = add_session(events, file, parsed);
    assert(a.pending =~= b.pending);
    assert(a.started =~= b.started);
    assert(a.aborted =~= b.aborted);
    assert(a.completed =~= b.completed);
}

proof fn lemma_second_pass(
    start: Seq<(Seq<char>, CachedV)>,
    files: Seq<FileV>,
    again: Seq<FileV>,
    n: int,
)
    requires
        paths_differ(files),
        found_again(files, again),
        0 <= n <= files.len(),
    ensures
        ({
            let first = refreshed(start, files, files.len() as int).0;
            refreshed(first, again, n) == (first, refreshed(start, files, n).1)
        }),
    decreases n,
{
    if n > 0 {
        lemma_second_pass(start, files, again, n - 1);
        let first = refreshed(start, files, files.len() as int).0;
        let before = refreshed(start, files, n - 1).0;
        let after = refreshed(start, files, n).0;
        let file = files[n - 1];
        let now = again[n - 1];
        lemma_entry_stays(start, files, n - 1, files.len() as int);
        remove_then_look(before, file.path, file.path);
        remove_then_look(first, file.path, file.path);
        if file.signature is Some && file.contents is Some {
            an_unchanged_file_is_cached(before, file);
        }
        assert(cache_step(first, now) == first);
        if let Some(parsed) = known_events(after, file) {
            lemma_same_session(refreshed(start, files, n - 1).1, file, now, parsed);
        }
    }
}

/// A second refresh over files that have not changed tells the same, leaves the cache as it is, and
/// every file that was read the first time need not be read again.
pub proof fn a_second_refresh_reads_nothing(
    cache: Seq<(Seq<char>, CachedV)>,
    files: Seq<FileV>,
    again: Seq<FileV>,
)
    requires
        paths_differ(files),
        found_again(files, again),
    ensures
        ({
            let first = refreshed(active_only(cache, files), files, files.len() as int);
            &&& refreshed(active_only(first.0, again), again, again.len() as int) == first
            &&& forall|i: int|
                0 <= i < files.len() && (#[trigger] files[i]).signature is Some
                    && files[i].contents is Some ==> is_cached(
                    first.0,
                    files[i].session_id,
                    files[i].path,
                    files[i].signature->0,
                )
        }),
{
    let start = active_only(cache, files);
    let n = files.len() as int;
    let first = refreshed(start, files, n);
    lemma_active_keys(cache, files);
    lemma_keys_are_named(start, files, n);
    assert forall|i: int| 0 <= i < first.0.len() implies names_path(
        again,
        (#[trigger] first.0[i]).0,
    ) by {
        lookup_place(first.0, first.0[i].0);
        assert(names_path(files, first.0[i].0));
        let j = choose|j: int| 0 <= j < files.len() && (#[trigger] files[j]).path == first.0[i].0;
        assert(again[j].path == first.0[i].0);
    }
    lemma_all_active(first.0, again);
    lemma_second_pass(start, files, again, n);
    assert forall|i: int|
        0 <= i < files.len() && (#[trigger] files[i]).signature is Some && files[i].contents
            is Some implies is_cached(
        first.0,
        files[i].session_id,
        files[i].path,
        files[i].signature->0,
    ) by {
        lemma_entry_stays(start, files, i, n);
        an_unchanged_file_is_cached(refreshed(start, files, i).0, files[i]);
    }
}

/// The records of lines come one after the other: those of two halves stand behind each other, a line
/// that is a document gives that document, and any other line gives nothing.
pub proof fn records_come_line_by_line(first: Seq<Seq<char>>, second: Seq<Seq<char>>, line: Seq<char>)
    ensures
        records_in(first + second) == records_in(first) + records_in(second),
        records_in(seq![line]) == match text_parsed(line) {
            Ok(record) => seq![record],
            Err(_) => Seq::empty(),
        },
    decreases second.len(),
{
    let none = Seq::<JsonV>::empty();
    let one = seq![line];
    assert(one.drop_last() =~= Seq::<Seq<char>>::empty());
    assert(records_in(one.drop_last()) =~= none);
    if let Ok(record) = text_parsed(line) {
        assert(none.push(record) =~= seq![record]);
    }
    if second.len() == 0 {
        assert(first + second =~= first);
        assert(records_in(first) + none =~= records_in(first));
    } else {
        let before = second.drop_last();
        records_come_line_by_line(first, before, line);
        assert((first + second).drop_last() =~= first + before);
        assert((first + second).last() == second.last());
        if let Ok(record) = text_parsed(second.last()) {
            assert((records_in(first) + records_in(before)).push(record) =~= records_in(first) + (
            records_in(before).push(record)));
        }
    }
}

/// The turn's last context among the first records that names a model or an effort.
pub open spec fn configures(record: JsonV, turn: Seq<char>, model: Seq<char>, effort: Seq<char>) -> bool {
    &&& names_context(record, turn)
    &&& model == trim(
        match record.get2("payload"@, "model"@) {
            Some(JsonV::Str(m)) => m,
            _ => Seq::empty(),
        },
    )
    &&& effort == trim(
        match first_there(
            record.get2("payload"@, "effort"@),
            record.get2("payload"@, "reasoning_effort"@),
            record.get2("payload"@, "reasoningEffort"@),
        ) {
            Some(JsonV::Str(e)) => e,
            _ => Seq::empty(),
        },
    )
    &&& model.len() > 0 || effort.len() > 0
}

pub open spec fn first_there(a: Option<JsonV>, b: Option<JsonV>, c: Option<JsonV>) -> Option<JsonV> {
    if a is Some {
        a
    } else if b is Some {
        b
    } else {
        c
    }
}

/// A context that names a model or an effort sets the configuration of its turn; any other record, and
/// any other turn, leaves a configuration as it is.
pub proof fn a_context_configures_its_turn(
    records: Seq<JsonV>,
    record: JsonV,
    turn: Seq<char>,
    model: Seq<char>,
    effort: Seq<char>,
)
    requires
        rollout_events(records.push(record)) is Some,
    ensures
        rollout_events(records) is Some,
        ({
            let before = rollout_events(records)->0.configurations;
            let after = rollout_events(records.push(record))->0.configurations;
            &&& configures(record, turn, model, effort) ==> lookup(after, turn) == Some(
                (model, effort),
            )
            &&& (forall|m: Seq<char>, e: Seq<char>| !#[trigger] configures(record, turn, m, e))
                ==> lookup(after, turn) == lookup(before, turn)
        }),
{
    lemma_record_kinds();
    lemma_same_beginning(records, record, records.len() as int);
    let state = rollout_state(records, records.len() as int)->0;
    if let Some(payload) = record.get("payload"@) {
        if let Some(named) = payload.get_str("turn_id"@) {
            let m = trim(payload.str_or_empty("model"@));
            let e = turn_effort(payload);
            set_then_look(state.configurations, named, (m, e), turn);
            if record.get("type"@) == Some(JsonV::Str("turn_context"@)) && (m.len() > 0 || e.len()
                > 0) {
                assert(configures(record, named, m, e));
            }
        }
    }
}

/// The sessions of the files differ.
pub open spec fn sessions_differ(files: Seq<FileV>) -> bool {
    forall|i: int, j: int|
        0 <= i < j < files.len() ==> (#[trigger] files[i]).session_id != (
        #[trigger] files[j]).session_id
}

/// What is told of a session among the events of all.
pub open spec fn tells_session(events: SessionEventsV, file: FileV, parsed: ParsedV) -> bool {
    &&& lookup(events.statuses, file.session_id) == Some(parsed.status)
    &&& lookup(events.configurations, file.session_id) == Some(parsed.configurations)
    &&& forall|k: int|
        0 <= k < parsed.pending.len() ==> events.pending.contains(
            (file.session_id, #[trigger] parsed.pending[k], file.age_ms),
        )
    &&& forall|k: int|
        0 <= k < parsed.started.len() ==> events.started.contains(
            (file.session_id, #[trigger] parsed.started[k]),
        )
    &&& forall|k: int|
        0 <= k < parsed.aborted.len() ==> events.aborted.contains(
            (file.session_id, #[trigger] parsed.aborted[k]),
        )
    &&& forall|k: int|
        0 <= k < parsed.completed.len() ==> events.completed.contains(
            (file.session_id, #[trigger] parsed.completed[k], file.imported),
        )
}

proof fn lemma_added_is_told(events: SessionEventsV, file: FileV, parsed: ParsedV)
    ensures
        tells_session(add_session(events, file, parsed), file, parsed),
{
    let after = add_session(events, file, parsed);
    set_then_look(events.statuses, file.session_id, parsed.status, file.session_id);
    set_then_look(
        events.configurations,
        file.session_id,
        parsed.configurations,
        file.session_id,
    );
    assert forall|k: int| 0 <= k < parsed.pending.len() implies after.pending.contains(
        (file.session_id, #[trigger] parsed.pending[k], file.age_ms),
    ) by {
        assert(after.pending[events.pending.len() + k] == (
            file.session_id,
            parsed.pending[k],
            file.age_ms,
        ));
    }
    assert forall|k: int| 0 <= k < parsed.started.len() implies after.started.contains(
        (file.session_id, #[trigger] parsed.started[k]),
    ) by {
        assert(after.started[events.started.len() + k] == (file.session_id, parsed.started[k]));
    }
    assert forall|k: int| 0 <= k < parsed.aborted.len() implies after.aborted.contains(
        (file.session_id, #[trigger] parsed.aborted[k]),
    ) by {
        assert(after.aborted[events.aborted.len() + k] == (file.session_id, parsed.aborted[k]));
    }
    assert forall|k: int| 0 <= k < parsed.completed.len() implies after.completed.contains(
        (file.session_id, #[trigger] parsed.completed[k], file.imported),
    ) by {
        assert(after.completed[events.completed.len() + k] == (
            file.session_id,
            parsed.completed[k],
            file.imported,
        ));
    }
}

proof fn lemma_told_stays(
    events: SessionEventsV,
    other: FileV,
    more: ParsedV,
    file: FileV,
    parsed: ParsedV,
)
    requires
        tells_session(events, file, parsed),
        other.session_id != file.session_id,
    ensures
        tells_session(add_session(events, other, more), file, parsed),
{
    let after = add_session(events, other, more);
    set_then_look(events.statuses, other.session_id, more.status, file.session_id);
    set_then_look(
        events.configurations,
        other.session_id,
        more.configurations,
        file.session_id,
    );
    assert forall|k: int| 0 <= k < parsed.pending.len() implies after.pending.contains(
        (file.session_id, #[trigger] parsed.pending[k], file.age_ms),
    ) by {
        let x = (file.session_id, parsed.pending[k], file.age_ms);
        let q = choose|q: int| 0 <= q < events.pending.len() && events.pending[q] == x;
        assert(after.pending[q] == x);
    }
    assert forall|k: int| 0 <= k < parsed.started.len() implies after.started.contains(
        (file.session_id, #[trigger] parsed.started[k]),
    ) by {
        let x = (file.session_id, parsed.started[k]);
        let q = choose|q: int| 0 <= q < events.started.len() && events.started[q] == x;
        assert(after.started[q] == x);
    }
    assert forall|k: int| 0 <= k < parsed.aborted.len() implies after.aborted.contains(
        (file.session_id, #[trigger] parsed.aborted[k]),
    ) by {
        let x = (file.session_id, parsed.aborted[k]);
        let q = choose|q: int| 0 <= q < events.aborted.len() && events.aborted[q] == x;
        assert(after.aborted[q] == x);
    }
    assert forall|k: int| 0 <= k < parsed.completed.len() implies after.completed.contains(
        (file.session_id, #[trigger] parsed.completed[k], file.imported),
    ) by {
        let x = (file.session_id, parsed.completed[k], file.imported);
        let q = choose|q: int| 0 <= q < events.completed.len() && events.completed[q] == x;
        assert(after.completed[q] == x);
    }
}

/// A session whose file was read is told as its text has it. A file that has changed since it was
/// last read, or was never read, is read; one that has not is told as it was.
pub proof fn every_session_is_told(
    cache: Seq<(Seq<char>, CachedV)>,
    files: Seq<FileV>,
    n: int,
    i: int,
    parsed: ParsedV,
)
    requires
        0 <= i < n <= files.len(),
        paths_differ(files),
        sessions_differ(files),
        files[i].signature is Some,
        match lookup(cache, files[i].path) {
            Some(known) => if known.session_id == files[i].session_id && Some(known.signature)
                == files[i].signature {
                known.parsed == Some(parsed)
            } else {
                files[i].contents matches Some(text) && events_of(text) == Some(parsed)
            },
            None => files[i].contents matches Some(text) && events_of(text) == Some(parsed),
        },
    ensures
        tells_session(refreshed(cache, files, n).1, files[i], parsed),
    decreases n,
{
    let (before, events) = refreshed(cache, files, n - 1);
    let file = files[n - 1];
    let after = cache_step(before, file);
    if i < n - 1 {
        every_session_is_told(cache, files, n - 1, i, parsed);
        assert(files[i].session_id != files[n - 1].session_id);
        if let Some(more) = known_events(after, file) {
            lemma_told_stays(events, file, more, files[i], parsed);
        }
    } else {
        lemma_cache_elsewhere(cache, files, n - 1, file.path);
        if let Some(text) = file.contents {
            set_then_look(
                before,
                file.path,
                CachedV {
                    session_id: file.session_id,
                    signature: file.signature->0,
                    parsed: events_of(text),
                },
                file.path,
            );
        }
        assert(known_events(after, file) == Some(parsed));
        lemma_added_is_told(events, file, parsed);
    }
}

proof fn lemma_cache_elsewhere(
    cache: Seq<(Seq<char>, CachedV)>,
    files: Seq<FileV>,
    n: int,
    path: Seq<char>,
)
    requires
        0 <= n <= files.len(),
        forall|k: int| 0 <= k < n ==> (#[trigger] files[k]).path != path,
    ensures
        lookup(refreshed(cache, files, n).0, path) == lookup(cache, path),
    decreases n,
{
    if n > 0 {
        lemma_cache_elsewhere(cache, files, n - 1, path);
        assert(files[n - 1].path != path);
        lemma_step_elsewhere(refreshed(cache, files, n - 1).0, files[n - 1], path);
    }
}

} // verus!
