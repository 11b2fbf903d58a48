use codey::message_delete::{
    add_database, check_delete_request, delete_statement, delete_turns_from_rollout,
    find_message_targets, message_table_names, split_lines, MessageDeleteResult, TableColumns,
};
use codey::pending_approval::{
    parse_rollout_events, ParsedRolloutEvents, RecentSessionEventCache, RolloutFile,
    RolloutSignature, SessionLifecycleStatus, TurnConfiguration,
};

fn parsed(contents: &str) -> ParsedRolloutEvents {
    parse_rollout_events(contents).unwrap()
}

fn completed(contents: &str) -> Vec<(String, u128, Option<i64>, Option<String>)> {
    parsed(contents)
        .completed_turns
        .into_iter()
        .map(|turn| (turn.turn_id, turn.duration_ms, turn.completed_at, turn.error))
        .collect()
}

#[test]
fn identifies_subagent_rollouts_without_hiding_root_sessions() {
    let root = r#"{"type":"session_meta","payload":{"id":"root","thread_source":"codey"}}"#;
    let child = r#"{"type":"session_meta","payload":{"id":"child","thread_source":"subagent","source":{"subagent":{"thread_spawn":{"parent_thread_id":"root","depth":1}}}}}"#;
    let legacy_child =
        r#"{"type":"session_meta","payload":{"id":"child","parent_thread_id":"root"}}"#;
    assert!(parse_rollout_events(root).is_some());
    assert!(parse_rollout_events(child).is_none());
    assert!(parse_rollout_events(legacy_child).is_none());
}

#[test]
fn finds_only_unresolved_waiting_calls() {
    let rollout = r#"
{"type":"turn_context","payload":{"turn_id":"turn-1"}}
{"type":"response_item","payload":{"type":"function_call","name":"request_permissions","call_id":"pending"}}
{"type":"response_item","payload":{"type":"function_call","name":"request_user_input","call_id":"resolved","internal_chat_message_metadata_passthrough":{"turn_id":"turn-2"}}}
{"type":"response_item","payload":{"type":"function_call_output","call_id":"resolved"}}
{"type":"response_item","payload":{"type":"function_call","name":"exec_command","call_id":"not-waiting"}}
{"type":"turn_context","payload":{"turn_id":"turn-3"}}
{"type":"response_item","payload":{"type":"function_call","name":"request_user_input","call_id":"aborted"}}
{"type":"event_msg","payload":{"type":"turn_aborted","turn_id":"turn-3"}}
"#;
    assert_eq!(
        parsed(rollout).pending_approvals,
        vec![("turn-1".to_string(), "pending".to_string())]
    );
}

#[test]
fn finds_authoritative_task_lifecycle_events() {
    let rollout = r#"
{"type":"event_msg","payload":{"type":"task_started","turn_id":"turn-1"}}
{"type":"event_msg","payload":{"type":"task_complete","turn_id":"turn-1","duration_ms":1234,"completed_at":200}}
{"type":"event_msg","payload":{"type":"task_started","turn_id":"turn-error"}}
{"type":"event_msg","payload":{"type":"task_complete","turn_id":"turn-error","duration_ms":500,"completed_at":300,"error":{"message":"upstream failed"}}}
{"type":"event_msg","payload":{"type":"task_started","turn_id":""}}
{"type":"event_msg","payload":{"type":"turn_aborted","turn_id":"turn-2","duration_ms":500}}
{"type":"event_msg","payload":{"type":"task_complete","turn_id":"","duration_ms":10}}
"#;
    assert_eq!(parsed(rollout).started_turns, vec!["turn-1", "turn-error"]);
    assert_eq!(parsed(rollout).aborted_turns, vec!["turn-2"]);
    assert_eq!(
        completed(rollout),
        vec![
            ("turn-1".to_string(), 1234, Some(200), None),
            (
                "turn-error".to_string(),
                500,
                Some(300),
                Some("upstream failed".to_string())
            )
        ]
    );
}

#[test]
fn captures_model_and_reasoning_effort_for_each_turn() {
    let rollout = r#"
{"type":"turn_context","payload":{"turn_id":"turn-1","model":"gpt-5.6-luna","effort":"xhigh"}}
{"type":"turn_context","payload":{"turn_id":"turn-2","model":"gpt-5.4","effort":"low"}}
"#;
    let configurations = parsed(rollout).turn_configurations;
    let of = |turn: &str| {
        configurations
            .iter()
            .find(|(id, _)| id == turn)
            .map(|(_, configuration)| configuration)
    };
    assert_eq!(
        of("turn-1"),
        Some(&TurnConfiguration {
            model: "gpt-5.6-luna".to_string(),
            reasoning_effort: "xhigh".to_string(),
        })
    );
    assert_eq!(
        of("turn-2"),
        Some(&TurnConfiguration {
            model: "gpt-5.4".to_string(),
            reasoning_effort: "low".to_string(),
        })
    );
}

#[test]
fn derives_authoritative_session_lifecycle_status() {
    let running = r#"
{"type":"event_msg","payload":{"type":"task_started","turn_id":"turn-1"}}
"#;
    assert_eq!(parsed(running).status, SessionLifecycleStatus::Running);
    let waiting = r#"
{"type":"event_msg","payload":{"type":"task_started","turn_id":"turn-1"}}
{"type":"turn_context","payload":{"turn_id":"turn-1"}}
{"type":"response_item","payload":{"type":"function_call","name":"request_user_input","call_id":"approval-1"}}
"#;
    assert_eq!(parsed(waiting).status, SessionLifecycleStatus::Waiting);
    let completed = r#"
{"type":"event_msg","payload":{"type":"task_started","turn_id":"turn-1"}}
{"type":"event_msg","payload":{"type":"task_complete","turn_id":"turn-1"}}
"#;
    assert_eq!(parsed(completed).status, SessionLifecycleStatus::Idle);
    let failed = r#"
{"type":"event_msg","payload":{"type":"task_started","turn_id":"turn-1"}}
{"type":"event_msg","payload":{"type":"task_complete","turn_id":"turn-1","error":{"message":"boom"}}}
"#;
    assert_eq!(parsed(failed).status, SessionLifecycleStatus::Error);
}

#[test]
fn a_new_successful_turn_clears_an_older_error_status() {
    let rollout = r#"
{"type":"event_msg","payload":{"type":"task_started","turn_id":"turn-1"}}
{"type":"event_msg","payload":{"type":"task_complete","turn_id":"turn-1","error":{"message":"boom"}}}
{"type":"event_msg","payload":{"type":"task_started","turn_id":"turn-2"}}
{"type":"event_msg","payload":{"type":"task_complete","turn_id":"turn-2"}}
"#;
    assert_eq!(parsed(rollout).status, SessionLifecycleStatus::Idle);
}

#[test]
fn errors_without_words_are_told_as_documents() {
    let rollout = "{\"type\":\"event_msg\",\"payload\":{\"type\":\"task_complete\",\"turn_id\":\"t\",\"error\":{\"code\":7}}}\r\nbroken";
    assert_eq!(completed(rollout)[0].3.as_deref(), Some(r#"{"code":7}"#));
    let plain = r#"{"type":"event_msg","payload":{"type":"task_complete","turn_id":" t ","error":" why "}}"#;
    assert_eq!(completed(plain)[0].3.as_deref(), Some("why"));
    assert_eq!(completed(plain)[0].0, "t");
    let null = r#"{"type":"event_msg","payload":{"type":"task_complete","turn_id":"t","error":null}}"#;
    assert_eq!(completed(null)[0].3, None);
}

fn file(contents: Option<&str>, len: u64) -> RolloutFile {
    RolloutFile {
        session_id: "thread-1".to_string(),
        path: "rollout-thread-1.jsonl".to_string(),
        signature: Some(RolloutSignature { len, modified: Some(len as u128) }),
        contents: contents.map(|text| text.to_string()),
        age_ms: 5,
        imported: false,
    }
}

#[test]
fn unchanged_rollouts_reuse_cached_lifecycle_events() {
    let started = r#"{"type":"event_msg","payload":{"type":"task_started","turn_id":"turn-1"}}"#;
    let mut cache = RecentSessionEventCache::new();
    let signature = RolloutSignature { len: 1, modified: Some(1) };
    assert!(cache.needs_read("thread-1", "rollout-thread-1.jsonl", signature));
    let first = cache.refresh(&vec![file(Some(started), 1)]);
    assert!(!cache.needs_read("thread-1", "rollout-thread-1.jsonl", signature));
    let second = cache.refresh(&vec![file(None, 1)]);
    assert_eq!(
        first.session_statuses.get("thread-1"),
        Some(&SessionLifecycleStatus::Running)
    );
    assert_eq!(second.started_turns, first.started_turns);
    let ended = format!(
        "{started}{}\n",
        "\n{\"type\":\"event_msg\",\"payload\":{\"type\":\"task_complete\",\"turn_id\":\"turn-1\"}}"
    );
    let updated = cache.refresh(&vec![file(Some(&ended), 2)]);
    assert_eq!(
        updated.session_statuses.get("thread-1"),
        Some(&SessionLifecycleStatus::Idle)
    );
    assert_eq!(updated.completed_turns.len(), 1);
    let unreadable = cache.refresh(&vec![file(None, 3)]);
    assert!(unreadable.session_statuses.get("thread-1").is_none());
    assert_eq!(cache.rollouts.len(), 0);
}

#[test]
fn rollouts_that_are_no_longer_listed_are_forgotten() {
    let waiting = r#"{"type":"response_item","payload":{"type":"function_call","name":"request_user_input","call_id":"c","internal_chat_message_metadata_passthrough":{"turn_id":"t"}}}"#;
    let mut cache = RecentSessionEventCache::new();
    let events = cache.refresh(&vec![file(Some(waiting), 1)]);
    assert_eq!(events.pending_approvals[0].waiting_id, "c");
    assert_eq!(events.pending_approvals[0].turn_id, "t");
    assert_eq!(events.pending_approvals[0].duration_ms, 5);
    assert_eq!(cache.rollouts.len(), 1);
    let none = cache.refresh(&vec![]);
    assert!(none.pending_approvals.is_empty());
    assert_eq!(cache.rollouts.len(), 0);
}

#[test]
fn deletes_a_current_codex_turn_from_its_rollout() {
    let original = concat_lines(&[
        r#"{"type":"session_meta","payload":{"id":"s1"}}"#,
        r#"{"type":"event_msg","payload":{"type":"task_started","turn_id":"t1"}}"#,
        r#"{"type":"response_item","payload":{"type":"message","role":"user"}}"#,
        r#"{"type":"event_msg","payload":{"type":"task_complete","turn_id":"t1"}}"#,
        r#"{"type":"compacted","payload":{"replacement_history":[{"type":"message","role":"user","content":[]},{"type":"compaction","id":"cmp_1","encrypted_content":"old"}]}}"#,
        r#"{"type":"event_msg","payload":{"type":"task_started","turn_id":"t2"}}"#,
        r#"{"type":"response_item","payload":{"type":"message","role":"assistant"}}"#,
        r#"{"type":"event_msg","payload":{"type":"task_complete","turn_id":"t2"}}"#,
    ]);
    assert_eq!(
        check_delete_request("local:s1", &vec!["t1".to_string()]).unwrap(),
        "s1"
    );
    let edit = delete_turns_from_rollout(&original, &vec!["t1".to_string()]).unwrap();
    assert_eq!(edit.deleted, 1);
    let remaining = format!(
        "{}{}",
        edit.text,
        "{\"type\":\"event_msg\",\"payload\":{\"type\":\"task_started\",\"turn_id\":\"t3\"}}\n"
    );
    assert!(remaining.contains("session_meta"));
    assert!(!remaining.contains("t1"));
    assert!(!remaining.contains("cmp_1"));
    assert!(remaining.contains("t2"));
    assert!(remaining.contains("t3"));
}

fn concat_lines(lines: &[&str]) -> String {
    lines.iter().map(|line| format!("{line}\n")).collect()
}

#[test]
fn reapplies_hard_delete_after_a_loaded_thread_flushes_stale_history() {
    let deleted_turn = concat_lines(&[
        r#"{"type":"event_msg","payload":{"type":"task_started","turn_id":"t1"}}"#,
        r#"{"type":"response_item","payload":{"type":"message","role":"user","content":[{"type":"input_text","text":"remove permanently"}]}}"#,
        r#"{"type":"event_msg","payload":{"type":"task_complete","turn_id":"t1"}}"#,
    ]);
    let retained_turn = concat_lines(&[
        r#"{"type":"event_msg","payload":{"type":"task_started","turn_id":"t2"}}"#,
        r#"{"type":"event_msg","payload":{"type":"task_complete","turn_id":"t2"}}"#,
    ]);
    let head = concat_lines(&[r#"{"type":"session_meta","payload":{"id":"s1"}}"#]);
    let ids = vec!["t1".to_string()];
    let first = delete_turns_from_rollout(&format!("{head}{deleted_turn}{retained_turn}"), &ids)
        .unwrap();
    assert_eq!(first.deleted, 1);
    assert_eq!(first.text, format!("{head}{retained_turn}"));
    let flushed = format!("{}{deleted_turn}", first.text);
    let second = delete_turns_from_rollout(&flushed, &ids).unwrap();
    assert_eq!(second.deleted, 1);
    assert!(!second.text.contains("t1"));
    assert!(!second.text.contains("remove permanently"));
    assert!(second.text.contains("t2"));
    assert!(delete_turns_from_rollout(&second.text, &ids).is_none());
}

#[test]
fn a_rollout_keeps_its_line_ends() {
    let lines = split_lines("a\r\nb\n\nc");
    assert_eq!(lines, ["a\r\n", "b\n", "\n", "c"]);
    assert!(split_lines("").is_empty());
    let text = concat_lines(&[
        r#"{"type":"event_msg","payload":{"type":"task_started","turn_id":"x"}}"#,
        "noise",
        r#"{"type":"event_msg","payload":{"type":"task_started","turn_id":"y"}}"#,
    ]) + "tail\r";
    let edit =
        delete_turns_from_rollout(&text, &vec!["x".to_string(), "z".to_string()]).unwrap();
    assert_eq!(edit.deleted, 1);
    assert!(edit.text.ends_with("tail\r"));
    assert!(!edit.text.contains("noise"));
}

#[test]
fn deletes_messages_transactionally_without_a_backup() {
    let columns = |names: &[&str]| names.iter().map(|name| name.to_string()).collect::<Vec<_>>();
    let tables = message_table_names()
        .into_iter()
        .map(|table| TableColumns {
            columns: if table == "messages" {
                columns(&["id", "session_id", "body"])
            } else {
                vec![]
            },
            table,
        })
        .collect();
    let targets = find_message_targets(&tables).unwrap();
    assert_eq!(targets.len(), 1);
    let connection = rusqlite::Connection::open_in_memory().unwrap();
    connection
        .execute(
            "CREATE TABLE messages (id TEXT PRIMARY KEY, session_id TEXT NOT NULL, body TEXT NOT NULL)",
            [],
        )
        .unwrap();
    connection
        .execute(
            "INSERT INTO messages (id, session_id, body) VALUES ('m1', 's1', 'one'), ('m2', 's1', 'two')",
            [],
        )
        .unwrap();
    let session = check_delete_request("s1", &vec!["m1".to_string()]).unwrap();
    let sql = delete_statement(&targets[0], 1);
    let deleted = connection
        .execute(&sql, rusqlite::params_from_iter(["m1".to_string(), session].iter()))
        .unwrap();
    let mut result = MessageDeleteResult { deleted: 0, unsupported_databases: vec![] };
    add_database(&mut result, "state_5.sqlite", Some(deleted));
    assert_eq!(result.deleted, 1);
    let remaining: i64 = connection
        .query_row("SELECT COUNT(*) FROM messages", [], |row| row.get(0))
        .unwrap();
    assert_eq!(remaining, 1);
}

#[test]
fn delete_requests_and_statements() {
    let ids = vec!["m".to_string()];
    assert_eq!(
        check_delete_request("  ", &ids).unwrap_err(),
        "session_id 和 message_ids 不能为空"
    );
    assert!(check_delete_request("s", &vec![]).is_err());
    assert_eq!(check_delete_request("local: s ", &ids).unwrap(), "s");
    let tables = vec![
        TableColumns {
            table: "thread_items".to_string(),
            columns: vec!["thread_id".to_string(), "item_id".to_string(), "id".to_string()],
        },
        TableColumns { table: "items".to_string(), columns: vec!["id".to_string()] },
    ];
    let targets = find_message_targets(&tables).unwrap();
    assert_eq!(targets.len(), 1);
    assert_eq!(
        delete_statement(&targets[0], 3),
        "DELETE FROM thread_items WHERE item_id IN (?,?,?) AND thread_id = ?"
    );
    assert!(find_message_targets(&vec![]).is_none());
    let mut result = MessageDeleteResult { deleted: 2, unsupported_databases: vec![] };
    add_database(&mut result, "a.sqlite", None);
    add_database(&mut result, "b.sqlite", Some(3));
    assert_eq!(result.deleted, 5);
    assert_eq!(result.unsupported_databases, ["a.sqlite"]);
}
