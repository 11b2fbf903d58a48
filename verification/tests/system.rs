use std::collections::HashSet;

use codey::maintenance_lock::{
    lock_directories, process_is_running, recover_stale_locks, LockState,
};
use codey::model_id::{dedupe_preserving_first, equal, historical_source, key, model_alias, parse_alias};
use codey::overlay_recovery::{encoded_script, parse_result, recovery_script};
use codey::process_cleanup::{
    cleanup_step, process_ids_with_descendants_from_identities, unix_codey_root_process_ids,
    windows_cleanup_targets, windows_codey_root_process_ids, CleanupStep, WindowsProcessInfo,
};
use codey::process_tree::{
    command_has_argument, command_uses_path, identities_for_process_ids, matching_process_ids,
    parse_unix_process_snapshot, process_ids_with_descendants, signal_process_group,
    UnixProcessInfo,
};
use codey::provider_models::{
    endpoints_of_url, judge_models_answer, model_endpoints, model_ids, plan_models_request,
    ModelsStep,
};
use codey::textmap::{TextBox, TextMap};
use codey::urls::UrlParts;

#[test]
fn model_ids_are_case_insensitive_but_keep_first_spelling() {
    assert!(equal(" Provider-A ", "provider-a"));
    assert_eq!(key(" Provider-A "), "provider-a");
    let models: Vec<String> = [" Provider-A ", "provider-a", "Provider-B"]
        .iter()
        .map(|m| m.to_string())
        .collect();
    assert_eq!(dedupe_preserving_first(&models), ["Provider-A", "Provider-B"]);
}

#[test]
fn aliases_split_on_the_first_slash_so_upstream_models_may_contain_slashes() {
    let alias = model_alias("my route", "org/model-v1");
    assert_eq!(alias, "my%20route/org/model-v1");
    let parsed = parse_alias(&alias).unwrap();
    assert_eq!(parsed.provider_key, "my%20route");
    assert_eq!(parsed.upstream_model, "org/model-v1");
    assert!(parse_alias("provider/").is_none());
    assert!(parse_alias("/model").is_none());
    assert!(parse_alias("plain-model").is_none());
}

#[test]
fn historical_selectors_require_a_recorded_alias() {
    let mut aliases: TextMap<TextBox> = TextMap::new();
    aliases.insert(
        "old%2froute/vendor/model",
        TextBox { text: "vendor/model".to_string() },
    );
    for (input, expected) in [
        (" Old%2FRoute/vendor/model ", Some("vendor/model")),
        ("CoDeY/vendor/model", None),
        ("vendor/model", None),
        ("unknown/vendor/model", None),
        ("codey/", None),
        ("路由/model", None),
    ] {
        assert_eq!(historical_source(input, &aliases), expected, "{input}");
    }
}

#[test]
fn unix_root_filter_requires_the_current_executable_path() {
    let processes = parse_unix_process_snapshot(
        b"100 1 100 Thu Jul 23 19:23:12 2026 /Applications/Codey.app/Contents/MacOS/codey\n\
          200 1 200 Thu Jul 23 19:23:13 2026 /tmp/other/codey\n\
          300 1 300 Thu Jul 23 19:23:14 2026 /Applications/Codey.app/Contents/MacOS/codey --watch\n",
    );
    let paths = vec!["/Applications/Codey.app/Contents/MacOS/codey".to_string()];
    assert_eq!(
        unix_codey_root_process_ids(&processes, &paths, 100),
        HashSet::from([300])
    );
}

#[test]
fn fixed_cleanup_identities_never_adopt_a_new_same_path_process() {
    let initial = parse_unix_process_snapshot(
        b"100 1 100 Thu Jul 23 19:23:12 2026 /Applications/Codey.app/Contents/MacOS/codey\n",
    );
    let identities = identities_for_process_ids(&initial, &HashSet::from([100]));
    let later = parse_unix_process_snapshot(
        b"100 1 100 Thu Jul 23 19:23:12 2026 /Applications/Codey.app/Contents/MacOS/codey\n\
          200 1 200 Thu Jul 23 19:23:13 2026 /Applications/Codey.app/Contents/MacOS/codey\n",
    );
    assert_eq!(matching_process_ids(&later, &identities), HashSet::from([100]));
}

#[test]
fn descendant_filter_freezes_the_initial_tree_and_rejects_stale_parent_ids() {
    let initial = vec![
        (100, 1, 200),
        (101, 100, 201),
        (102, 101, 202),
        (200, 100, 199),
        (300, 1, 203),
    ];
    assert_eq!(
        process_ids_with_descendants_from_identities(&initial, &vec![100], 999),
        HashSet::from([100, 101, 102])
    );
}

#[test]
fn snapshot_parser_preserves_commands_with_spaces() {
    assert_eq!(
        parse_unix_process_snapshot(
            b"  100     1   100 Thu Jul 23 19:23:12 2026 /Applications/ChatGPT.app/Contents/MacOS/ChatGPT --flag\n\
              101   100   101 Thu Jul 23 19:23:13 2026 node ./mcp/server.mjs\n\
              invalid row\n"
        ),
        vec![
            UnixProcessInfo {
                process_id: 100,
                parent_process_id: 1,
                process_group_id: 100,
                start_time: "Thu Jul 23 19:23:12 2026".to_string(),
                command: "/Applications/ChatGPT.app/Contents/MacOS/ChatGPT --flag".to_string(),
            },
            UnixProcessInfo {
                process_id: 101,
                parent_process_id: 100,
                process_group_id: 101,
                start_time: "Thu Jul 23 19:23:13 2026".to_string(),
                command: "node ./mcp/server.mjs".to_string(),
            },
        ]
    );
}

#[test]
fn descendants_follow_the_complete_parent_chain() {
    let processes = parse_unix_process_snapshot(
        b"100 1 100 Thu Jul 23 19:23:12 2026 /app/Codex\n\
          101 100 100 Thu Jul 23 19:23:13 2026 /app/Codex Helper\n\
          102 101 102 Thu Jul 23 19:23:14 2026 node ./mcp/server.mjs\n\
          200 1 200 Thu Jul 23 19:23:15 2026 unrelated\n",
    );
    assert_eq!(
        process_ids_with_descendants(&processes, &vec![100], 999),
        HashSet::from([100, 101, 102])
    );
}

#[test]
fn path_match_requires_a_path_or_argument_boundary() {
    let app = vec!["/Applications/ChatGPT.app".to_string()];
    assert!(command_uses_path(
        "/Applications/ChatGPT.app/Contents/MacOS/ChatGPT --flag",
        &app
    ));
    assert!(!command_uses_path(
        "/Applications/ChatGPT.app-copy/Contents/MacOS/ChatGPT",
        &app
    ));
}

#[test]
fn argument_match_requires_token_boundaries() {
    assert!(command_has_argument(
        "/app/Codex --inspect-brk=127.0.0.1:1234 --flag",
        "--inspect-brk=127.0.0.1:1234"
    ));
    assert!(!command_has_argument(
        "/app/Codex --other=--inspect-brk=127.0.0.1:1234",
        "--inspect-brk=127.0.0.1:1234"
    ));
}

#[test]
fn identity_check_rejects_a_reused_process_id() {
    let original =
        parse_unix_process_snapshot(b"100 1 100 Thu Jul 23 19:23:12 2026 /app/Codex\n");
    let identities = identities_for_process_ids(&original, &HashSet::from([100]));
    let reused = parse_unix_process_snapshot(b"100 1 100 Thu Jul 23 19:24:12 2026 unrelated\n");
    assert!(matching_process_ids(&reused, &identities).is_empty());
    assert_eq!(signal_process_group(Some(77)), Some(-77));
    assert_eq!(signal_process_group(Some(1)), None);
    assert_eq!(signal_process_group(Some(u32::MAX)), None);
    assert_eq!(signal_process_group(None), None);
}

fn lock(path: &str, owner: Option<u32>, running: bool, age: Option<u64>) -> LockState {
    LockState { path: path.to_string(), exists: true, owner, owner_running: running, age }
}

#[test]
fn removes_locks_owned_by_a_dead_process() {
    let directories = lock_directories();
    let owner = Some(u32::MAX);
    let running = process_is_running(u32::MAX, false, false);
    let locks = vec![
        lock(&directories[0], owner, running, Some(0)),
        lock(&directories[1], owner, running, Some(0)),
    ];
    assert_eq!(
        recover_stale_locks(&locks),
        vec![directories[0].clone(), directories[1].clone()]
    );
}

#[test]
fn preserves_a_lock_owned_by_the_current_process() {
    let directories = lock_directories();
    let locks = vec![lock(&directories[0], Some(4321), process_is_running(4321, true, false), Some(0))];
    assert!(recover_stale_locks(&locks).is_empty());
}

#[test]
fn preserves_a_recent_lock_without_owner_metadata() {
    let directories = lock_directories();
    let locks = vec![lock(&directories[0], None, false, Some(0))];
    assert!(recover_stale_locks(&locks).is_empty());
}

#[test]
fn an_old_lock_without_an_owner_is_removed() {
    let locks = vec![lock("lock", None, false, Some(1_000_000))];
    assert_eq!(recover_stale_locks(&locks), vec!["lock".to_string()]);
    let gone = LockState {
        path: "lock".to_string(),
        exists: false,
        owner: None,
        owner_running: false,
        age: Some(1_000_000),
    };
    assert!(recover_stale_locks(&vec![gone]).is_empty());
}

#[test]
fn recovery_requires_verified_restoration() {
    assert!(parse_result(&br#"{"ok":true,"restoredExactly":true}"#.to_vec()).is_ok());
    for response in [
        br#"{"ok":true}"#.as_slice(),
        br#"{"ok":true,"restoredExactly":false}"#,
        br#"{"ok":false,"restoredExactly":true,"code":"reset_interrupted"}"#,
        br#"{"ok":false,"code":"ambiguous_window"}"#,
        b"invalid JSON",
    ] {
        assert!(parse_result(&response.to_vec()).is_err());
    }
    let error = parse_result(&br#"{"code":"no_window"}"#.to_vec()).unwrap_err();
    assert!(error.ends_with("（no_window）"), "{error}");
}

#[test]
fn builds_compatible_model_endpoints() {
    assert_eq!(
        model_endpoints("https://relay.example/v1").unwrap(),
        vec!["https://relay.example/v1/models"]
    );
    assert_eq!(
        model_endpoints("https://relay.example/api").unwrap(),
        vec![
            "https://relay.example/api/v1/models",
            "https://relay.example/api/models"
        ]
    );
}

#[test]
fn model_endpoints_drop_queries_and_refuse_other_schemes() {
    assert_eq!(
        model_endpoints("https://relay.example/v1/models/?key=1#top").unwrap(),
        vec!["https://relay.example/v1/models"]
    );
    assert_eq!(model_endpoints("not an address").unwrap_err(), "API 地址格式无效");
    assert_eq!(
        model_endpoints("ftp://relay.example/v1").unwrap_err(),
        "API 地址仅支持 HTTP 或 HTTPS"
    );
    let url = UrlParts {
        scheme: "https".to_string(),
        host: Some("h".to_string()),
        path: "/v1//".to_string(),
        text: "https://h/v1//".to_string(),
        pairs: vec![],
    };
    assert_eq!(endpoints_of_url(&url).unwrap(), vec!["https://h/v1/models"]);
}

#[test]
fn parses_common_model_list_shapes() {
    let models = model_ids(br#"{"data":[{"id":"a"},{"name":"b"},{"id":"a"}]}"#).unwrap();
    assert_eq!(models, vec!["a", "b"]);
}

#[test]
fn model_lists_of_other_shapes() {
    assert_eq!(model_ids(br#"[" a ", {"slug":"b"}, {"model":"c"}, 5, ""]"#).unwrap(), ["a", "b", "c"]);
    assert_eq!(model_ids(br#"{"models":["x","x"]}"#).unwrap(), ["x"]);
    assert_eq!(model_ids(b"{}").unwrap_err(), "上游模型列表格式不受支持");
    assert_eq!(model_ids(b"<html>").unwrap_err(), "模型列表不是有效 JSON");
}

#[test]
fn a_models_request_falls_back_while_a_place_is_left() {
    let plan = plan_models_request(" https://relay.example/api/ ", "  key ").unwrap();
    assert_eq!(plan.endpoints.len(), 2);
    assert_eq!(plan.key.as_deref(), Some("key"));
    assert!(plan_models_request("https://relay.example", " ").unwrap().key.is_none());
    assert_eq!(plan_models_request(" / ", "").unwrap_err(), "API 地址不能为空");
    let place = "https://relay.example/v1/models";
    assert!(matches!(
        judge_models_answer(place, 404, "404 Not Found", true, b""),
        ModelsStep::Next
    ));
    assert!(matches!(
        judge_models_answer(place, 200, "200 OK", true, b"{}"),
        ModelsStep::Next
    ));
    match judge_models_answer(place, 200, "200 OK", false, b"{}") {
        ModelsStep::Fail(words, cause) => {
            assert_eq!(words, format!("解析上游模型列表失败：{place}"));
            assert_eq!(cause, "上游模型列表格式不受支持");
        }
        other => panic!("{other:?}"),
    }
    match judge_models_answer(place, 500, "500 Internal Server Error", true, b"{}") {
        ModelsStep::Fail(words, _) => assert_eq!(
            words,
            format!("获取上游模型失败：{place} 返回 HTTP 500 Internal Server Error")
        ),
        other => panic!("{other:?}"),
    }
    match judge_models_answer(place, 200, "200 OK", false, br#"["m"]"#) {
        ModelsStep::Done(models) => assert_eq!(models, ["m"]),
        other => panic!("{other:?}"),
    }
}

#[test]
fn processes_get_two_seconds_to_end() {
    assert_eq!(cleanup_step(false, 5000), CleanupStep::Done);
    assert_eq!(cleanup_step(true, 1999), CleanupStep::Wait);
    assert_eq!(cleanup_step(true, 2000), CleanupStep::Kill);
}

#[test]
fn the_recovery_script_quotes_its_source() {
    assert_eq!(
        recovery_script("C:\\it's.cs", 42),
        "$ErrorActionPreference='Stop'; [Console]::OutputEncoding=New-Object System.Text.UTF8Encoding($false); Add-Type -TypeDefinition ([IO.File]::ReadAllText('C:\\it''s.cs')); [PetWindowAgent]::RecoverOnce(42)"
    );
    // "a" and "é" are one unit, "😀" is two.
    assert_eq!(encoded_script("aé😀"), "YQDpAD3YAN4=");
}

fn windows_process(id: u32, parent: u32, path: Option<&str>, time: Option<u64>) -> WindowsProcessInfo {
    WindowsProcessInfo {
        process_id: id,
        parent_process_id: parent,
        executable_path: path.map(str::to_string),
        creation_time: time,
        same_executable: path == Some("codey.exe"),
    }
}

#[test]
fn other_windows_instances_are_stopped_with_their_children() {
    let processes = vec![
        windows_process(10, 1, Some("codey.exe"), Some(5)),
        windows_process(11, 1, Some("codey.exe"), Some(5)),
        windows_process(12, 1, Some("codey.exe"), None),
        windows_process(13, 11, Some("child.exe"), Some(6)),
        windows_process(14, 11, Some("older.exe"), Some(4)),
        windows_process(15, 13, None, Some(7)),
        windows_process(16, 15, Some("deep.exe"), Some(8)),
        windows_process(17, 1, Some("other.exe"), Some(9)),
    ];
    assert_eq!(windows_codey_root_process_ids(&processes, 10), [11]);
    let targets = windows_cleanup_targets(&processes, 10);
    let told: Vec<(u32, &str, u64)> = targets
        .iter()
        .map(|t| (t.process_id, t.executable_path.as_str(), t.creation_time))
        .collect();
    assert_eq!(told, [(11, "codey.exe", 5), (13, "child.exe", 6), (16, "deep.exe", 8)]);
}

#[test]
fn only_a_line_feed_takes_a_return_with_it() {
    let listing = "  7   1   7 Mon Jan  1 00:00:00 2026 /bin/a\r\n  8   1   8 Mon Jan  1 00:00:00 2026 /bin/b\r";
    let processes = parse_unix_process_snapshot(listing.as_bytes());
    assert_eq!(processes[0].command, "/bin/a");
    assert_eq!(processes[1].command, "/bin/b\r");
}
