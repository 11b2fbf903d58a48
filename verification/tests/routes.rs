use codey::json::{parse_bytes, parse_text, Json};
use codey::local_router::request_catalog::request_log_catalog;
use codey::local_router::routing::{
    CODEX_AUTO_REVIEW_MODEL, UPSTREAM_PROTOCOL_ANTHROPIC_MESSAGES,
    UPSTREAM_PROTOCOL_OPENAI_CHAT_COMPLETIONS, UPSTREAM_PROTOCOL_OPENAI_RESPONSES,
};
use codey::model_catalog::{
    is_available, parse_catalog_files, refresh_for_provider, relative_path, selection_state,
    temp_file_name, visible_models, CatalogFile, CatalogSource,
};
use codey::pet_slim_patch::{configure, PetSlimPlan, StateFile, PET_OPEN_KEY};
use codey::plugin_marketplace::{
    ensure_marketplaces, installed_plugins, list_plugin, list_plugins, merge_manifest_text,
    read_marketplace, MarketplaceStatus,
};
use codey::plugin_routes::{
    check_spec, release, retain_plugin_ownership, upsert, CodeyConfig, PluginRouteSpec,
    ProviderProfile, RouteDraft, MAX_ROUTE_NAME_CHARS,
};
use codey::provider_lease::{
    normalized_provider, restore_legacy, LegacyDatabaseLease, LegacyProviderLeaseState,
    LegacyThreadProvider, ProviderRepairReport, ProviderUpdate, CODEY_PROVIDER_ID,
    LEGACY_LEASE_VERSION,
};
use codey::textmap::TextList;

fn j(text: &str) -> Json {
    parse_text(text).unwrap()
}

fn spec(url: &str) -> PluginRouteSpec {
    PluginRouteSpec {
        name: "示例线路".into(),
        base_url: url.into(),
        upstream_protocol: UPSTREAM_PROTOCOL_OPENAI_RESPONSES.into(),
        models: vec!["demo-model".into()],
        headers: vec![("x-region".into(), "us".into())],
        short_name: String::new(),
    }
}

fn draft(id: &str) -> RouteDraft {
    RouteDraft {
        id: id.to_string(),
        short_name: "示例".to_string(),
        reserved_ids: vec!["openai".to_string()],
    }
}

fn find<'a>(config: &'a CodeyConfig, id: &str) -> &'a ProviderProfile {
    config.profiles.iter().find(|profile| profile.id == id).unwrap()
}

fn create(config: &mut CodeyConfig, url: &str, id: &str) -> String {
    upsert(config, "dev.example", spec(url), true, &draft(id)).unwrap().unwrap()
}

#[test]
fn upsert_creates_a_keyless_route_and_release_removes_it() {
    let mut config = CodeyConfig::new();
    let id = create(&mut config, "https://relay.example/v1/", "r1");
    let profile = find(&config, &id);
    assert_eq!(profile.plugin_owner_id.as_deref(), Some("dev.example"));
    assert_eq!(profile.normalized_base_url(), "https://relay.example/v1");
    assert!(profile.api_key.is_empty());
    let provider_id = profile.provider_id().to_string();
    assert_eq!(
        config.selected_models_by_provider.get(&provider_id).unwrap().items,
        ["demo-model"]
    );
    release(&mut config, "dev.example");
    assert!(config.profiles.iter().all(|profile| profile.id != id));
    assert!(!config.selected_models_by_provider.has(&provider_id));
}

#[test]
fn a_saved_key_keeps_the_route_after_release_and_a_later_enable_adds_another() {
    let mut config = CodeyConfig::new();
    let id = create(&mut config, "https://relay.example/v1", "r1");
    config.profiles.iter_mut().find(|profile| profile.id == id).unwrap().api_key =
        "secret".into();
    release(&mut config, "dev.example");
    let kept = find(&config, &id);
    assert!(kept.plugin_owner_id.is_none());
    assert_eq!(kept.api_key, "secret");
    let created = create(&mut config, "https://relay.example/v1", "r2");
    assert_ne!(created, id);
    assert_eq!(
        config.profiles.iter().filter(|profile| profile.plugin_owner_id.is_some()).count(),
        1
    );
}

#[test]
fn refresh_does_not_resurrect_a_deleted_route_or_replace_selected_models() {
    let mut config = CodeyConfig::new();
    let id = create(&mut config, "https://relay.example/v1", "r1");
    let provider_id = find(&config, &id).provider_id().to_string();
    config
        .selected_models_by_provider
        .insert(&provider_id, TextList { items: vec!["kept-model".into()] });
    let mut next = spec("https://relay.example/v2");
    next.models = vec!["demo-model".into(), "other-model".into()];
    upsert(&mut config, "dev.example", next, false, &draft("r2")).unwrap();
    let profile = find(&config, &id);
    assert_eq!(profile.normalized_base_url(), "https://relay.example/v2");
    assert_eq!(
        config.selected_models_by_provider.get(&provider_id).unwrap().items,
        ["kept-model"]
    );
    assert_eq!(
        config.upstream_models_by_provider.get(&provider_id).unwrap().items,
        ["demo-model", "other-model"]
    );
    config.profiles.retain(|profile| profile.id != id);
    assert!(upsert(
        &mut config,
        "dev.example",
        spec("https://relay.example/v1"),
        false,
        &draft("r3")
    )
    .unwrap()
    .is_none());
    assert!(config.profiles.iter().all(|profile| profile.plugin_owner_id.is_none()));
}

#[test]
fn changing_the_address_without_a_key_is_rejected_and_a_key_detaches_it() {
    let mut config = CodeyConfig::new();
    let id = create(&mut config, "https://relay.example/v1", "r1");
    let previous = find(&config, &id).copy();
    let mut edited = previous.copy();
    edited.base_url = "https://other.example/v1".into();
    let error = retain_plugin_ownership(&mut edited, &previous).unwrap_err();
    assert!(error.contains("API Key"), "{error}");
    edited.api_key = "secret".into();
    retain_plugin_ownership(&mut edited, &previous).unwrap();
    assert!(edited.plugin_owner_id.is_none());
    assert_eq!(edited.base_url, "https://other.example/v1");
    let mut untouched = previous.copy();
    retain_plugin_ownership(&mut untouched, &previous).unwrap();
    assert_eq!(untouched.plugin_owner_id.as_deref(), Some("dev.example"));
}

#[test]
fn closed_local_router_rejects_registration_and_keeps_the_existing_route() {
    let mut config = CodeyConfig::new();
    let id = create(&mut config, "https://relay.example/v1", "r1");
    config.local_router_enabled = false;
    let next = || spec("https://relay.example/v2");
    let error = upsert(&mut config, "dev.example", next(), true, &draft("r2")).unwrap_err();
    assert!(error.contains("本地路由已关闭"), "{error}");
    assert!(upsert(&mut config, "dev.example", next(), false, &draft("r2")).unwrap().is_none());
    let profile = find(&config, &id);
    assert_eq!(profile.normalized_base_url(), "https://relay.example/v1");
    assert_eq!(profile.plugin_owner_id.as_deref(), Some("dev.example"));
}

#[test]
fn route_descriptor_limits_match_the_config_constants() {
    assert_eq!(MAX_ROUTE_NAME_CHARS, 15);
    assert_eq!(UPSTREAM_PROTOCOL_OPENAI_RESPONSES, "openaiResponses");
    assert_eq!(UPSTREAM_PROTOCOL_OPENAI_CHAT_COMPLETIONS, "openaiChatCompletions");
    assert_eq!(UPSTREAM_PROTOCOL_ANTHROPIC_MESSAGES, "anthropicMessages");
    assert_eq!(CODEX_AUTO_REVIEW_MODEL, "codex-auto-review");
}

#[test]
fn route_descriptions_are_checked() {
    let mut config = CodeyConfig::new();
    let mut refuse = |spec: PluginRouteSpec, id: &str| {
        upsert(&mut config, "dev.example", spec, true, &draft(id)).unwrap_err()
    };
    let url = "https://relay.example/v1";
    let mut long = spec(url);
    long.name = "一二三四五六七八九十一二三四五六".into();
    assert_eq!(refuse(long, "r"), "插件线路名称需要 1 到 15 个字符");
    assert_eq!(refuse(spec("not an address"), "r"), "插件线路的 API URL 无效");
    let mut other = spec(url);
    other.upstream_protocol = "telnet".into();
    assert_eq!(refuse(other, "r"), "插件线路协议不受支持");
    for reserved in ["codey_router", "openai"] {
        assert_eq!(refuse(spec(url), reserved), "插件线路不能使用保留的 Provider ID");
    }
    assert!(config.profiles.is_empty());
    assert!(check_spec(spec(url), &None).is_err());
}

#[test]
fn header_names_of_a_route_are_lower_case() {
    let mut config = CodeyConfig::new();
    let mut described = spec("https://relay.example/v1");
    described.headers = vec![
        ("X-Region".into(), "eu".into()),
        ("Accept-Language".into(), "en".into()),
    ];
    let id = upsert(&mut config, "p", described, true, &draft("r1")).unwrap().unwrap();
    let profile = find(&config, &id);
    assert_eq!(
        profile.model_request_headers,
        vec![
            ("accept-language".to_string(), "en".to_string()),
            ("x-region".to_string(), "eu".to_string())
        ]
    );
    assert!(profile.structure_matches());
    let catalog = request_log_catalog(&config, true);
    assert_eq!(
        catalog.to_text(),
        r#"{"declaredOfficialModelsByProvider":{},"officialAccountAvailable":true,"profiles":[{"id":"r1","name":"示例线路"}],"selectedModelsByProvider":{"r1":["demo-model"]},"upstreamModelsByProvider":{"r1":["demo-model"]}}"#
    );
}

fn official_cache() -> CatalogSource {
    CatalogSource::Document(j(r#"{"models":[
        {"slug":"gpt-5.6-sol","display_name":"GPT-5.6-Sol","visibility":"list","priority":1,
         "default_reasoning_level":"low",
         "supported_reasoning_levels":[{"effort":"low"},{"effort":"medium"},{"effort":"high"},{"effort":"xhigh"},{"effort":"max"},{"effort":"ultra"}],
         "service_tiers":[{"id":"priority"}],"additional_speed_tiers":["fast"]},
        {"slug":"gpt-5.5","display_name":"GPT-5.5","visibility":"list","priority":7,
         "default_reasoning_level":"medium","supported_reasoning_levels":[{"effort":"low"},{"effort":"xhigh"}]},
        {"slug":"codex-auto-review","visibility":"hide","priority":43}]}"#))
}

fn models(catalog: &Json) -> &Vec<Json> {
    catalog.get_array("models").unwrap()
}

#[test]
fn official_catalog_preserves_entries_but_caps_reasoning_at_xhigh() {
    let refreshed = refresh_for_provider(&vec![official_cache()], true, &vec![], &vec![]).unwrap();
    assert_eq!(refreshed.count, 3);
    assert_eq!(refreshed.bytes.last(), Some(&b'\n'));
    assert!(refreshed.bytes.starts_with(b"{\n  \"models\": ["));
    let catalog = parse_bytes(&refreshed.bytes).unwrap();
    let file = CatalogFile::Contents("catalog.json".to_string(), refreshed.bytes.clone());
    assert!(is_available(&parse_catalog_files(&vec![file])[0]));
    let first = &models(&catalog)[0];
    let efforts: Vec<&str> = first
        .get_array("supported_reasoning_levels")
        .unwrap()
        .iter()
        .map(|level| level.get_str("effort").unwrap())
        .collect();
    assert_eq!(efforts, ["low", "medium", "high", "xhigh"]);
    assert_eq!(first.get_array("service_tiers").unwrap()[0].get_str("id"), Some("priority"));
    assert_eq!(first.get_bool("supports_reasoning_summaries"), Some(true));
    assert_eq!(models(&catalog)[2].get_bool("supports_reasoning_summaries"), Some(false));
    assert_eq!(models(&catalog)[2].get_str("default_reasoning_level"), Some("xhigh"));
}

#[test]
fn a_catalog_with_the_key_for_raw_values_stays_available() {
    let text = br#"{"models":[{"slug":"m","!":1,"$serde_json::private::RawValue":"[]"}]}"#;
    let file = CatalogFile::Contents("a.json".to_string(), text.to_vec());
    let sources = parse_catalog_files(&vec![file]);
    let refreshed = refresh_for_provider(&sources, true, &vec![], &vec![]).unwrap();
    assert_eq!(refreshed.count, 1);
    let again = CatalogFile::Contents("b.json".to_string(), refreshed.bytes);
    assert!(is_available(&parse_catalog_files(&vec![again])[0]));
}

#[test]
fn a_third_party_catalog_holds_supported_official_and_selected_other_models() {
    let upstream = vec!["gpt-5.6-sol".to_string(), "other-sonnet".to_string()];
    let refreshed =
        refresh_for_provider(&vec![official_cache()], false, &upstream, &upstream).unwrap();
    assert_eq!(refreshed.count, 2);
    let catalog = parse_bytes(&refreshed.bytes).unwrap();
    let list = models(&catalog);
    assert_eq!(list[0].get_str("slug"), Some("gpt-5.6-sol"));
    assert_eq!(list[1].get_str("slug"), Some("other-sonnet"));
    assert_eq!(list[1].get_str("codey_source"), Some("third_party"));
    assert!(list[1].get_array("service_tiers").unwrap().is_empty());
    assert_eq!(list[1].get_bool("supports_reasoning_summaries"), Some(true));
    assert_eq!(list[1].get_u64("priority"), Some(1001));
    assert!(is_available(&CatalogSource::Document(catalog)));
    assert!(!is_available(&CatalogSource::Missing));
}

#[test]
fn selection_state_greys_unsupported_official_models_and_excludes_duplicates() {
    let upstream = vec!["gpt-5.6-sol".to_string(), "third-model".to_string()];
    let selected = vec![
        "gpt-5.6-sol".to_string(),
        "third-model".to_string(),
        " third-model ".to_string(),
    ];
    let state = selection_state(&vec![official_cache()], false, &upstream, &selected).unwrap();
    assert!(state.official_models[0].supported);
    assert!(!state.official_models[1].supported);
    assert_eq!(state.third_party_models, ["third-model"]);
    assert_eq!(state.official_model_ids.len(), 3);
    let official = selection_state(&vec![official_cache()], true, &upstream, &selected).unwrap();
    assert!(official.official_models[1].supported);
    assert!(official.third_party_models.is_empty() && official.upstream_models.is_empty());
}

#[test]
fn catalogs_are_looked_for_in_order() {
    assert_eq!(relative_path(), "model-catalogs/codey-official.json");
    let files = vec![
        CatalogFile::Contents("a.json".to_string(), b"{".to_vec()),
        CatalogFile::Contents("b.json".to_string(), br#"{"models":[{"slug":" m ","visibility":"list"},{"slug":"m"}]}"#.to_vec()),
    ];
    let sources = parse_catalog_files(&files);
    let visible = visible_models(&sources).unwrap();
    assert_eq!(visible.len(), 1);
    assert_eq!(visible[0].slug, "m");
    assert_eq!(visible[0].display_name, "m");
    let broken = parse_catalog_files(&vec![
        CatalogFile::Contents("a.json".to_string(), b"{".to_vec()),
        CatalogFile::Missing,
    ]);
    assert!(visible_models(&broken).unwrap_err().starts_with("解析 a.json 失败："));
    let unreadable = parse_catalog_files(&vec![CatalogFile::Unreadable(
        "a.json".to_string(),
        "denied".to_string(),
    )]);
    assert_eq!(visible_models(&unreadable).unwrap_err(), "读取 a.json 失败：denied");
    assert_eq!(
        refresh_for_provider(&unreadable, true, &vec![], &vec![]).unwrap_err(),
        "denied"
    );
    assert_eq!(
        refresh_for_provider(&vec![], true, &vec![], &vec![]).unwrap_err(),
        "找不到官方账号模型缓存，请先使用官方账号启动一次 Codex"
    );
    let name = temp_file_name(Some("c.json"));
    assert!(name.starts_with(".c.json.") && name.ends_with(".tmp"));
    assert_ne!(name, temp_file_name(Some("c.json")));
}

fn pet(primary: &StateFile, backup: &StateFile, slim: bool) -> Result<PetSlimPlan, String> {
    configure("state.json", "state.json.bak", primary, backup, slim)
}

fn state_text(text: &str) -> StateFile {
    StateFile::Contents(text.as_bytes().to_vec())
}

#[test]
fn defaults_to_a_closed_pet_without_losing_other_state() {
    let plan = pet(
        &state_text(r#"{"keep":"value","electron-avatar-overlay-open":true}"#),
        &StateFile::Missing,
        true,
    )
    .unwrap();
    assert!(plan.report.slim_enabled);
    assert!(plan.report.changed);
    let state = parse_bytes(&plan.bytes.unwrap()).unwrap();
    assert_eq!(state.get_str("keep"), Some("value"));
    assert_eq!(state.get_bool(PET_OPEN_KEY), Some(false));
}

#[test]
fn configuring_the_pet_again_changes_nothing() {
    let text = r#"{"odd":[ 1.00e+2 , "\ud800" ],"electron-avatar-overlay-open":"no"}"#;
    let first = pet(&state_text(text), &StateFile::Missing, true).unwrap();
    assert!(first.report.changed);
    let bytes = first.bytes.unwrap();
    assert!(String::from_utf8(bytes.clone()).unwrap().contains(r#"[ 1.00e+2 , "\ud800" ]"#));
    let written = StateFile::Contents(bytes);
    let second = pet(&written, &StateFile::Missing, true).unwrap();
    assert!(!second.report.changed && second.bytes.is_none());
}

#[test]
fn disabling_slim_mode_restores_the_pet_on_the_next_launch() {
    let first = pet(&StateFile::Missing, &StateFile::Missing, true).unwrap();
    let bytes = first.bytes.unwrap();
    let plan = pet(
        &StateFile::Contents(bytes.clone()),
        &StateFile::Contents(bytes),
        false,
    )
    .unwrap();
    assert!(!plan.report.slim_enabled);
    assert!(plan.report.changed);
    let state = parse_bytes(&plan.bytes.unwrap()).unwrap();
    assert_eq!(state.get_bool(PET_OPEN_KEY), Some(true));
}

#[test]
fn recovers_other_state_from_the_codex_backup() {
    let plan = pet(&StateFile::Missing, &state_text(r#"{"fromBackup":42}"#), true).unwrap();
    let state = parse_bytes(&plan.bytes.unwrap()).unwrap();
    assert_eq!(state.get_u64("fromBackup"), Some(42));
    assert_eq!(state.get_bool(PET_OPEN_KEY), Some(false));
}

#[test]
fn refuses_to_replace_a_corrupt_state_when_no_backup_is_available() {
    for original in ["{broken", "[]", r#"{"\ud800":1}"#] {
        let error = pet(&state_text(original), &StateFile::Missing, true).unwrap_err();
        assert!(error.contains("解析 Codex 全局状态失败"));
    }
    let error =
        pet(&StateFile::Unreadable("denied".to_string()), &StateFile::Missing, true).unwrap_err();
    assert_eq!(error, "读取 Codex 全局状态失败：state.json");
}

#[test]
fn preserves_raw_state_with_surrogates_in_primary_and_backup() {
    let original = r#"{"high":"\ud800","low":"\udfff","normal":"中文😀😀","nested": { "\ud800": ["\udfff", {"keep":1.00e+2}] },"electron-avatar-overlay-open":true}"#;
    for from_backup in [false, true] {
        let (primary, backup) = if from_backup {
            (state_text("{broken"), state_text(original))
        } else {
            (state_text(original), StateFile::Missing)
        };
        let plan = pet(&primary, &backup, true).unwrap();
        assert!(plan.report.changed);
        let bytes = plan.bytes.unwrap();
        assert_eq!(
            String::from_utf8(bytes.clone()).unwrap(),
            r#"{"electron-avatar-overlay-open":false,"high":"\ud800","low":"\udfff","nested":{ "\ud800": ["\udfff", {"keep":1.00e+2}] },"normal":"中文😀😀"}"#
        );
        let written = StateFile::Contents(bytes);
        let again = pet(&written, &written, true).unwrap();
        assert!(!again.report.changed);
        assert!(again.bytes.is_none());
        assert!(pet(&written, &written, false).unwrap().report.changed);
    }
}

#[test]
fn restores_a_legacy_provider_lease_before_migration() {
    let state = LegacyProviderLeaseState {
        version: LEGACY_LEASE_VERSION,
        fallback_provider: "openai".to_string(),
        databases: vec![LegacyDatabaseLease {
            path: "state_5.sqlite".to_string(),
            threads: vec![
                LegacyThreadProvider {
                    id: "openai-thread".to_string(),
                    provider: "openai".to_string(),
                },
                LegacyThreadProvider {
                    id: "custom-thread".to_string(),
                    provider: "custom".to_string(),
                },
            ],
        }],
    };
    let connection = rusqlite::Connection::open_in_memory().unwrap();
    connection
        .execute_batch(
            "CREATE TABLE threads (id TEXT PRIMARY KEY, model_provider TEXT NOT NULL);\
             INSERT INTO threads VALUES ('openai-thread', 'codey_local');\
             INSERT INTO threads VALUES ('custom-thread', 'codey_local');\
             INSERT INTO threads VALUES ('codey-thread', 'codey_local');",
        )
        .unwrap();
    let mut report = ProviderRepairReport::default();
    for database in restore_legacy(&Some(state)).unwrap() {
        let mut restored = 0;
        for update in &database.updates {
            match update {
                ProviderUpdate::Provider(from, to) => {
                    restored += connection
                        .execute(
                            "UPDATE threads SET model_provider=?1 WHERE model_provider=?2",
                            [to, from],
                        )
                        .unwrap();
                }
                ProviderUpdate::Thread(id, to) => {
                    connection
                        .execute("UPDATE threads SET model_provider=?1 WHERE id=?2", [to, id])
                        .unwrap();
                }
            }
        }
        report.add_database(restored);
    }
    let provider = |id: &str| -> String {
        connection
            .query_row("SELECT model_provider FROM threads WHERE id=?1", [id], |row| row.get(0))
            .unwrap()
    };
    assert_eq!(report.restored_threads, 3);
    assert_eq!(provider("openai-thread"), "openai");
    assert_eq!(provider("custom-thread"), "custom");
    assert_eq!(provider("codey-thread"), "openai");
}

#[test]
fn leases_of_other_versions_are_refused() {
    assert!(restore_legacy(&None).unwrap().is_empty());
    let state = LegacyProviderLeaseState {
        version: 2,
        fallback_provider: String::new(),
        databases: vec![],
    };
    assert_eq!(
        restore_legacy(&Some(state)).unwrap_err(),
        "不支持的会话 provider 租约版本：2"
    );
    assert_eq!(normalized_provider(" custom "), "custom");
    assert_eq!(normalized_provider(CODEY_PROVIDER_ID), "openai");
    assert_eq!(normalized_provider(" "), "openai");
}

#[test]
fn plugins_are_listed_with_their_manifests() {
    let entries = read_marketplace(
        r#"{"name":"curated","plugins":[{"name":" one ","description":"mine"},{"id":"two@elsewhere"},{"name":""},7]}"#,
    );
    assert_eq!(entries.len(), 2);
    assert_eq!(entries[0].id, "one@curated");
    assert_eq!(entries[1].id, "two@curated");
    let installed = installed_plugins(Some(
        "[plugins.\"one@curated\"]\n[plugins.\"two@curated\"]\nenabled = false\n",
    ));
    assert_eq!(installed, ["one@curated"]);
    let manifest = r#"{"description":"theirs","displayName":"One","secret":1}"#;
    let one = list_plugin(&entries[0], "m.json", "/plugins/one", &installed, Some(manifest));
    assert_eq!(one.get_str("description"), Some("mine"));
    assert_eq!(one.get_str("displayName"), Some("One"));
    assert!(!one.has("secret"));
    assert_eq!(one.get_bool("installed"), Some(true));
    assert_eq!(one.get_str("localPath"), Some("/plugins/one"));
    let two = list_plugin(&entries[1], "m.json", "/plugins/two", &installed, None);
    let broken = list_plugin(&entries[1], "m.json", "/plugins/two", &installed, Some("{broken"));
    assert!(broken.same(&two));
    let mut bare = Json::obj();
    merge_manifest_text(&mut bare, "[1]");
    assert!(bare.same(&Json::obj()));
    merge_manifest_text(&mut bare, r#"{"keywords":["k"],"name":"x"}"#);
    assert_eq!(bare.to_text(), r#"{"keywords":["k"]}"#);
    assert_eq!(two.get_bool("installed"), Some(false));
    let answer = list_plugins(vec![one, two]);
    assert_eq!(answer.get_u64("count"), Some(2));
    assert!(read_marketplace("broken").is_empty());
    assert!(installed_plugins(None).is_empty());
    assert!(installed_plugins(Some("= broken")).is_empty());
    assert_eq!(read_marketplace(r#"{"plugins":[{"name":"x"}]}"#)[0].id, "x@local");
}

#[test]
fn marketplaces_are_reported() {
    let official = MarketplaceStatus { root: Some("/m".to_string()), registered: true };
    let remote = MarketplaceStatus { root: None, registered: false };
    let report = ensure_marketplaces(&official, &remote, false, true, false, true);
    assert_eq!(report.get_bool("officialMarketplace"), Some(true));
    assert_eq!(report.get_str("officialPath"), Some("/m"));
    assert!(report.get("remotePath").unwrap().is_null());
    assert_eq!(report.get_bool("configChanged"), Some(true));
}
