use bergr::init::{updated_settings_text, SettingsError};
use bergr::json::{render, Json};
use bergr::settings::{
    entry_command_equals, entry_hooks_is_empty, hook_command, hook_events,
    is_generated_berger_command, merge_hooks, remove_stale_berger_commands,
};

const FIXTURE: &str = r#"{
  "model": "opus",
  "cleanupPeriodDays": 30,
  "ratio": 0.1,
  "offset": -3,
  "verbose": false,
  "apiKeyHelper": null,
  "hooks": {
    "SessionStart": [
      {"hooks": [{"type": "command", "command": "amux mark --state working"}]}
    ],
    "PreToolUse": [
      {"matcher": "Bash", "hooks": [{"type": "command", "command": "rtk hook agent"}]},
      {"hooks": [{"type": "command", "command": "amux mark --state working"}]}
    ],
    "Stop": [
      {"hooks": [
        {"type": "command", "command": "amux mark --state done"},
        {"type": "command", "command": "notify-send done"}
      ]}
    ],
    "Notification": [
      {"hooks": [{"type": "command", "command": "'/old/path/berger' event"}]}
    ]
  }
}"#;

fn parse(text: &str) -> Json {
    bergr::json::parse(text).unwrap()
}

fn load_fixture() -> Json {
    parse(FIXTURE)
}

fn entries<'a>(settings: &'a Json, event: &str) -> &'a Vec<Json> {
    settings.get("hooks").unwrap().get(event).unwrap().as_array().unwrap()
}

fn entry_command_contains(entry: &Json, needle: &str) -> bool {
    let Some(inner) = entry.get("hooks").and_then(Json::as_array) else {
        return false;
    };
    inner
        .iter()
        .any(|h| match h.get("command").and_then(Json::as_str) {
            Some(c) => c.contains(needle),
            None => false,
        })
}

#[test]
fn preserves_amux_entries_and_keeps_unrelated_hooks() {
    let mut settings = load_fixture();
    merge_hooks(&mut settings, "/home/schimetschka/.local/bin/berger event").unwrap();

    let pre_tool_use = settings.get("hooks").unwrap().get("PreToolUse").unwrap().as_array().unwrap();
    assert!(
        pre_tool_use
            .iter()
            .any(|e| entry_command_contains(e, "rtk hook agent")),
        "unrelated rtk hook must survive the merge"
    );
    assert!(
        pre_tool_use
            .iter()
            .any(|e| entry_command_contains(e, "amux")),
        "amux command must survive the merge"
    );
}

#[test]
fn every_event_gets_exactly_one_berger_entry() {
    let mut settings = load_fixture();
    let cmd = "/home/schimetschka/.local/bin/berger event";
    merge_hooks(&mut settings, cmd).unwrap();

    for event in hook_events() {
        let entries = settings.get("hooks").unwrap().get(event).unwrap().as_array().unwrap();
        let berger_count = entries
            .iter()
            .filter(|e| entry_command_contains(e, cmd))
            .count();
        assert_eq!(
            berger_count, 1,
            "event {event} should have exactly one berger entry"
        );
    }
}

#[test]
fn moved_binary_replaces_stale_berger_entry_instead_of_appending() {
    let mut settings = load_fixture();
    let old_cmd = "'/old/path/berger' event";
    merge_hooks(&mut settings, old_cmd).unwrap();

    let new_cmd = "'/new/path/berger' event";
    merge_hooks(&mut settings, new_cmd).unwrap();

    for event in hook_events() {
        let entries = settings.get("hooks").unwrap().get(event).unwrap().as_array().unwrap();
        assert!(
            !entries.iter().any(|e| entry_command_contains(e, old_cmd)),
            "event {event} should no longer reference the old berger path"
        );
        let new_count = entries
            .iter()
            .filter(|e| entry_command_contains(e, new_cmd))
            .count();
        assert_eq!(
            new_count, 1,
            "event {event} should have exactly one berger entry after the move"
        );
    }
}

#[test]
fn is_generated_berger_command_matches_quoted_path_with_event_suffix() {
    assert!(is_generated_berger_command("'/x/berger' event"));
    assert!(is_generated_berger_command(
        "'/Users/Jane O'\\''Connor/berger' event"
    ));
    assert!(!is_generated_berger_command("'/x/berger' sync"));
    assert!(!is_generated_berger_command("rtk hook agent"));
    assert!(!is_generated_berger_command("'/x/berger-migration' event"));
}

#[test]
fn is_generated_berger_command_matches_unquoted_legacy_shape() {
    assert!(is_generated_berger_command("/x/berger event"));
    assert!(!is_generated_berger_command("/x/berger-migration event"));
}

#[test]
fn rerunning_merge_is_a_no_op() {
    let mut settings = load_fixture();
    let cmd = "/home/schimetschka/.local/bin/berger event";
    merge_hooks(&mut settings, cmd).unwrap();
    let mut once = load_fixture();
    merge_hooks(&mut once, cmd).unwrap();
    merge_hooks(&mut settings, cmd).unwrap();
    assert_eq!(settings, once, "a second merge must be idempotent");
}

#[test]
fn unrelated_top_level_keys_survive() {
    let mut settings = load_fixture();
    let before = load_fixture();
    let before_model = before.get("model");
    merge_hooks(&mut settings, "/x/berger event").unwrap();
    assert_eq!(settings.get("model"), before_model);
    for key in ["cleanupPeriodDays", "ratio", "offset", "verbose", "apiKeyHelper"] {
        assert_eq!(settings.get(key), before.get(key));
    }
}

#[test]
fn event_with_no_prior_hooks_still_gets_berger_entry() {
    let mut settings = Json::Object(vec![]);
    merge_hooks(&mut settings, "/x/berger event").unwrap();
    for event in hook_events() {
        let entries = settings.get("hooks").unwrap().get(event).unwrap().as_array().unwrap();
        assert_eq!(entries.len(), 1);
    }
}

#[test]
fn merge_hooks_reports_error_instead_of_panicking_on_non_object_hooks() {
    let mut settings = Json::Object(vec![("hooks".to_string(), Json::Array(vec![]))]);
    let result = merge_hooks(&mut settings, "/x/berger event");
    assert!(result.is_err());
    assert_eq!(result, Err("\"hooks\" must be an object".to_string()));
    assert_eq!(settings, parse(r#"{"hooks": []}"#));
}

#[test]
fn merge_hooks_reports_error_when_root_is_not_an_object() {
    let mut settings = Json::Array(vec![]);
    let result = merge_hooks(&mut settings, "/x/berger event");
    assert!(result.is_err());
    assert_eq!(result, Err("settings.json root must be an object".to_string()));
    assert_eq!(settings, Json::Array(vec![]));
}

#[test]
fn event_that_is_not_a_list_is_reported_after_the_earlier_ones_were_merged() {
    let mut settings = parse(r#"{"hooks": {"PreToolUse": {}}}"#);
    let result = merge_hooks(&mut settings, "/x/berger event");
    assert_eq!(result, Err("\"hooks.PreToolUse\" must be an array".to_string()));
    assert_eq!(entries(&settings, "SessionStart").len(), 1);
    assert_eq!(entries(&settings, "UserPromptSubmit").len(), 1);
    assert!(settings.get("hooks").unwrap().get("Stop").is_none());
}

#[test]
fn added_entry_has_the_shape_of_a_command_hook() {
    let mut settings = Json::Object(vec![]);
    merge_hooks(&mut settings, "'/x/berger' event").unwrap();
    let expected = Json::Object(vec![(
        "hooks".to_string(),
        Json::Array(vec![Json::Object(vec![
            ("type".to_string(), Json::Text("command".to_string())),
            ("command".to_string(), Json::Text("'/x/berger' event".to_string())),
        ])]),
    )]);
    assert_eq!(entries(&settings, "SessionEnd")[0], expected);
}

#[test]
fn other_events_keep_their_hooks() {
    let mut settings = load_fixture();
    merge_hooks(&mut settings, "'/new/path/berger' event").unwrap();
    assert_eq!(entries(&settings, "Notification"), entries(&load_fixture(), "Notification"));
}

#[test]
fn siblings_of_a_stale_command_survive() {
    let mut settings = parse(
        r#"{"hooks": {"Stop": [{"matcher": "x", "hooks": [
            {"command": "/old/berger event"}, {"command": "beep"}, {"command": 7}]}]}}"#,
    );
    merge_hooks(&mut settings, "/new/berger event").unwrap();
    let stop = entries(&settings, "Stop");
    assert_eq!(stop.len(), 2);
    assert_eq!(
        stop[0],
        parse(r#"{"matcher": "x", "hooks": [{"command": "beep"}, {"command": 7}]}"#)
    );
    assert!(entry_command_equals(&stop[1], "/new/berger event"));
}

#[test]
fn unrelated_entries_without_hooks_are_left_untouched() {
    let mut settings = parse(r#"{"hooks": {"PreToolUse": [{"matcher": "Bash", "hooks": []}]}}"#);
    assert_eq!(merge_hooks(&mut settings, "/x/berger event"), Ok(()));
    let pre_tool_use = entries(&settings, "PreToolUse");
    assert_eq!(pre_tool_use.len(), 2);
    assert_eq!(pre_tool_use[0], parse(r#"{"matcher": "Bash", "hooks": []}"#));
    assert!(entry_command_equals(&pre_tool_use[1], "/x/berger event"));

    let odd = r#"[{"hooks": []}, {"matcher": "x"}, "odd", {"hooks": "odd"}]"#;
    let mut settings = parse(&format!(r#"{{"hooks": {{"Stop": {odd}}}}}"#));
    merge_hooks(&mut settings, "/x/berger event").unwrap();
    let stop = entries(&settings, "Stop");
    assert_eq!(stop[0..4], parse(odd).as_array().unwrap()[0..4]);
    assert_eq!(stop.len(), 5);
}

#[test]
fn entry_that_held_only_stale_hooks_is_dropped() {
    let mut settings = parse(
        r#"{"hooks": {"Stop": [{"matcher": "x", "hooks": [{"command": "/old/berger event"}]}]}}"#,
    );
    merge_hooks(&mut settings, "/new/berger event").unwrap();
    assert_eq!(entries(&settings, "Stop").len(), 1);
    assert!(entry_command_equals(&entries(&settings, "Stop")[0], "/new/berger event"));
}

#[test]
fn command_that_was_there_twice_is_there_once() {
    let e = r#"{"hooks": [{"type": "command", "command": "'/x/berger' event"}]}"#;
    let mut settings = parse(&format!(r#"{{"hooks": {{"Stop": [{e}, {e}]}}}}"#));
    assert_eq!(merge_hooks(&mut settings, "'/x/berger' event"), Ok(()));
    assert_eq!(entries(&settings, "Stop"), &vec![parse(e)]);

    let mut settings = parse(
        r#"{"hooks": {"Stop": [{"hooks": [{"command": "a"}, {"command": "c"}, {"command": "c"}]},
            {"hooks": [{"command": "c"}, {"command": "b"}]}, {"hooks": [{"command": "c"}]}]}}"#,
    );
    merge_hooks(&mut settings, "c").unwrap();
    let expected = r#"[{"hooks": [{"command": "a"}, {"command": "c"}]},
        {"hooks": [{"command": "b"}]}]"#;
    assert_eq!(entries(&settings, "Stop"), parse(expected).as_array().unwrap());
}

#[test]
fn command_that_merely_mentions_berger_is_not_taken_for_it() {
    let mut settings = parse(r#"{"hooks": {"Stop": [{"hooks": [{"command": "/x/berger event --v"}]}]}}"#);
    merge_hooks(&mut settings, "/x/berger event").unwrap();
    assert_eq!(entries(&settings, "Stop").len(), 2);
}

#[test]
fn stale_commands_are_removed_from_one_entry() {
    let mut entry = parse(r#"{"hooks": [{"command": "/a/berger event"}, {"command": "/b/berger event"}]}"#);
    remove_stale_berger_commands(&mut entry, "/b/berger event");
    assert_eq!(entry, parse(r#"{"hooks": [{"command": "/b/berger event"}]}"#));
    assert!(!entry_hooks_is_empty(&entry));
    remove_stale_berger_commands(&mut entry, "/c/berger event");
    assert!(entry_hooks_is_empty(&entry));
    let mut other = Json::Null;
    remove_stale_berger_commands(&mut other, "/c/berger event");
    assert_eq!(other, Json::Null);
}

#[test]
fn odd_commands_are_not_generated() {
    assert!(!is_generated_berger_command(" event"));
    assert!(!is_generated_berger_command("' event"));
    assert!(!is_generated_berger_command("berger"));
    assert!(!is_generated_berger_command("/x/berger/.. event"));
    assert!(is_generated_berger_command("/x/berger/. event"));
    assert!(is_generated_berger_command("/x//berger/ event"));
    assert!(is_generated_berger_command("berger event"));
    assert!(is_generated_berger_command("'/x/berger event"));
    assert!(!is_generated_berger_command("'berger event"));
    assert!(is_generated_berger_command("'berger' event"));
    assert!(!is_generated_berger_command("'/a/wrapper' '/x/berger' event"));
    assert!(!is_generated_berger_command("'' event"));
    assert!(!is_generated_berger_command("'it''s/berger' event"));
}

#[test]
fn own_command_is_recognized() {
    for bin in ["/x/berger", "/Jane O'Connor/it's/berger", "/\u{fc}/ /berger"] {
        assert!(is_generated_berger_command(&hook_command(bin)));
    }
    assert!(!is_generated_berger_command(&hook_command("/x/bergr")));
    assert_eq!(hook_command("/x/berger"), "'/x/berger' event");
}

#[test]
fn failed_merge_fails_alike_a_second_time() {
    let text = r#"{"model": "m", "hooks": {"Stop": 7, "SessionEnd": [{"hooks": [{"command": "beep"}]}]}}"#;
    let mut settings = parse(text);
    let first = merge_hooks(&mut settings, "/x/berger event");
    let mut again = parse(text);
    assert_eq!(merge_hooks(&mut again, "/x/berger event"), first);
    assert_eq!(merge_hooks(&mut again, "/x/berger event"), first);
    assert_eq!(again, settings);
    assert_eq!(first, Err("\"hooks.Stop\" must be an array".to_string()));
    assert_eq!(settings.get("model").unwrap().as_str(), Some("m"));
    assert_eq!(entries(&settings, "SessionEnd"), entries(&parse(text), "SessionEnd"));
}

#[test]
fn foreign_hook_that_runs_berger_as_its_argument_survives() {
    let command = "'/a/wrapper' '/x/berger' event";
    let mut settings =
        parse(&format!(r#"{{"hooks": {{"Stop": [{{"hooks": [{{"command": "{command}"}}]}}]}}}}"#));
    merge_hooks(&mut settings, "'/x/berger' event").unwrap();
    assert_eq!(entries(&settings, "Stop").len(), 2);
    assert!(entry_command_equals(&entries(&settings, "Stop")[0], command));
}

#[test]
fn settings_text_is_read_merged_and_written() {
    let text = updated_settings_text(Some(FIXTURE), "/x/berger").unwrap();
    let written: serde_json::Value = serde_json::from_str(&text).unwrap();
    let fixture: serde_json::Value = serde_json::from_str(FIXTURE).unwrap();
    for key in ["model", "cleanupPeriodDays", "ratio", "offset", "verbose", "apiKeyHelper"] {
        assert_eq!(written[key], fixture[key]);
    }
    assert_eq!(written["hooks"]["Notification"], fixture["hooks"]["Notification"]);
    assert_eq!(written["hooks"]["Stop"][0], fixture["hooks"]["Stop"][0]);
    assert_eq!(written["hooks"]["Stop"][1]["hooks"][0]["command"], "'/x/berger' event");
    assert_eq!(text, serde_json::to_string_pretty(&written).unwrap());
    assert_eq!(updated_settings_text(Some(&text), "/x/berger"), Ok(text));
}

#[test]
fn missing_settings_text_counts_as_an_empty_object() {
    let text = updated_settings_text(None, "/x/berger").unwrap();
    assert_eq!(updated_settings_text(Some(" {} "), "/x/berger"), Ok(text.clone()));
    assert!(text.starts_with(
        "{\n  \"hooks\": {\n    \"PermissionRequest\": [\n      {\n        \"hooks\": [\n"
    ));
}

#[test]
fn settings_text_says_what_is_wrong() {
    let problem = serde_json::from_str::<serde_json::Value>("{\"a\": ").unwrap_err();
    assert_eq!(
        updated_settings_text(Some("{\"a\": "), "/x/berger"),
        Err(SettingsError::NotJson(problem.to_string()))
    );
    assert_eq!(
        updated_settings_text(Some("[]"), "/x/berger"),
        Err(SettingsError::Shape("settings.json root must be an object".to_string()))
    );
}

#[test]
fn json_is_written_as_it_was_read() {
    let text = r#"{"b": [1, -2, 0.5, true, null, "x\n"], "a": {"k": 1, "k": 2}}"#;
    let rendered = render(parse(text));
    let expected: serde_json::Value = serde_json::from_str(text).unwrap();
    assert_eq!(rendered, serde_json::to_string_pretty(&expected).unwrap());
    assert_eq!(parse(text).get("a").unwrap().get("k"), Some(&parse("2")));
    assert_eq!(
        Json::Object(vec![
            ("k".to_string(), Json::Null),
            ("k".to_string(), Json::Bool(true)),
        ])
        .get("k"),
        Some(&Json::Bool(true))
    );
}

#[test]
fn repeated_key_is_written_once_with_its_last_value() {
    let object = Json::Object(vec![
        ("b".to_string(), Json::Bool(false)),
        ("a".to_string(), Json::Null),
        ("b".to_string(), Json::Text("x".to_string())),
        ("b".to_string(), Json::Bool(true)),
    ]);
    assert_eq!(render(object), "{\n  \"a\": null,\n  \"b\": true\n}");
    let nested = Json::Array(vec![Json::Object(vec![
        ("k".to_string(), Json::Bool(true)),
        ("k".to_string(), Json::Array(vec![])),
    ])]);
    assert_eq!(render(nested), "[\n  {\n    \"k\": []\n  }\n]");
}

#[test]
fn foreign_hooks_keep_their_order_and_their_entry() {
    let mut settings = parse(
        r#"{"hooks": {"Stop": [
            {"matcher": "1", "hooks": [{"command": "a"}, {"command": "/old/berger event"},
                {"command": "b"}]},
            {"matcher": "2", "hooks": []},
            {"matcher": "3", "hooks": [{"command": "/new/berger event"}]},
            {"matcher": "4", "hooks": [{"command": "/new/berger event"}, {"command": "a"}]}]}}"#,
    );
    merge_hooks(&mut settings, "/new/berger event").unwrap();
    let expected = parse(
        r#"[{"matcher": "1", "hooks": [{"command": "a"}, {"command": "b"}]},
            {"matcher": "2", "hooks": []},
            {"matcher": "3", "hooks": [{"command": "/new/berger event"}]},
            {"matcher": "4", "hooks": [{"command": "a"}]}]"#,
    );
    assert_eq!(entries(&settings, "Stop"), expected.as_array().unwrap());
}
