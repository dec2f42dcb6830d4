use bergr::fs_util::{encode_path_component, encode_session_component};
use bergr::state::{
    cache_root, parse_state, session_dir, state_for_event, state_path, State, StateRecord,
};

fn full_record() -> StateRecord {
    StateRecord {
        agent: "impl".to_string(),
        state: State::Approval,
        updated_at: "2026-08-19T12:00:00Z".to_string(),
        harness: "coder".to_string(),
        session: "myproject".to_string(),
        window: "impl!".to_string(),
        window_id: Some("@1".to_string()),
        server_pid: Some("111".to_string()),
    }
}

#[test]
fn events_map_to_expected_states() {
    assert_eq!(state_for_event("SessionStart"), Some(State::Working));
    assert_eq!(state_for_event("UserPromptSubmit"), Some(State::Working));
    assert_eq!(state_for_event("PreToolUse"), Some(State::Working));
    assert_eq!(state_for_event("PermissionRequest"), Some(State::Approval));
    assert_eq!(state_for_event("PostToolUseFailure"), Some(State::Error));
    assert_eq!(state_for_event("StopFailure"), Some(State::Error));
    assert_eq!(state_for_event("Stop"), Some(State::Done));
}

#[test]
fn session_end_clears_state() {
    assert_eq!(state_for_event("SessionEnd"), None);
}

#[test]
fn unknown_event_is_none() {
    assert_eq!(state_for_event("SomethingNew"), None);
}

#[test]
fn working_has_no_symbol() {
    assert_eq!(State::Working.symbol(), "");
}

#[test]
fn symbols_match_spec() {
    assert_eq!(State::Approval.symbol(), "!");
    assert_eq!(State::Done.symbol(), "\u{2713}");
    assert_eq!(State::Error.symbol(), "\u{2717}");
}

#[test]
fn words_are_read_back() {
    for (state, word) in [
        (State::Working, "working"),
        (State::Approval, "approval"),
        (State::Done, "done"),
        (State::Error, "error"),
    ] {
        assert_eq!(state.as_str(), word);
        assert_eq!(parse_state(word), Some(state));
    }
    assert_eq!(parse_state("Working"), None);
    assert_eq!(parse_state(""), None);
}

#[test]
fn kv_round_trips() {
    let record = StateRecord {
        agent: "impl".to_string(),
        state: State::Approval,
        updated_at: "2026-08-19T12:00:00Z".to_string(),
        harness: "coder".to_string(),
        session: "myproject".to_string(),
        window: "impl!".to_string(),
        window_id: None,
        server_pid: None,
    };
    let text = record.to_kv();
    assert_eq!(StateRecord::from_kv(&text), Some(record));
}

#[test]
fn kv_round_trips_with_window_identity() {
    let record = full_record();
    let text = record.to_kv();
    assert_eq!(
        text,
        "agent=impl\nstate=approval\nupdated_at=2026-08-19T12:00:00Z\nharness=coder\n\
         session=myproject\nwindow=impl!\nwindow_id=@1\nserver_pid=111\n"
    );
    assert_eq!(StateRecord::from_kv(&text), Some(record));
}

#[test]
fn kv_keeps_separators_inside_values() {
    let mut record = full_record();
    record.agent = "a=b=c".to_string();
    record.window = "=".to_string();
    assert_eq!(StateRecord::from_kv(&record.to_kv()), Some(record));
}

#[test]
fn kv_value_with_a_line_feed_is_not_read_back() {
    let mut record = full_record();
    record.agent = "two\nlines".to_string();
    assert_eq!(StateRecord::from_kv(&record.to_kv()), None);
}

#[test]
fn kv_missing_required_field_is_none() {
    let text = "agent=impl\nstate=working\n";
    assert_eq!(StateRecord::from_kv(text), None);
}

#[test]
fn kv_unknown_state_is_none() {
    let text = "agent=impl\nstate=bogus\nupdated_at=t\nsession=s\nwindow=w\n";
    assert_eq!(StateRecord::from_kv(text), None);
}

#[test]
fn kv_missing_harness_defaults_empty() {
    let text = "agent=impl\nstate=working\nupdated_at=t\nsession=s\nwindow=w\n";
    let record = StateRecord::from_kv(text).unwrap();
    assert_eq!(record.harness, "");
}

#[test]
fn kv_line_without_separator_is_none() {
    let text = "agent=impl\nnonsense\nstate=working\nupdated_at=t\nsession=s\nwindow=w\n";
    assert_eq!(StateRecord::from_kv(text), None);
}

#[test]
fn kv_last_value_counts_and_unknown_keys_are_ignored() {
    let text = "agent=a\nagent=b\ncolor=red\nstate=done\nupdated_at=t\nsession=s\nwindow=w\r\n";
    let record = StateRecord::from_kv(text).unwrap();
    assert_eq!(record.agent, "b");
    assert_eq!(record.window, "w");
    assert_eq!(record.state, State::Done);
}

#[test]
fn cloned_record_is_the_same() {
    let record = full_record();
    assert_eq!(record.clone(), record);
}

#[test]
fn state_path_has_single_filename_component_for_agent_with_slash() {
    let cache_root = "/cache/bergr";
    let path = state_path(Some("/cache".as_bytes()), None, "session", "feature/foo").unwrap();
    let expected = format!("{}/session/{}.state", cache_root, encode_path_component("feature/foo"));
    assert_eq!(path, expected.as_bytes());
    assert_eq!(path, "/cache/bergr/session/feature%2ffoo.state".as_bytes());
}

#[test]
fn state_path_keeps_leading_slash_session_inside_cache_root() {
    let session = "/workspace/project";
    let home = Some("/home/jane".as_bytes());
    let path = state_path(None, home, session, "impl").unwrap();
    let cache_root = cache_root(None, home).unwrap();
    assert!(path.starts_with(&cache_root));
    let mut expected = cache_root.clone();
    expected.extend(format!("/{}/{}", encode_path_component(session), "impl.state").as_bytes());
    assert_eq!(path, expected);
    assert_eq!(path, "/home/jane/.cache/bergr/%2fworkspace%2fproject/impl.state".as_bytes());
}

#[test]
fn cache_root_prefers_an_absolute_xdg_directory() {
    let xdg = Some("/var/cache".as_bytes());
    let home = Some("/home/jane".as_bytes());
    assert_eq!(cache_root(xdg, home), Ok("/var/cache/bergr".as_bytes().to_vec()));
    assert_eq!(cache_root(Some("/".as_bytes()), None), Ok("/bergr".as_bytes().to_vec()));
    let below_home = "/home/jane/.cache/bergr".as_bytes().to_vec();
    assert_eq!(cache_root(None, home), Ok(below_home));
    let below_home = "/home/jane/.cache/bergr".as_bytes().to_vec();
    assert_eq!(cache_root(Some("cache".as_bytes()), home), Ok(below_home));
}

#[test]
fn cache_root_needs_an_absolute_directory() {
    let message = "neither XDG_CACHE_HOME nor an absolute HOME is set";
    assert_eq!(cache_root(None, None), Err(message));
    assert_eq!(cache_root(Some("".as_bytes()), Some("work".as_bytes())), Err(message));
    assert_eq!(session_dir(None, None, "s"), Err(message));
    assert_eq!(state_path(None, None, "s", "a"), Err(message));
}

#[test]
fn session_dir_is_where_state_files_go() {
    let xdg = Some("/c".as_bytes());
    let dir = session_dir(xdg, None, "My Project").unwrap();
    assert_eq!(dir, "/c/bergr/My%20Project".as_bytes());
    let path = state_path(xdg, None, "My Project", "Impl").unwrap();
    assert_eq!(path, "/c/bergr/My%20Project/impl.state".as_bytes());
}

#[test]
fn agents_fold_ascii_case_and_sessions_do_not() {
    assert_eq!(encode_path_component("Impl"), encode_path_component("impl"));
    assert_ne!(encode_path_component("impl"), encode_path_component("plan"));
    assert_ne!(encode_session_component("Impl"), encode_session_component("impl"));
}

#[test]
fn components_escape_what_is_not_plain() {
    assert_eq!(encode_path_component(".."), "%2e%2e");
    assert_eq!(encode_path_component("100%"), "100%25");
    assert_eq!(encode_session_component("a_b-C9"), "a_b-C9");
    assert_eq!(encode_session_component("\u{e9}"), "%c3%a9");
    assert_eq!(encode_session_component("\u{2713}"), "%e2%9c%93");
    assert_eq!(encode_session_component(""), "");
}

#[test]
fn session_without_a_name_has_state_files_of_its_own() {
    let xdg = Some("/c".as_bytes());
    let path = state_path(xdg, None, "", "impl").unwrap();
    assert_eq!(path, "/c/bergr/impl.state".as_bytes());
    assert_ne!(path, state_path(xdg, None, "impl", "impl").unwrap());
}
