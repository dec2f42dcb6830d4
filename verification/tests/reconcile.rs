use bergr::reconcile::{agent_matches, plan_renames, window_matches_record, Rename};
use bergr::state::{State, StateRecord};
use bergr::tmux::Window;

fn record(agent: &str, state: State) -> StateRecord {
    StateRecord {
        agent: agent.to_string(),
        state,
        updated_at: "t".to_string(),
        harness: "coder".to_string(),
        session: "s".to_string(),
        window: agent.to_string(),
        window_id: None,
        server_pid: None,
    }
}

fn window(index: &str, name: &str) -> Window {
    Window {
        id: format!("@{index}"),
        index: index.to_string(),
        name: name.to_string(),
    }
}

#[test]
fn renames_window_to_match_state() {
    let records = vec![record("impl", State::Approval)];
    let windows = vec![window("1", "impl")];
    assert_eq!(
        plan_renames(&records, &windows, None),
        vec![Rename {
            index: "1".to_string(),
            new_name: "impl!".to_string()
        }]
    );
}

#[test]
fn matches_window_regardless_of_existing_suffix() {
    let records = vec![record("impl", State::Done)];
    let windows = vec![window("1", "impl\u{2717}")];
    assert_eq!(
        plan_renames(&records, &windows, None),
        vec![Rename {
            index: "1".to_string(),
            new_name: "impl\u{2713}".to_string()
        }]
    );
}

#[test]
fn matches_window_regardless_of_case() {
    let records = vec![record("impl", State::Approval)];
    let windows = vec![window("1", "Impl")];
    assert_eq!(
        plan_renames(&records, &windows, None),
        vec![Rename {
            index: "1".to_string(),
            new_name: "Impl!".to_string()
        }]
    );
}

#[test]
fn no_rename_when_name_already_correct() {
    let records = vec![record("impl", State::Approval)];
    let windows = vec![window("1", "impl!")];
    assert!(plan_renames(&records, &windows, None).is_empty());
}

#[test]
fn window_with_no_matching_record_is_untouched() {
    let records = vec![record("impl", State::Approval)];
    let windows = vec![window("0", "main"), window("1", "impl")];
    assert_eq!(
        plan_renames(&records, &windows, None),
        vec![Rename {
            index: "1".to_string(),
            new_name: "impl!".to_string()
        }]
    );
}

#[test]
fn working_state_strips_any_existing_suffix() {
    let records = vec![record("impl", State::Working)];
    let windows = vec![window("1", "impl!")];
    assert_eq!(
        plan_renames(&records, &windows, None),
        vec![Rename {
            index: "1".to_string(),
            new_name: "impl".to_string()
        }]
    );
}

#[test]
fn empty_inputs_produce_no_renames() {
    assert!(plan_renames(&[], &[], None).is_empty());
}

#[test]
fn matches_by_window_id_when_name_has_drifted_from_agent() {
    let mut drifted = record("impl", State::Approval);
    drifted.window_id = Some("@1".to_string());
    let windows = vec![window("1", "project")];
    assert_eq!(
        plan_renames(&[drifted], &windows, None),
        vec![Rename {
            index: "1".to_string(),
            new_name: "project!".to_string()
        }]
    );
}

#[test]
fn window_id_takes_priority_over_a_coincidental_name_match() {
    let mut record_for_other_window = record("impl", State::Approval);
    record_for_other_window.window_id = Some("@2".to_string());
    let windows = vec![window("1", "impl")];
    assert!(plan_renames(&[record_for_other_window], &windows, None).is_empty());
}

#[test]
fn window_id_match_requires_agreeing_server_pid() {
    let mut stale = record("impl", State::Approval);
    stale.window_id = Some("@1".to_string());
    stale.server_pid = Some("111".to_string());
    let windows = vec![window("1", "impl")];
    assert!(plan_renames(&[stale], &windows, Some("222")).is_empty());
}

#[test]
fn window_id_match_fails_closed_when_current_server_pid_unreadable() {
    let mut stale = record("impl", State::Approval);
    stale.window_id = Some("@1".to_string());
    stale.server_pid = Some("111".to_string());
    let windows = vec![window("1", "impl")];
    assert!(plan_renames(&[stale], &windows, None).is_empty());
}

#[test]
fn window_id_match_succeeds_when_server_pid_agrees() {
    let mut record = record("impl", State::Approval);
    record.window_id = Some("@1".to_string());
    record.server_pid = Some("111".to_string());
    let windows = vec![window("1", "impl")];
    assert_eq!(
        plan_renames(&[record], &windows, Some("111")),
        vec![Rename {
            index: "1".to_string(),
            new_name: "impl!".to_string()
        }]
    );
}

#[test]
fn first_matching_record_counts() {
    let records = vec![record("plan", State::Error), record("impl", State::Done), record("IMPL", State::Error)];
    let windows = vec![window("1", "impl")];
    assert_eq!(plan_renames(&records, &windows, None)[0].new_name, "impl\u{2713}");
}

#[test]
fn only_ascii_case_is_ignored() {
    assert!(agent_matches("IMPL?!", "impl"));
    assert!(!agent_matches("implement", "impl"));
    assert!(!agent_matches("\u{c9}t\u{e9}", "\u{e9}t\u{e9}"));
    assert!(agent_matches("\u{e9}T\u{e9}", "\u{e9}t\u{e9}"));
}

#[test]
fn record_with_pid_but_no_window_id_matches_by_name() {
    let mut named = record("impl", State::Done);
    named.server_pid = Some("111".to_string());
    assert!(window_matches_record(&window("4", "impl"), &named, Some("222")));
    assert!(!window_matches_record(&window("4", "plan"), &named, Some("111")));
}

#[test]
fn second_sync_has_nothing_to_rename() {
    let mut by_id = record("impl", State::Error);
    by_id.window_id = Some("@2".to_string());
    let records = vec![record("plan", State::Approval), by_id, record("main", State::Working)];
    let mut windows = vec![window("0", "main?"), window("1", "Plan"), window("2", "project!"), window("3", "other!")];
    let renames = plan_renames(&records, &windows, Some("1"));
    assert_eq!(renames.len(), 3);
    for rename in &renames {
        for w in windows.iter_mut() {
            if w.index == rename.index {
                w.name = rename.new_name.clone();
            }
        }
    }
    let names: Vec<&str> = windows.iter().map(|w| w.name.as_str()).collect();
    assert_eq!(names, ["main", "Plan!", "project\u{2717}", "other!"]);
    assert!(plan_renames(&records, &windows, Some("1")).is_empty());
}
