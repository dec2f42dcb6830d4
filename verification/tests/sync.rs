use bergr::state::{State, StateRecord};
use bergr::sync::{is_orphaned, plan_sync, prune_orphaned};
use bergr::tmux::Window;

fn record(agent: &str) -> StateRecord {
    StateRecord {
        agent: agent.to_string(),
        state: State::Working,
        updated_at: "t".to_string(),
        harness: "coder".to_string(),
        session: "s".to_string(),
        window: agent.to_string(),
        window_id: None,
        server_pid: None,
    }
}

fn record_with_window_id(agent: &str, window_id: &str) -> StateRecord {
    StateRecord {
        window_id: Some(window_id.to_string()),
        ..record(agent)
    }
}

fn window(id: &str, name: &str) -> Window {
    Window {
        id: id.to_string(),
        index: "0".to_string(),
        name: name.to_string(),
    }
}

#[test]
fn orphaned_record_has_no_live_window() {
    let windows = [window("@1", "impl!")];
    assert!(!is_orphaned(&record("impl"), &windows, None));
    assert!(is_orphaned(&record("gone"), &windows, None));
}

#[test]
fn no_orphans_when_every_record_has_a_window() {
    let windows = [window("@1", "impl")];
    assert!(!is_orphaned(&record("impl"), &windows, None));
}

#[test]
fn matching_is_case_insensitive() {
    let windows = [window("@1", "Impl!")];
    assert!(!is_orphaned(&record("impl"), &windows, None));
}

#[test]
fn window_id_retains_record_when_window_is_only_renamed() {
    let windows = [window("@1", "project")];
    assert!(!is_orphaned(
        &record_with_window_id("impl", "@1"),
        &windows,
        None
    ));
}

#[test]
fn window_id_orphans_record_when_window_is_actually_closed() {
    let windows = [window("@2", "other")];
    assert!(is_orphaned(
        &record_with_window_id("impl", "@1"),
        &windows,
        None
    ));
}

#[test]
fn window_id_orphans_record_when_server_pid_mismatches_and_name_does_not_match() {
    let mut stale = record_with_window_id("impl", "@1");
    stale.server_pid = Some("111".to_string());
    let windows = [window("@1", "unrelated")];
    assert!(is_orphaned(&stale, &windows, Some("222")));
}

#[test]
fn window_id_falls_back_to_name_when_server_pid_mismatches() {
    let mut stale = record_with_window_id("impl", "@1");
    stale.server_pid = Some("111".to_string());
    let windows = [window("@1", "impl")];
    assert!(!is_orphaned(&stale, &windows, Some("222")));
}

#[test]
fn name_alone_does_not_retain_a_record_with_another_window_id() {
    let mut stale = record_with_window_id("impl", "@1");
    stale.server_pid = Some("111".to_string());
    let windows = [window("@2", "impl")];
    assert!(is_orphaned(&stale, &windows, Some("222")));
    assert!(is_orphaned(&stale, &windows, Some("111")));
}

#[test]
fn prune_orphaned_deletes_by_the_path_the_record_was_read_from() {
    let path = "stale-name.state";
    let records = vec![(path, record("impl"))];
    assert_eq!(prune_orphaned(&records, &[], None), [&path]);
}

#[test]
fn only_orphans_are_pruned() {
    let records = vec![("a", record("gone")), ("b", record("impl")), ("c", record("left"))];
    let windows = [window("@1", "impl!")];
    assert_eq!(prune_orphaned(&records, &windows, Some("1")), [&"a", &"c"]);
}

#[test]
fn sync_prunes_only_when_the_server_is_known() {
    let mut done = record("impl");
    done.state = State::Done;
    let records = vec![("gone.state", record("gone")), ("impl.state", done)];
    let windows = [window("@1", "impl")];
    let plan = plan_sync(&records, &windows, Some("9"));
    assert_eq!(plan.renames.len(), 1);
    assert_eq!(plan.renames[0].new_name, "impl\u{2713}");
    assert_eq!(plan.prune, [&"gone.state"]);
    let plan = plan_sync(&records, &windows, None);
    assert_eq!(plan.renames.len(), 1);
    assert!(plan.prune.is_empty());
}
