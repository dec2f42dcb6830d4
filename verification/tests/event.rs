use bergr::cli::{parse_args, Command};
use bergr::event::{
    current_window, directory_name, find_record_path_for_window, plan_clear, plan_update,
    resolve_agent, timestamp,
};
use bergr::hook::HookPayload;
use bergr::reconcile::plan_renames;
use bergr::state::{state_for_event, State, StateRecord};
use bergr::tmux::Window;

fn text(s: &str) -> String {
    s.to_string()
}

fn window(id: &str, name: &str) -> Window {
    Window { id: text(id), index: text("0"), name: text(name) }
}

fn args(list: &[&str]) -> Vec<String> {
    list.iter().map(|s| text(s)).collect()
}

fn record(agent: &str, window_id: Option<&str>) -> StateRecord {
    StateRecord {
        agent: text(agent),
        state: State::Working,
        updated_at: text("t"),
        harness: text("coder"),
        session: text("s"),
        window: text(agent),
        window_id: window_id.map(text),
        server_pid: None,
    }
}

#[test]
fn agent_is_the_variable_then_the_window_then_the_directory() {
    assert_eq!(resolve_agent(Some("impl!"), Some("main"), Some("dir")), "impl");
    assert_eq!(resolve_agent(Some(""), Some("main\u{2713}"), Some("dir")), "main");
    assert_eq!(resolve_agent(None, Some("main"), None), "main");
    assert_eq!(resolve_agent(None, None, Some("dir!")), "dir!");
    assert_eq!(resolve_agent(None, None, None), "");
}

#[test]
fn current_window_needs_every_part() {
    let (id, index, name) = (Some(text("@1")), Some(text("2")), Some(text("impl")));
    assert_eq!(
        current_window(id.clone(), index.clone(), name.clone()),
        Some(Window { id: text("@1"), index: text("2"), name: text("impl") })
    );
    assert_eq!(current_window(None, index.clone(), name.clone()), None);
    assert_eq!(current_window(id.clone(), None, name), None);
    assert_eq!(current_window(id, index, None), None);
}

#[test]
fn record_is_found_by_the_window_it_belongs_to() {
    let records = vec![
        ("plan.state", record("plan", None)),
        ("drifted.state", record("impl", Some("@1"))),
        ("later.state", record("project", None)),
    ];
    assert_eq!(
        find_record_path_for_window(&records, &window("@1", "project"), None),
        Some(&"drifted.state")
    );
    assert_eq!(
        find_record_path_for_window(&records, &window("@2", "project"), None),
        Some(&"later.state")
    );
    assert_eq!(find_record_path_for_window(&records, &window("@2", "impl"), None), None);
}

#[test]
fn session_end_restores_the_name_and_deletes_the_record() {
    let records = vec![("x.state", record("impl", Some("@1")))];
    let plan = plan_clear(&records, window("@1", "project!"), None);
    assert_eq!(plan.delete, Some(&"x.state"));
    assert_eq!(plan.window_id, "@1");
    assert_eq!(plan.new_name, "project");
    let plan = plan_clear(&records, window("@7", "impl!"), None);
    assert_eq!(plan.delete, None);
    assert_eq!(plan.new_name, "impl");
}

#[test]
fn update_writes_a_record_that_is_read_back_and_needs_no_sync() {
    let plan = plan_update(
        Some("/cache".as_bytes()),
        None,
        text("My/Session"),
        text("impl"),
        State::Approval,
        text("2026-08-19T12:00:00Z"),
        text("coder"),
        Some(text("@1")),
        Some(text("111")),
    )
    .ok()
    .unwrap();
    assert_eq!(plan.path, "/cache/bergr/My%2fSession/impl.state".as_bytes());
    assert_eq!(plan.new_name, "impl!");
    let record = StateRecord::from_kv(&plan.contents).unwrap();
    assert_eq!(record.agent, "impl");
    assert_eq!(record.state, State::Approval);
    assert_eq!(record.harness, "coder");
    assert_eq!(record.session, "My/Session");
    assert_eq!(record.window, "impl!");
    assert_eq!(record.window_id, Some(text("@1")));
    assert_eq!(record.server_pid, Some(text("111")));
    assert!(plan_renames(&[record], &[window("@1", &plan.new_name)], Some("111")).is_empty());
}

#[test]
fn update_needs_somewhere_to_write() {
    let plan = plan_update(
        None,
        None,
        text("s"),
        text("a"),
        State::Done,
        text("t"),
        text("coder"),
        None,
        None,
    );
    assert_eq!(plan.err(), Some("neither XDG_CACHE_HOME nor an absolute HOME is set"));
}

#[test]
fn payload_decides_the_state() {
    let payload = HookPayload { hook_event_name: text("Stop"), session_id: None };
    assert_eq!(state_for_event(&payload.hook_event_name), Some(State::Done));
}

#[test]
fn timestamp_is_trimmed_text() {
    assert_eq!(timestamp(b"2026-08-19T12:00:00Z\n".to_vec()), Some(text("2026-08-19T12:00:00Z")));
    assert_eq!(timestamp("\u{2003}t\u{3000}".as_bytes().to_vec()), Some(text("t")));
    assert_eq!(timestamp(b" \n".to_vec()), Some(text("")));
    assert_eq!(timestamp(b"\xfe".to_vec()), None);
}

#[test]
fn commands_are_told_apart() {
    assert_eq!(parse_args(&args(&["init"])), Command::Init);
    assert_eq!(parse_args(&args(&["event", "ignored"])), Command::Event);
    assert_eq!(parse_args(&args(&["reset"])), Command::Reset);
    assert_eq!(parse_args(&args(&[])), Command::NoCommand);
    assert_eq!(parse_args(&args(&["mark"])), Command::UnknownCommand(text("mark")));
}

#[test]
fn sync_takes_the_last_session() {
    assert_eq!(
        parse_args(&args(&["sync", "--session", "a"])),
        Command::Sync { session: text("a") }
    );
    assert_eq!(
        parse_args(&args(&["sync", "--session", "a", "--session", "--session"])),
        Command::Sync { session: text("--session") }
    );
    assert_eq!(parse_args(&args(&["sync"])), Command::SyncWithoutSession);
    assert_eq!(
        parse_args(&args(&["sync", "--session", "a", "--session"])),
        Command::SyncWithoutSession
    );
    assert_eq!(
        parse_args(&args(&["sync", "--session", "a", "b"])),
        Command::UnknownSyncArgument(text("b"))
    );
}

#[test]
fn event_deletes_the_record_that_a_sync_shows() {
    let mut first = record("impl", None);
    first.state = State::Error;
    let mut second = record("IMPL", None);
    second.state = State::Done;
    let shown = window("@1", "impl");
    let records = vec![("a", record("plan", None)), ("b", first.clone()), ("c", second.clone())];
    assert_eq!(find_record_path_for_window(&records, &shown, None), Some(&"b"));
    let renames = plan_renames(&[record("plan", None), first, second], &[shown], None);
    assert_eq!(renames[0].new_name, "impl\u{2717}");
}

#[test]
fn directory_is_named_by_its_last_name() {
    assert_eq!(directory_name(b"/home/jane/\xc3\xbcber"), Some(text("\u{fc}ber")));
    assert_eq!(directory_name(b"/home/jane/a\xffb/"), Some(text("a\u{fffd}b")));
    assert_eq!(directory_name(b"/"), None);
    assert_eq!(directory_name(b"/home/.."), None);
}
