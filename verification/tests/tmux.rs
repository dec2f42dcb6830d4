use bergr::tmux::{
    display_message_args, display_message_reply, list_windows_args, list_windows_reply,
    parse_window_list, rename_current_window_args, rename_window_args,
    rename_window_by_id_args, strip_line_ending,
    CommandOutput, Window,
};

fn output(success: bool, stdout: &[u8]) -> Option<CommandOutput> {
    Some(CommandOutput { success, stdout: stdout.to_vec() })
}

#[test]
fn parses_window_list_output() {
    let text = "@0:0:main\n@1:1:impl!\n@2:2:plan\n";
    assert_eq!(
        parse_window_list(text),
        vec![
            Window {
                id: "@0".to_string(),
                index: "0".to_string(),
                name: "main".to_string()
            },
            Window {
                id: "@1".to_string(),
                index: "1".to_string(),
                name: "impl!".to_string()
            },
            Window {
                id: "@2".to_string(),
                index: "2".to_string(),
                name: "plan".to_string()
            },
        ]
    );
}

#[test]
fn parses_empty_window_list() {
    assert!(parse_window_list("").is_empty());
}

#[test]
fn window_name_containing_colon_is_kept_intact() {
    let windows = parse_window_list("@1:1:foo:bar");
    assert_eq!(windows[0].name, "foo:bar");
}

#[test]
fn lines_that_are_no_windows_are_passed_over() {
    let windows = parse_window_list("@1:1\nnothing\n@2:2:\r\n::\n\n");
    assert_eq!(windows.len(), 2);
    assert_eq!(windows[0].id, "@2");
    assert_eq!(windows[0].name, "");
    assert_eq!(windows[1].index, "");
}

#[test]
fn list_windows_args_targets_the_given_session() {
    assert_eq!(
        list_windows_args("myproject"),
        vec![
            "list-windows",
            "-t",
            "myproject",
            "-F",
            "#{window_id}:#{window_index}:#{window_name}"
        ]
    );
}

#[test]
fn rename_window_args_targets_session_and_index() {
    assert_eq!(
        rename_window_args("myproject", "1", "impl!"),
        vec!["rename-window", "-t", "myproject:1", "impl!"]
    );
}

#[test]
fn rename_window_by_id_args_targets_the_id_alone() {
    assert_eq!(
        rename_window_by_id_args("@3", "impl!"),
        vec!["rename-window", "-t", "@3", "impl!"]
    );
}

#[test]
fn display_message_args_print_the_format() {
    assert_eq!(display_message_args("#S"), vec!["display-message", "-p", "#S"]);
}

#[test]
fn one_line_ending_is_stripped() {
    assert_eq!(strip_line_ending("main\n".to_string()), "main");
    assert_eq!(strip_line_ending("main\r\n".to_string()), "main");
    assert_eq!(strip_line_ending("main\n\n".to_string()), "main\n");
    assert_eq!(strip_line_ending("main\r".to_string()), "main\r");
    assert_eq!(strip_line_ending("\n".to_string()), "");
    assert_eq!(strip_line_ending("".to_string()), "");
}

#[test]
fn reply_is_the_line_that_was_printed() {
    assert_eq!(display_message_reply(output(true, b"my project\n")), Some("my project".to_string()));
    assert_eq!(display_message_reply(output(true, "\u{fc}\n".as_bytes())), Some("\u{fc}".to_string()));
}

#[test]
fn failed_empty_or_garbled_reply_is_none() {
    assert_eq!(display_message_reply(None), None);
    assert_eq!(display_message_reply(output(false, b"main\n")), None);
    assert_eq!(display_message_reply(output(true, b"\n")), None);
    assert_eq!(display_message_reply(output(true, b"")), None);
    assert_eq!(display_message_reply(output(true, b"\xff\n")), None);
}

#[test]
fn window_list_reply_is_parsed_when_it_succeeded() {
    assert_eq!(list_windows_reply(output(true, b"@0:0:main\n")).unwrap().len(), 1);
    assert_eq!(list_windows_reply(output(true, b"")).unwrap().len(), 0);
    assert!(list_windows_reply(output(false, b"@0:0:main\n")).is_none());
    assert!(list_windows_reply(output(true, b"@0:0:\xc3\n")).is_none());
    assert!(list_windows_reply(None).is_none());
}

#[test]
fn current_window_is_renamed_by_id_or_by_index() {
    assert_eq!(
        rename_current_window_args("s", Some("@3"), Some("1"), "impl!"),
        Some(rename_window_by_id_args("@3", "impl!"))
    );
    assert_eq!(
        rename_current_window_args("s", None, Some("1"), "impl!"),
        Some(rename_window_args("s", "1", "impl!"))
    );
    assert_eq!(rename_current_window_args("s", None, None, "impl!"), None);
}

#[test]
fn printed_windows_are_read_back() {
    let windows = vec![
        Window { id: "@0".to_string(), index: "0".to_string(), name: "a:b: c".to_string() },
        Window { id: "@7".to_string(), index: "12".to_string(), name: "".to_string() },
    ];
    let printed: String =
        windows.iter().map(|w| format!("{}:{}:{}\n", w.id, w.index, w.name)).collect();
    assert_eq!(parse_window_list(&printed), windows);
}
