use bergr::init::{
    berger_config_dir, harness_backup_path, harness_settings_path, is_cargo_build_dir,
    is_source_line_for, needs_backup, resolve_berger_bin, sources_path, sourcing_report,
    tmux_conf_contents, updated_settings, validate_home, xdg_subdir, BinError, DirError,
};
use bergr::json::Json;
use bergr::shell::{shell_quote, shell_unquote_body};

fn bytes(text: &str) -> Vec<u8> {
    text.as_bytes().to_vec()
}

#[test]
fn validate_home_accepts_absolute_path() {
    assert_eq!(
        validate_home(Some(bytes("/home/jane"))),
        Ok(bytes("/home/jane"))
    );
}

#[test]
fn validate_home_rejects_relative_path() {
    assert!(validate_home(Some(bytes("work"))).is_err());
}

#[test]
fn validate_home_rejects_empty() {
    assert!(validate_home(Some(bytes(""))).is_err());
}

#[test]
fn validate_home_rejects_unset() {
    assert!(validate_home(None).is_err());
    assert_eq!(validate_home(None), Err("HOME is not set or is not an absolute path"));
}

#[test]
fn rejects_cargo_debug_and_release_output() {
    assert!(is_cargo_build_dir("/repo/target/debug/berger".as_bytes()));
    assert!(is_cargo_build_dir("/repo/target/release/berger".as_bytes()));
}

#[test]
fn rejects_cross_compiled_cargo_output() {
    assert!(is_cargo_build_dir(
        "/repo/target/x86_64-unknown-linux-gnu/release/berger".as_bytes()
    ));
}

#[test]
fn allows_target_as_an_unrelated_path_component() {
    assert!(!is_cargo_build_dir("/opt/target/bin/berger".as_bytes()));
    assert!(!is_cargo_build_dir(
        "/home/target/.local/bin/berger".as_bytes()
    ));
}

#[test]
fn allows_installed_path_with_no_target_component() {
    assert!(!is_cargo_build_dir(
        "/home/schimetschka/.local/bin/berger".as_bytes()
    ));
}

#[test]
fn build_dir_is_seen_through_odd_slashes() {
    assert!(is_cargo_build_dir(b"target//./debug"));
    assert!(is_cargo_build_dir(b"./target/\xff/release/berger"));
    assert!(!is_cargo_build_dir(b"/target/a/b/release/berger"));
    assert!(!is_cargo_build_dir(b"/debug/target"));
    assert!(!is_cargo_build_dir(b""));
}

#[test]
fn binary_outside_a_build_dir_is_resolved() {
    assert_eq!(resolve_berger_bin(bytes("/x/\u{fc}/berger")), Ok("/x/\u{fc}/berger".to_string()));
    assert_eq!(resolve_berger_bin(bytes("/r/target/debug/berger")), Err(BinError::BuildDir));
    assert_eq!(resolve_berger_bin(b"/x/\xff/berger".to_vec()), Err(BinError::NotUtf8));
    assert_eq!(resolve_berger_bin(b"/\xff/target/debug/berger".to_vec()), Err(BinError::BuildDir));
}

#[test]
fn tmux_conf_uses_absolute_path_and_session_flag() {
    let conf = tmux_conf_contents("/home/schimetschka/.local/bin/berger");
    assert!(conf.contains("'/home/schimetschka/.local/bin/berger' sync --session"));
    assert!(conf.contains("allow-rename off"));
}

#[test]
fn tmux_conf_quotes_path_with_spaces() {
    let conf = tmux_conf_contents("/Users/Jane Doe/.local/bin/berger");
    assert!(conf.contains("'/Users/Jane Doe/.local/bin/berger' sync --session"));
}

#[test]
fn tmux_conf_quotes_expanded_session_name() {
    let conf = tmux_conf_contents("/x/berger");
    assert!(conf.contains("sync --session #{q:session_name}"));
}

#[test]
fn tmux_conf_escapes_path_with_single_quote() {
    let conf = tmux_conf_contents("/Users/Jane O'Connor/.local/bin/berger");
    assert!(conf.contains("'/Users/Jane O'\\''Connor/.local/bin/berger' sync --session"));
}

#[test]
fn tmux_conf_is_exactly_this() {
    assert_eq!(
        tmux_conf_contents("/x/berger"),
        "# ~/.config/berger/tmux.conf \u{2014} managed by `berger init`, do not edit\n\
         set -g allow-rename off\n\
         set -g automatic-rename off\n\
         bind-key M run-shell \"'/x/berger' sync --session #{q:session_name}\"\n"
    );
}

#[test]
fn shell_quote_escapes_embedded_single_quotes() {
    assert_eq!(shell_quote("plain"), "'plain'");
    assert_eq!(shell_quote("has'quote"), "'has'\\''quote'");
}

#[test]
fn unquoting_undoes_quoting() {
    for text in ["", "plain", "'", "''", "\\'", "'\\''", "a'\\''b\\", "\u{2713}'\u{e9}"] {
        let quoted = shell_quote(text);
        let body = &quoted[1..quoted.len() - 1];
        assert_eq!(shell_unquote_body(body), text);
    }
    assert_eq!(shell_unquote_body("'\\'"), "'\\'");
    assert_eq!(shell_unquote_body("''\\''"), "''");
}

#[test]
fn xdg_subdir_prefers_xdg_var_when_set() {
    let home = Some(bytes("/home/jane"));
    assert_eq!(
        xdg_subdir(home.clone(), home, ".cache", "berger"),
        Ok(bytes("/home/jane/berger")),
        "HOME is always set, so it should be used verbatim as the XDG base"
    );
}

#[test]
fn xdg_subdir_falls_back_when_var_unset() {
    assert_eq!(
        xdg_subdir(None, Some(bytes("/home/jane")), ".cache", "berger"),
        Ok(bytes("/home/jane/.cache/berger"))
    );
}

#[test]
fn xdg_subdir_falls_back_when_var_relative() {
    let relative = Some(bytes("relative/cache"));
    let result = xdg_subdir(relative, Some(bytes("/home/jane")), ".cache", "berger");
    assert_eq!(result, Ok(bytes("/home/jane/.cache/berger")));
}

#[test]
fn xdg_subdir_says_why_it_fails() {
    assert_eq!(
        xdg_subdir(Some(b"/\xff".to_vec()), Some(bytes("/home/jane")), ".cache", "berger"),
        Err(DirError::NotUtf8)
    );
    assert_eq!(xdg_subdir(None, None, ".cache", "berger"), Err(DirError::NoHome));
    assert_eq!(
        xdg_subdir(Some(bytes("")), Some(bytes("work")), ".cache", "berger"),
        Err(DirError::NoHome)
    );
}

#[test]
fn config_dir_is_below_dot_config() {
    assert_eq!(
        berger_config_dir(None, Some(bytes("/home/jane"))),
        Ok(bytes("/home/jane/.config/berger"))
    );
    assert_eq!(berger_config_dir(Some(bytes("/etc/xdg/")), None), Ok(bytes("/etc/xdg/berger")));
}

#[test]
fn settings_and_their_backup_lie_side_by_side() {
    assert_eq!(harness_settings_path(b"/home/jane", "coder"), bytes("/home/jane/.coder/settings.json"));
    assert_eq!(
        harness_backup_path(b"/home/jane", "coder"),
        bytes("/home/jane/.coder/settings.json.berger-bak")
    );
    assert!(needs_backup(true, false));
    assert!(!needs_backup(true, true));
    assert!(!needs_backup(false, false));
}

#[test]
fn missing_settings_count_as_an_empty_object() {
    let from_nothing = updated_settings(None, "/x/berger").unwrap();
    let from_empty = updated_settings(Some(Json::Object(vec![])), "/x/berger").unwrap();
    assert_eq!(from_nothing, from_empty);
    let stop = from_nothing.get("hooks").unwrap().get("Stop").unwrap();
    let hook = &stop.as_array().unwrap()[0].get("hooks").unwrap().as_array().unwrap()[0];
    assert_eq!(hook.get("command").unwrap().as_str(), Some("'/x/berger' event"));
    assert_eq!(
        updated_settings(Some(Json::Null), "/x/berger"),
        Err("settings.json root must be an object".to_string())
    );
}

#[test]
fn sources_path_ignores_commented_out_line() {
    let path = "/home/x/.config/amux/tmux.conf";
    let conf = "# source-file /home/x/.config/amux/tmux.conf\n";
    assert!(!sources_path(conf, path));
}

#[test]
fn sources_path_detects_real_directive() {
    let path = "/home/x/.config/amux/tmux.conf";
    let conf = "set -g mouse on\nsource-file /home/x/.config/amux/tmux.conf\n";
    assert!(sources_path(conf, path));
}

#[test]
fn sources_path_ignores_unrelated_path_with_matching_substring() {
    let path = "/home/x/.config/amux/tmux.conf";
    let conf = "source-file /home/x/.config/amux-backup/tmux.conf\n";
    assert!(!sources_path(conf, path));
}

#[test]
fn sources_path_detects_quoted_directive() {
    let path = "/home/x/.config/amux/tmux.conf";
    let conf = "source-file \"/home/x/.config/amux/tmux.conf\"\n";
    assert!(sources_path(conf, path));
}

#[test]
fn source_line_is_trimmed() {
    assert!(is_source_line_for("\t source-file\u{a0}'/a b' \r", "/a b"));
    assert!(is_source_line_for("source-file \"'/a'\"", "/a"));
    assert!(!is_source_line_for("source-file '\"/a\"'", "/a"));
    assert!(is_source_line_for("source-file", ""));
    assert!(is_source_line_for("source-file \"\"", ""));
    assert!(!is_source_line_for("sourcefile /a", "/a"));
}

#[test]
fn report_suggests_the_line_until_it_is_there() {
    let conf = "/home/x/.config/berger/tmux.conf";
    let report = sourcing_report("/home/x/.tmux.conf", "", conf);
    assert_eq!(
        report,
        "berger init: add this to /home/x/.tmux.conf, then run `tmux source-file \
         /home/x/.tmux.conf`:\n    source-file \"/home/x/.config/berger/tmux.conf\""
    );
    let suggested = report.lines().last().unwrap();
    assert_eq!(
        sourcing_report("/home/x/.tmux.conf", suggested, conf),
        "berger init: /home/x/.tmux.conf already sources berger's tmux config"
    );
}

#[test]
fn source_line_is_recognized_quoted_or_not() {
    for line in ["source-file /a/b", "  source-file\t'/a/b' ", "source-file  \"/a/b\"\t"] {
        assert!(is_source_line_for(line, "/a/b"));
    }
    assert!(is_source_line_for("source-file '\"a'", "\"a"));
    assert!(!is_source_line_for("source-file '/a/b", "/a"));
}
