//! Installing berger: where it may run from, what it writes, and where.

use crate::json::{member_of, parse, render, text_of_value, value_of_text, Json, JsonView};
use crate::path::{components, has_root, is_name, is_rooted, join, joined, names, same_bytes};
use crate::path::{law_join_adds_names, law_join_adds_one_name, law_join_writes_one_slash};
use crate::settings::{hook_command, hook_command_for, law_merge_hooks_every_event_by_name};
use crate::settings::{law_every_state_event_is_hooked, law_refused_settings_are_told_why};
use crate::settings::{law_merge_succeeds_on_the_right_shape, law_unrelated_settings_survive};
use crate::settings::{event_entries, foreign_parts, hooks_object, merge_hooks, merged};
use crate::settings::runs_once_on;
use crate::shell::{law_quoted_is_one_shell_word, quoted, shell_quote, shell_word};
use crate::state::event_state;
use crate::text::{after_prefix, lines, lines_of, same_text, strip_prefix, trim, trimmed, Trim};
use crate::text::{fits_line, is_white_space, lemma_lines_append, lemma_trimmed_is, utf8_text};
use vstd::prelude::*;
use vstd::utf8::{decode_utf8, encode_utf8, valid_utf8};

verus! {

/// The view of an optional path.
pub open spec fn optional_path(path: Option<Vec<u8>>) -> Option<Seq<u8>> {
    match path {
        Some(p) => Some(p@),
        None => None,
    }
}

/// The tmux configuration for the binary at `berger_bin`.
pub open spec fn tmux_conf_for(berger_bin: Seq<char>) -> Seq<char> {
    "# ~/.config/berger/tmux.conf \u{2014} managed by `berger init`, do not edit\n"@
        + "set -g allow-rename off\n"@ + "set -g automatic-rename off\n"@
        + "bind-key M run-shell \""@ + quoted(berger_bin)
        + " sync --session #{q:session_name}\"\n"@
}

/// The tmux configuration that turns automatic renaming off and binds a key to a sync.
///
/// `#{q:session_name}` asks tmux itself to shell-quote the expanded session name:
/// `berger_bin` is quoted up front since it's known before tmux ever expands this text,
/// but the session name isn't known until expansion time, so only tmux's own format
/// modifier can quote it safely (session names may contain spaces, quotes, `$`,
/// backticks, or `;`; tmux only rejects `.` and `:`).
pub fn tmux_conf_contents(berger_bin: &str) -> (conf: String)
    ensures
        conf@ == tmux_conf_for(berger_bin@),
{
    let mut conf =
        "# ~/.config/berger/tmux.conf \u{2014} managed by `berger init`, do not edit\n".to_owned();
    conf.append("set -g allow-rename off\n");
    conf.append("set -g automatic-rename off\n");
    conf.append("bind-key M run-shell \"");
    conf.append(shell_quote(berger_bin).as_str());
    conf.append(" sync --session #{q:session_name}\"\n");
    conf
}

/// Requires `value` to be an absolute path: a relative home (e.g. `work`) would otherwise
/// make callers write settings and config paths below the current directory instead of
/// the user's home.
pub fn validate_home(value: Option<Vec<u8>>) -> (home: Result<Vec<u8>, &'static str>)
    ensures
        match home {
            Ok(path) => value == Some(path) && is_rooted(path@),
            Err(message) => !(value matches Some(path) && is_rooted(path@)) && message@
                == "HOME is not set or is not an absolute path"@,
        },
{
    match value {
        Some(path) => if has_root(&path) {
            Ok(path)
        } else {
            Err("HOME is not set or is not an absolute path")
        },
        None => Err("HOME is not set or is not an absolute path"),
    }
}

/// Whether a name is that of one of Cargo's profiles.
pub open spec fn is_profile(name: Seq<u8>) -> bool {
    name == encode_utf8("debug"@) || name == encode_utf8("release"@)
}

/// Whether a path leads through one of Cargo's output directories: a `target` with a
/// profile one or two names after it.
pub open spec fn in_build_dir(exe: Seq<u8>) -> bool {
    let names = components(exe);
    exists|i: int|
        0 <= i < names.len() && #[trigger] names[i] == encode_utf8("target"@) && ((i + 1
            < names.len() && is_profile(names[i + 1])) || (i + 2 < names.len() && is_profile(
            names[i + 2],
        )))
}

fn names_profile(name: &[u8]) -> (profile: bool)
    ensures
        profile == is_profile(name@),
{
    same_bytes(name, "debug".as_bytes()) || same_bytes(name, "release".as_bytes())
}

/// A Cargo build output directory: `target/{debug,release}/...`, or the cross-compiled
/// `target/<triple>/{debug,release}/...`, not merely any path with a `target` component
/// (e.g. `/opt/target/bin/berger` is a legitimate install path). A custom Cargo profile
/// name isn't detected; this is a best-effort guard.
pub fn is_cargo_build_dir(exe: &[u8]) -> (build_dir: bool)
    ensures
        build_dir == in_build_dir(exe@),
{
    let names = names(exe);
    let ghost all = components(exe@);
    for i in 0..names.len()
        invariant
            names.deep_view() == all,
            all == components(exe@),
            forall|k: int|
                0 <= k < i ==> !(#[trigger] all[k] == encode_utf8("target"@) && ((k + 1 < all.len()
                    && is_profile(all[k + 1])) || (k + 2 < all.len() && is_profile(all[k + 2])))),
    {
        assert(all[i as int] == names@[i as int]@);
        if same_bytes(&names[i], "target".as_bytes()) {
            let after: usize = names.len() - i;
            if after > 1 {
                assert(all[i + 1] == names@[i + 1]@);
                if names_profile(&names[i + 1]) {
                    return true;
                }
            }
            if after > 2 {
                assert(all[i + 2] == names@[i + 2]@);
                if names_profile(&names[i + 2]) {
                    return true;
                }
            }
        }
    }
    false
}

/// Why berger cannot be installed from where it is.
#[derive(Debug, Clone, Copy, PartialEq, Eq, Structural)]
pub enum BinError {
    /// It lies in a build directory.
    BuildDir,
    /// Its path is not valid UTF-8.
    NotUtf8,
}

/// The path of the binary as text, unless it lies in a build directory.
pub fn resolve_berger_bin(exe: Vec<u8>) -> (bin: Result<String, BinError>)
    ensures
        match bin {
            Ok(text) => !in_build_dir(exe@) && valid_utf8(exe@) && text@ == decode_utf8(exe@),
            Err(BinError::BuildDir) => in_build_dir(exe@),
            Err(BinError::NotUtf8) => !in_build_dir(exe@) && !valid_utf8(exe@),
        },
{
    if is_cargo_build_dir(&exe) {
        return Err(BinError::BuildDir);
    }
    match utf8_text(exe) {
        Some(text) => Ok(text),
        None => Err(BinError::NotUtf8),
    }
}

/// Why a directory cannot be told.
#[derive(Debug, Clone, Copy, PartialEq, Eq, Structural)]
pub enum DirError {
    /// The variable that names it is not valid UTF-8.
    NotUtf8,
    /// It is looked for below the home directory, which is not set or not absolute.
    NoHome,
}

/// The directory `name` below `xdg`, or below the `fallback` of `home` where `xdg` is not
/// set or not an absolute path.
pub open spec fn xdg_subdir_of(
    xdg: Option<Seq<u8>>,
    home: Option<Seq<u8>>,
    fallback: Seq<char>,
    name: Seq<char>,
) -> Result<Seq<u8>, DirError> {
    if xdg is Some && !valid_utf8(xdg->0) {
        Err(DirError::NotUtf8)
    } else if xdg is Some && is_rooted(xdg->0) {
        Ok(joined(xdg->0, encode_utf8(name)))
    } else if home is Some && is_rooted(home->0) {
        Ok(joined(joined(home->0, encode_utf8(fallback)), encode_utf8(name)))
    } else {
        Err(DirError::NoHome)
    }
}

/// `$xdg_var/name`, falling back to `$HOME/home_fallback_dir/name` when the XDG variable
/// is unset, empty, or relative. Relative values are rejected rather than resolved against
/// the current directory, since `init` and `sync` can run from different ones.
pub fn xdg_subdir(
    xdg_var: Option<Vec<u8>>,
    home: Option<Vec<u8>>,
    home_fallback_dir: &str,
    name: &str,
) -> (dir: Result<Vec<u8>, DirError>)
    ensures
        match dir {
            Ok(path) => xdg_subdir_of(
                optional_path(xdg_var),
                optional_path(home),
                home_fallback_dir@,
                name@,
            ) == Ok::<Seq<u8>, DirError>(path@),
            Err(error) => xdg_subdir_of(
                optional_path(xdg_var),
                optional_path(home),
                home_fallback_dir@,
                name@,
            ) == Err::<Seq<u8>, DirError>(error),
        },
{
    if let Some(dir) = xdg_var {
        let rooted = has_root(&dir);
        match utf8_text(dir) {
            Some(text) => {
                proof {
                    vstd::utf8::decode_utf8_encode_utf8(dir@);
                }
                if rooted {
                    return Ok(join(text.as_str().as_bytes(), name.as_bytes()));
                }
            },
            None => {
                return Err(DirError::NotUtf8);
            },
        }
    }
    match validate_home(home) {
        Ok(home) => Ok(join(&join(&home, home_fallback_dir.as_bytes()), name.as_bytes())),
        Err(_) => Err(DirError::NoHome),
    }
}

/// Where berger's own configuration goes.
pub fn berger_config_dir(xdg_config_home: Option<Vec<u8>>, home: Option<Vec<u8>>) -> (dir: Result<
    Vec<u8>,
    DirError,
>)
    ensures
        match dir {
            Ok(path) => xdg_subdir_of(
                optional_path(xdg_config_home),
                optional_path(home),
                ".config"@,
                "berger"@,
            ) == Ok::<Seq<u8>, DirError>(path@),
            Err(error) => xdg_subdir_of(
                optional_path(xdg_config_home),
                optional_path(home),
                ".config"@,
                "berger"@,
            ) == Err::<Seq<u8>, DirError>(error),
        },
{
    xdg_subdir(xdg_config_home, home, ".config", "berger")
}

/// The directory below `home` that holds the settings of `harness`.
pub open spec fn harness_dir(home: Seq<u8>, harness: Seq<char>) -> Seq<u8> {
    joined(home, encode_utf8("."@ + harness))
}

/// Where the settings of `harness` lie.
pub fn harness_settings_path(home: &[u8], harness: &str) -> (path: Vec<u8>)
    ensures
        path@ == joined(harness_dir(home@, harness@), encode_utf8("settings.json"@)),
{
    let mut dir = ".".to_owned();
    dir.append(harness);
    join(&join(home, dir.as_str().as_bytes()), "settings.json".as_bytes())
}

/// Where the settings from before the first installation are kept.
pub fn harness_backup_path(home: &[u8], harness: &str) -> (path: Vec<u8>)
    ensures
        path@ == joined(harness_dir(home@, harness@), encode_utf8("settings.json.berger-bak"@)),
{
    let mut dir = ".".to_owned();
    dir.append(harness);
    join(&join(home, dir.as_str().as_bytes()), "settings.json.berger-bak".as_bytes())
}

/// Whether the settings are to be backed up: once, so that a later run does not clobber a
/// backup that predates any of berger's changes.
pub fn needs_backup(settings_exist: bool, backup_exists: bool) -> (needed: bool)
    ensures
        needed == (settings_exist && !backup_exists),
{
    settings_exist && !backup_exists
}

/// The settings to write for the binary at `berger_bin`, given those there are; a missing
/// file counts as an empty object.
pub fn updated_settings(existing: Option<Json>, berger_bin: &str) -> (updated: Result<Json, String>)
    ensures
        ({
            let before = match existing {
                Some(settings) => settings@,
                None => JsonView::Object(Map::empty()),
            };
            let (after, error) = merged(before, hook_command_for(berger_bin@));
            match updated {
                Ok(settings) => error is None && settings@ == after,
                Err(message) => error == Some(message@),
            }
        }),
{
    let mut settings = match existing {
        Some(settings) => settings,
        None => {
            let nothing = Json::Object(Vec::new());
            assert(nothing@ == JsonView::Object(Map::empty())) by {
                assert(nothing.members() == Seq::<(Seq<char>, JsonView)>::empty());
            }
            nothing
        },
    };
    match merge_hooks(&mut settings, hook_command(berger_bin).as_str()) {
        Ok(()) => Ok(settings),
        Err(message) => Err(message),
    }
}

/// Why settings cannot be updated.
#[derive(Debug, PartialEq, Eq)]
pub enum SettingsError {
    /// They are not JSON, with what is wrong.
    NotJson(String),
    /// They are not shaped as settings are, with what is wrong.
    Shape(String),
}

/// What the text of the settings is read as; a missing file counts as an empty object.
pub open spec fn settings_of(existing: Option<&str>) -> Result<JsonView, Seq<char>> {
    match existing {
        Some(text) => value_of_text(text@),
        None => Ok(JsonView::Object(Map::empty())),
    }
}

/// The text to write to the settings for the binary at `berger_bin`, given the text that
/// is there: read, with berger's hooks merged in, and written again.
pub fn updated_settings_text(existing: Option<&str>, berger_bin: &str) -> (updated: Result<
    String,
    SettingsError,
>)
    ensures
        match (settings_of(existing), updated) {
            (Ok(before), Ok(text)) => {
                let (after, error) = merged(before, hook_command_for(berger_bin@));
                error is None && text@ == text_of_value(after)
            },
            (Ok(before), Err(SettingsError::Shape(message))) => merged(
                before,
                hook_command_for(berger_bin@),
            ).1 == Some(message@),
            (Err(problem), Err(SettingsError::NotJson(message))) => problem == message@,
            _ => false,
        },
{
    let existing = match existing {
        Some(text) => match parse(text) {
            Ok(settings) => Some(settings),
            Err(message) => {
                return Err(SettingsError::NotJson(message));
            },
        },
        None => None,
    };
    match updated_settings(existing, berger_bin) {
        Ok(settings) => Ok(render(settings)),
        Err(message) => Err(SettingsError::Shape(message)),
    }
}

/// Whether a line of a tmux configuration sources `path`, quoted or not.
pub open spec fn sources(line: Seq<char>, path: Seq<char>) -> bool {
    match after_prefix(trimmed(line, Trim::Whitespace), "source-file"@) {
        Some(rest) => trimmed(
            trimmed(trimmed(rest, Trim::Whitespace), Trim::Char('"')),
            Trim::Char('\''),
        ) == path,
        None => false,
    }
}

/// Whether a line of a tmux configuration sources `path`.
pub fn is_source_line_for(line: &str, path: &str) -> (is_source_line: bool)
    ensures
        is_source_line == sources(line@, path@),
{
    match strip_prefix(trim(line, Trim::Whitespace).as_str(), "source-file") {
        Some(rest) => {
            let rest = trim(rest.as_str(), Trim::Whitespace);
            let rest = trim(rest.as_str(), Trim::Char('"'));
            let rest = trim(rest.as_str(), Trim::Char('\''));
            same_text(rest.as_str(), path)
        },
        None => false,
    }
}

/// Whether some line of a tmux configuration sources `path`.
pub open spec fn some_line_sources(conf: Seq<char>, path: Seq<char>) -> bool {
    exists|i: int| 0 <= i < lines_of(conf).len() && sources(#[trigger] lines_of(conf)[i], path)
}

/// Whether a tmux configuration sources `path`.
pub fn sources_path(tmux_conf_contents: &str, path: &str) -> (sourced: bool)
    ensures
        sourced == some_line_sources(tmux_conf_contents@, path@),
{
    let lines = lines(tmux_conf_contents);
    let ghost all = lines_of(tmux_conf_contents@);
    for i in 0..lines.len()
        invariant
            lines.deep_view() == all,
            all == lines_of(tmux_conf_contents@),
            forall|k: int| 0 <= k < i ==> !sources(#[trigger] all[k], path@),
    {
        assert(all[i as int] == lines@[i as int]@);
        if is_source_line_for(lines[i].as_str(), path) {
            return true;
        }
    }
    false
}

/// What to tell the user about sourcing berger's configuration.
pub open spec fn sourcing_report_for(
    user_tmux_conf: Seq<char>,
    contents: Seq<char>,
    tmux_conf_path: Seq<char>,
) -> Seq<char> {
    if some_line_sources(contents, tmux_conf_path) {
        "berger init: "@ + user_tmux_conf + " already sources berger's tmux config"@
    } else {
        "berger init: add this to "@ + user_tmux_conf + ", then run `tmux source-file "@
            + user_tmux_conf + "`:\n    "@ + "source-file \""@ + tmux_conf_path + "\""@
    }
}

/// Tells the user to source berger's configuration, unless their own does so already.
pub fn sourcing_report(
    user_tmux_conf: &str,
    contents: &str,
    tmux_conf_path: &str,
) -> (report: String)
    ensures
        report@ == sourcing_report_for(user_tmux_conf@, contents@, tmux_conf_path@),
{
    let mut report: String;
    if sources_path(contents, tmux_conf_path) {
        report = "berger init: ".to_owned();
        report.append(user_tmux_conf);
        report.append(" already sources berger's tmux config");
    } else {
        report = "berger init: add this to ".to_owned();
        report.append(user_tmux_conf);
        report.append(", then run `tmux source-file ");
        report.append(user_tmux_conf);
        report.append("`:\n    ");
        report.append("source-file \"");
        report.append(tmux_conf_path);
        report.append("\"");
    }
    report
}

/// Whether every character of `s` is white space.
pub open spec fn is_blank(s: Seq<char>) -> bool {
    forall|i: int| 0 <= i < s.len() ==> is_white_space(#[trigger] s[i])
}

/// Whether `s` neither begins nor ends with `c`.
pub open spec fn is_free_of(s: Seq<char>, c: char) -> bool {
    s.len() > 0 ==> s[0] != c && s.last() != c
}

/// A line that sources a path, with blanks around its parts and `quote` around the path.
pub open spec fn source_line(
    before: Seq<char>,
    between: Seq<char>,
    quote: Seq<char>,
    path: Seq<char>,
    after: Seq<char>,
) -> Seq<char> {
    before + "source-file"@ + between + (quote + path + quote) + after
}

/// A line that sources a path is recognized, whatever blanks stand around its parts: with
/// double quotes unless the path begins or ends with a quotation mark, with single quotes
/// unless it begins or ends with one of those, and without quotes unless it begins or ends
/// with a quotation mark or a blank.
pub proof fn law_source_lines_are_recognized(
    before: Seq<char>,
    between: Seq<char>,
    path: Seq<char>,
    after: Seq<char>,
)
    requires
        is_blank(before),
        is_blank(between),
        is_blank(after),
    ensures
        is_free_of(path, '"') && is_free_of(path, '\'') ==> sources(
            source_line(before, between, seq!['"'], path, after),
            path,
        ),
        is_free_of(path, '\'') ==> sources(
            source_line(before, between, seq!['\''], path, after),
            path,
        ),
        is_free_of(path, '"') && is_free_of(path, '\'') && (path.len() > 0 ==> !is_white_space(
            path[0],
        ) && !is_white_space(path.last())) ==> sources(
            source_line(before, between, seq![], path, after),
            path,
        ),
{
    let double = seq!['"'];
    let single = seq!['\''];
    let none = Seq::<char>::empty();
    lemma_trimmed_is(none, path, none, Trim::Char('\''));
    lemma_trimmed_is(none, path, none, Trim::Char('"'));
    assert(none + path + none == path);
    if is_free_of(path, '"') && is_free_of(path, '\'') {
        lemma_source_line(before, between, double + path + double, after);
        lemma_trimmed_is(double, path, double, Trim::Char('"'));
    }
    if is_free_of(path, '\'') {
        let word = single + path + single;
        lemma_source_line(before, between, word, after);
        lemma_trimmed_is(none, word, none, Trim::Char('"'));
        assert(none + word + none == word);
        lemma_trimmed_is(single, path, single, Trim::Char('\''));
    }
    if path.len() > 0 ==> !is_white_space(path[0]) && !is_white_space(path.last()) {
        lemma_source_line(before, between, none + path + none, after);
    }
}

/// What follows `source-file` on a line is read without the blanks around it.
proof fn lemma_source_line(
    before: Seq<char>,
    between: Seq<char>,
    word: Seq<char>,
    after: Seq<char>,
)
    requires
        is_blank(before),
        is_blank(between),
        is_blank(after),
        word.len() > 0 ==> !is_white_space(word[0]) && !is_white_space(word.last()),
    ensures
        after_prefix(
            trimmed(before + "source-file"@ + between + word + after, Trim::Whitespace),
            "source-file"@,
        ) matches Some(rest) && trimmed(rest, Trim::Whitespace) == word,
{
    reveal_strlit("source-file");
    let command = "source-file"@;
    let line = before + command + between + word + after;
    let nothing = Seq::<char>::empty();
    let blanks = between + after;
    let (inner, tail) = if word.len() > 0 {
        (command + between + word, after)
    } else {
        (command, blanks)
    };
    assert forall|i: int| 0 <= i < tail.len() implies Trim::Whitespace.covers(
        #[trigger] tail[i],
    ) by {
        if word.len() == 0 && i < between.len() {
            assert(tail[i] == between[i]);
        } else if word.len() == 0 {
            assert(tail[i] == after[i - between.len()]);
        }
    }
    assert(before + inner + tail == line);
    assert(inner[0] == 's');
    assert(inner.last() == if word.len() > 0 {
        word.last()
    } else {
        'e'
    });
    lemma_trimmed_is(before, inner, tail, Trim::Whitespace);
    assert(command.is_prefix_of(inner)) by {
        assert(inner.subrange(0, command.len() as int) == command);
    }
    let rest = inner.skip(command.len() as int);
    if word.len() > 0 {
        assert(rest == between + word + nothing);
        lemma_trimmed_is(between, word, nothing, Trim::Whitespace);
    } else {
        assert(rest == nothing + word + nothing);
        lemma_trimmed_is(nothing, word, nothing, Trim::Whitespace);
    }
}

/// The line that the user is told to add is recognized once it is there, unless the path
/// begins or ends with a quotation mark.
pub proof fn law_suggested_line_is_recognized(path: Seq<char>)
    requires
        is_free_of(path, '"'),
        is_free_of(path, '\''),
    ensures
        sources("source-file \""@ + path + "\""@, path),
{
    reveal_strlit("source-file \"");
    reveal_strlit("source-file");
    reveal_strlit("\"");
    let nothing = Seq::<char>::empty();
    law_source_lines_are_recognized(nothing, seq![' '], path, nothing);
    assert("source-file \""@ + path + "\""@ == source_line(
        nothing,
        seq![' '],
        seq!['"'],
        path,
        nothing,
    ));
}

/// A path is a build directory exactly if a name `target` stands somewhere in it, directly
/// or with one name between before a name `debug` or `release`.
pub proof fn law_build_dir_lies_below_a_target(
    exe: Seq<u8>,
    before: Seq<Seq<u8>>,
    between: Seq<Seq<u8>>,
    profile: Seq<char>,
    after: Seq<Seq<u8>>,
)
    requires
        profile == "debug"@ || profile == "release"@,
        between.len() <= 1,
        components(exe) == before + seq![encode_utf8("target"@)] + between + seq![
            encode_utf8(profile),
        ] + after,
    ensures
        in_build_dir(exe),
{
    let names = components(exe);
    let i = before.len() as int;
    assert(names[i] == encode_utf8("target"@));
    assert(names[i + 1 + between.len()] == encode_utf8(profile));
}

/// A path that is no such thing is not refused: if one is a build directory, some name in
/// it is `target`, and one of the two behind that is `debug` or `release`.
pub proof fn law_other_directories_are_not_refused(exe: Seq<u8>)
    requires
        forall|i: int, j: int|
            0 <= i < j < components(exe).len() && j <= i + 2 && #[trigger] components(exe)[i]
                == encode_utf8("target"@) ==> #[trigger] components(exe)[j] != encode_utf8(
                "debug"@,
            ) && components(exe)[j] != encode_utf8("release"@),
    ensures
        !in_build_dir(exe),
{
    let names = components(exe);
    if in_build_dir(exe) {
        let i = choose|i: int|
            0 <= i < names.len() && #[trigger] names[i] == encode_utf8("target"@) && ((i + 1
                < names.len() && is_profile(names[i + 1])) || (i + 2 < names.len() && is_profile(
                names[i + 2],
            )));
        if i + 1 < names.len() && is_profile(names[i + 1]) {
            assert(names[i + 1] == encode_utf8("debug"@) || names[i + 1] == encode_utf8(
                "release"@,
            ));
        } else {
            assert(names[i + 2] == encode_utf8("debug"@) || names[i + 2] == encode_utf8(
                "release"@,
            ));
        }
    }
}

/// A build directory stays one wherever it lies and whatever lies below it.
pub proof fn law_build_dir_is_one_anywhere(base: Seq<u8>, path: Seq<u8>)
    requires
        !is_rooted(path),
    ensures
        in_build_dir(path) ==> in_build_dir(joined(base, path)),
        in_build_dir(base) ==> in_build_dir(joined(base, path)),
{
    law_join_adds_names(base, path);
    let outer = components(base);
    let inner = components(path);
    let all = components(joined(base, path));
    if in_build_dir(path) {
        let i = choose|i: int|
            0 <= i < inner.len() && #[trigger] inner[i] == encode_utf8("target"@) && ((i + 1
                < inner.len() && is_profile(inner[i + 1])) || (i + 2 < inner.len() && is_profile(
                inner[i + 2],
            )));
        assert(all[outer.len() + i] == inner[i]);
        if i + 1 < inner.len() {
            assert(all[outer.len() + i + 1] == inner[i + 1]);
        }
        if i + 2 < inner.len() {
            assert(all[outer.len() + i + 2] == inner[i + 2]);
        }
    }
    if in_build_dir(base) {
        let i = choose|i: int|
            0 <= i < outer.len() && #[trigger] outer[i] == encode_utf8("target"@) && ((i + 1
                < outer.len() && is_profile(outer[i + 1])) || (i + 2 < outer.len() && is_profile(
                outer[i + 2],
            )));
        assert(all[i] == outer[i]);
        if i + 1 < outer.len() {
            assert(all[i + 1] == outer[i + 1]);
        }
        if i + 2 < outer.len() {
            assert(all[i + 2] == outer[i + 2]);
        }
    }
}

/// An absolute directory that the variable names counts alone, whatever the home is; else
/// it is the fallback below an absolute home; and without either there is none. A variable
/// that is not text is an error whatever else there is.
pub proof fn law_config_directory_is_found(
    xdg: Option<Seq<u8>>,
    home: Option<Seq<u8>>,
    other_home: Option<Seq<u8>>,
    fallback: Seq<char>,
    name: Seq<char>,
)
    requires
        is_name(encode_utf8(name)),
        is_name(encode_utf8(fallback)),
    ensures
        xdg is Some && !valid_utf8(xdg->0) ==> xdg_subdir_of(xdg, home, fallback, name) == Err::<
            Seq<u8>,
            DirError,
        >(DirError::NotUtf8),
        xdg is Some && valid_utf8(xdg->0) && is_rooted(xdg->0) ==> {
            &&& xdg_subdir_of(xdg, home, fallback, name) matches Ok(dir)
            &&& components(dir) == components(xdg->0).push(encode_utf8(name))
            &&& is_rooted(dir)
            &&& xdg_subdir_of(xdg, home, fallback, name) == xdg_subdir_of(
                xdg,
                other_home,
                fallback,
                name,
            )
        },
        xdg is None || (valid_utf8(xdg->0) && !is_rooted(xdg->0)) ==> {
            &&& home is Some && is_rooted(home->0) ==> {
                &&& xdg_subdir_of(xdg, home, fallback, name) matches Ok(dir)
                &&& components(dir) == components(home->0).push(encode_utf8(fallback)).push(
                    encode_utf8(name),
                )
                &&& is_rooted(dir)
            }
            &&& home is None || !is_rooted(home->0) ==> xdg_subdir_of(xdg, home, fallback, name)
                == Err::<Seq<u8>, DirError>(DirError::NoHome)
        },
{
    let n = encode_utf8(name);
    let f = encode_utf8(fallback);
    assert(!is_rooted(n)) by {
        if is_rooted(n) {
            assert(n[0] == crate::path::SLASH);
        }
    }
    assert(!is_rooted(f)) by {
        if is_rooted(f) {
            assert(f[0] == crate::path::SLASH);
        }
    }
    if xdg is Some && is_rooted(xdg->0) {
        law_join_adds_one_name(xdg->0, n);
        law_join_writes_one_slash(xdg->0, n);
    }
    if home is Some && is_rooted(home->0) {
        law_join_adds_one_name(home->0, f);
        law_join_writes_one_slash(home->0, f);
        law_join_adds_one_name(joined(home->0, f), n);
        law_join_writes_one_slash(joined(home->0, f), n);
    }
}

/// A line sources one path at most, and only if it begins with `source-file`: a line that
/// begins with anything else, a comment sign for one, sources none.
pub proof fn law_other_lines_source_nothing(
    line: Seq<char>,
    path: Seq<char>,
    other_path: Seq<char>,
    before: Seq<char>,
    text: Seq<char>,
    after: Seq<char>,
)
    requires
        is_blank(before),
        is_blank(after),
        text.len() > 0 ==> !is_white_space(text[0]) && !is_white_space(text.last()),
        !"source-file"@.is_prefix_of(text),
    ensures
        sources(line, path) && sources(line, other_path) ==> path == other_path,
        !sources(before + text + after, path),
{
    lemma_trimmed_is(before, text, after, Trim::Whitespace);
}

/// A configuration sources a path exactly if one of its lines does, wherever that stands.
pub proof fn law_some_line_sources(conf: Seq<char>, line: Seq<char>, path: Seq<char>)
    requires
        conf.len() > 0 ==> conf.last() == '\n',
        fits_line(line),
    ensures
        some_line_sources(conf + line + seq!['\n'], path) <==> some_line_sources(conf, path)
            || sources(line, path),
        !some_line_sources(Seq::empty(), path),
{
    lemma_lines_append(conf, line);
    let earlier = lines_of(conf);
    let all = lines_of(conf + line + seq!['\n']);
    assert(all == earlier.push(line));
    if some_line_sources(conf, path) {
        let i = choose|i: int| 0 <= i < earlier.len() && sources(#[trigger] earlier[i], path);
        assert(sources(all[i], path));
    }
    if sources(line, path) {
        assert(sources(all[earlier.len() as int], path));
    }
    if some_line_sources(conf + line + seq!['\n'], path) {
        let i = choose|i: int| 0 <= i < all.len() && sources(#[trigger] all[i], path);
        if i < earlier.len() {
            assert(sources(earlier[i], path));
        }
    }
}

/// A user who does as the report says, and adds its last line to the configuration, is told
/// that nothing is left to do.
pub proof fn law_report_is_satisfied_by_its_line(
    user_tmux_conf: Seq<char>,
    contents: Seq<char>,
    path: Seq<char>,
)
    requires
        is_free_of(path, '"'),
        is_free_of(path, '\''),
        !path.contains('\n'),
        contents.len() > 0 ==> contents.last() == '\n',
    ensures
        ({
            let line = "source-file \""@ + path + "\""@;
            let done = "berger init: "@ + user_tmux_conf + " already sources berger's tmux config"@;
            &&& !some_line_sources(contents, path) ==> line.is_suffix_of(
                sourcing_report_for(user_tmux_conf, contents, path),
            )
            &&& sourcing_report_for(user_tmux_conf, contents + line + seq!['\n'], path) == done
        }),
{
    let line = "source-file \""@ + path + "\""@;
    law_suggested_line_is_recognized(path);
    assert(fits_line(line)) by {
        reveal_strlit("source-file \"");
        reveal_strlit("\"");
        assert forall|i: int| 0 <= i < line.len() implies line[i] != '\n' by {
            let head = "source-file \""@.len();
            if head <= i < head + path.len() {
                assert(path.contains(path[i - head]));
                assert(line[i] == path[i - head]);
            }
        }
    }
    law_some_line_sources(contents, line, path);
    let report = sourcing_report_for(user_tmux_conf, contents, path);
    if !some_line_sources(contents, path) {
        assert(report.subrange(report.len() - line.len(), report.len() as int) == line);
    }
}

/// The key that the configuration binds runs the binary that is installed: between the
/// words around it stands one that a shell reads as the binary's path.
pub proof fn law_tmux_conf_runs_the_binary(berger_bin: Seq<char>)
    ensures
        shell_word(quoted(berger_bin), false) == Some(berger_bin),
        tmux_conf_for(berger_bin)
            == "# ~/.config/berger/tmux.conf \u{2014} managed by `berger init`, do not edit\n"@
            + "set -g allow-rename off\nset -g automatic-rename off\nbind-key M run-shell \""@ + quoted(
                berger_bin,
            )
            + " sync --session #{q:session_name}\"\n"@,
{
    law_quoted_is_one_shell_word(berger_bin);
    reveal_strlit("set -g allow-rename off\n");
    reveal_strlit("set -g automatic-rename off\n");
    reveal_strlit("bind-key M run-shell \"");
    reveal_strlit("set -g allow-rename off\nset -g automatic-rename off\nbind-key M run-shell \"");
    assert("set -g allow-rename off\nset -g automatic-rename off\nbind-key M run-shell \""@
        == "set -g allow-rename off\n"@ + "set -g automatic-rename off\n"@
        + "bind-key M run-shell \""@);
    assert(tmux_conf_for(berger_bin)
        == "# ~/.config/berger/tmux.conf \u{2014} managed by `berger init`, do not edit\n"@
        + "set -g allow-rename off\nset -g automatic-rename off\nbind-key M run-shell \""@ + quoted(
                berger_bin,
            )
        + " sync --session #{q:session_name}\"\n"@);
}

/// The settings of a harness lie in the directory below the home that is called by its name
/// behind a dot.
pub proof fn law_settings_lie_below_home(home: Seq<u8>, harness: Seq<char>, file: Seq<char>)
    requires
        is_name(encode_utf8("."@ + harness)),
        is_name(encode_utf8(file)),
    ensures
        components(joined(harness_dir(home, harness), encode_utf8(file))) == components(home).push(
            encode_utf8("."@ + harness),
        ).push(encode_utf8(file)),
{
    law_join_adds_one_name(home, encode_utf8("."@ + harness));
    law_join_adds_one_name(harness_dir(home, harness), encode_utf8(file));
}

/// What `resolve_berger_bin` returns: a path with `target` and a profile close behind it is
/// refused wherever that stands, also where it is not text; any other is returned as the
/// text it is.
pub proof fn law_binary_is_refused_in_build_dirs(
    base: Seq<u8>,
    inner: Seq<u8>,
    exe: Vec<u8>,
    path: Seq<char>,
    bin: Result<String, BinError>,
    refused: bool,
    borrowed: &[u8],
)
    requires
        call_ensures(resolve_berger_bin, (exe,), bin),
        call_ensures(is_cargo_build_dir, (borrowed,), refused),
        borrowed@ == exe@,
        !is_rooted(inner),
    ensures
        refused <==> bin == Err::<String, BinError>(BinError::BuildDir),
        exe@ == joined(base, inner) && (in_build_dir(base) || in_build_dir(inner)) ==> refused,
        !refused && !valid_utf8(exe@) ==> bin == Err::<String, BinError>(BinError::NotUtf8),
        !refused && exe@ == encode_utf8(path) ==> (bin matches Ok(text) && text@
            == path),
{
    law_build_dir_is_one_anywhere(base, inner);
    vstd::utf8::encode_utf8_decode_utf8(path);
    vstd::utf8::encode_utf8_valid_utf8(path);
}

/// What `validate_home` returns is the home itself where that is an absolute path.
pub proof fn law_home_is_absolute(
    value: Option<Vec<u8>>,
    path: Seq<u8>,
    home: Result<Vec<u8>, &'static str>,
)
    requires
        call_ensures(validate_home, (value,), home),
    ensures
        value is Some && value->0@ == seq!['/' as u8] + path ==> (home matches Ok(h) && h@
            == value->0@),
        home is Ok <==> value is Some && value->0@.len() > 0 && value->0@[0] == '/' as u8,
        home matches Err(message) ==> message@ == "HOME is not set or is not an absolute path"@,
{
}

/// The settings and their backup lie side by side in the harness's directory, and settings
/// are backed up once.
pub proof fn law_settings_and_backup(
    home: &[u8],
    harness: &str,
    settings: Vec<u8>,
    backup: Vec<u8>,
    settings_exist: bool,
    backup_exists: bool,
    needed: bool,
)
    requires
        call_ensures(harness_settings_path, (home, harness), settings),
        call_ensures(harness_backup_path, (home, harness), backup),
        call_ensures(needs_backup, (settings_exist, backup_exists), needed),
        is_name(encode_utf8("."@ + harness@)),
    ensures
        components(settings@) == components(home@).push(encode_utf8("."@ + harness@)).push(
            encode_utf8("settings.json"@),
        ),
        components(backup@) == components(home@).push(encode_utf8("."@ + harness@)).push(
            encode_utf8("settings.json.berger-bak"@),
        ),
        needed ==> settings_exist && !backup_exists,
        settings_exist && !needed ==> backup_exists,
{
    assert(is_name(encode_utf8("settings.json"@))) by {
        reveal_strlit("settings.json");
        lemma_ascii_name("settings.json"@);
    }
    assert(is_name(encode_utf8("settings.json.berger-bak"@))) by {
        reveal_strlit("settings.json.berger-bak");
        lemma_ascii_name("settings.json.berger-bak"@);
    }
    law_settings_lie_below_home(home@, harness@, "settings.json"@);
    law_settings_lie_below_home(home@, harness@, "settings.json.berger-bak"@);
}

proof fn lemma_ascii_name(text: Seq<char>)
    requires
        text.len() > 2,
        forall|i: int| 0 <= i < text.len() ==> '\0' <= #[trigger] text[i] <= '\u{7f}' && text[i]
            != '/',
    ensures
        is_name(encode_utf8(text)),
{
    vstd::utf8::is_ascii_chars_encode_utf8(text);
    let bytes = encode_utf8(text);
    assert forall|i: int| 0 <= i < bytes.len() implies bytes[i] != crate::path::SLASH by {
        assert(text[i] as u8 == bytes[i]);
    }
}

/// What `updated_settings_text` writes is settings that run berger's command once on every
/// event it is told of, and otherwise hold what those before did: their other members, the
/// hooks of other events, and all that is not berger's in the hooks of these. It fails on
/// what is no JSON, and on settings of another shape.
pub proof fn law_written_settings_run_berger(
    existing: Option<&str>,
    berger_bin: &str,
    updated: Result<String, SettingsError>,
    command: String,
)
    requires
        call_ensures(updated_settings_text, (existing, berger_bin), updated),
        call_ensures(hook_command, (berger_bin,), command),
    ensures
        existing is None ==> updated is Ok,
        existing is Some && value_of_text(existing->0@) is Err ==> (updated matches Err(
            SettingsError::NotJson(message),
        ) && message@ == value_of_text(existing->0@)->Err_0),
        existing is Some && (value_of_text(existing->0@) matches Ok(value) && value !is Object)
            ==> (updated matches Err(SettingsError::Shape(message)) && message@
            == "settings.json root must be an object"@),
        existing is Some && (value_of_text(existing->0@) matches Ok(value) && value is Object
            && value.member("hooks"@) is None) ==> updated is Ok,
        updated matches Ok(text) ==> exists|after: JsonView|
            text@ == #[trigger] text_of_value(after) && is_settings_after(
                match existing {
                    Some(before) => value_of_text(before@)->Ok_0,
                    None => JsonView::Object(Map::empty()),
                },
                after,
                command@,
            ),
        shell_word(command@.take(command@.len() - " event"@.len()), false) == Some(berger_bin@),
{
    let before = settings_of(existing);
    let cmd = hook_command_for(berger_bin@);
    law_quoted_is_one_shell_word(berger_bin@);
    assert(command@.take(command@.len() - " event"@.len()) == quoted(berger_bin@));
    if let Ok(settings) = before {
        let after = merged(settings, cmd).0;
        law_merge_succeeds_on_the_right_shape(settings, cmd);
        law_refused_settings_are_told_why(settings, cmd, 0);
        if merged(settings, cmd).1 is None {
            law_merge_hooks_every_event_by_name(settings, cmd);
            law_unrelated_settings_survive(settings, cmd);
            assert forall|event: Seq<char>|
                event_state(event) is Some || event == "SessionEnd"@ implies foreign_parts(
                #[trigger] event_entries(after, event),
                cmd,
            ) == foreign_parts(event_entries(settings, event), cmd) by {
                law_every_state_event_is_hooked(event);
            }
            assert forall|event: Seq<char>|
                event_state(event) is None && event != "SessionEnd"@ implies #[trigger] member_of(
                hooks_object(after)->0,
                event,
            ) == member_of(hooks_object(settings)->0, event) by {
                law_every_state_event_is_hooked(event);
            }
            assert(is_settings_after(settings, after, cmd));
            assert(updated is Ok && updated->Ok_0@ == text_of_value(after));
        }
    }
}

/// Whether `after` is what `before` is with berger installed: on each event it is told of
/// its command is run once and what is not berger's is as before, and all else is as before.
pub open spec fn is_settings_after(before: JsonView, after: JsonView, command: Seq<char>) -> bool {
    &&& forall|event: Seq<char>|
        event_state(event) is Some || event == "SessionEnd"@ ==> #[trigger] runs_once_on(
            after,
            command,
            event,
        )
    &&& forall|key: Seq<char>|
        key != "hooks"@ ==> #[trigger] after.member(key) == before.member(key)
    &&& forall|event: Seq<char>|
        event_state(event) is Some || event == "SessionEnd"@ ==> foreign_parts(
            #[trigger] event_entries(after, event),
            command,
        ) == foreign_parts(event_entries(before, event), command)
    &&& forall|event: Seq<char>|
        event_state(event) is None && event != "SessionEnd"@ ==> #[trigger] member_of(
            hooks_object(after)->0,
            event,
        ) == member_of(hooks_object(before)->0, event)
}

/// What `sourcing_report` and `sources_path` say: a configuration to which the suggested
/// line is added sources the path, and the report says so.
pub proof fn law_added_line_is_found(
    conf: &str,
    path: &str,
    user: &str,
    before: Seq<char>,
    sourced: bool,
    report: String,
)
    requires
        call_ensures(sources_path, (conf, path), sourced),
        call_ensures(sourcing_report, (user, conf, path), report),
        is_free_of(path@, '"'),
        is_free_of(path@, '\''),
        !path@.contains('\n'),
        before.len() > 0 ==> before.last() == '\n',
    ensures
        conf@ == before + ("source-file \""@ + path@ + "\""@) + seq!['\n'] ==> sourced,
        conf@.len() == 0 ==> !sourced,
        sourced <==> report@ == "berger init: "@ + user@
            + " already sources berger's tmux config"@,
        !sourced ==> ("source-file \""@ + path@ + "\""@).is_suffix_of(report@),
{
    let line = "source-file \""@ + path@ + "\""@;
    law_report_is_satisfied_by_its_line(user@, before, path@);
    law_suggested_line_is_recognized(path@);
    reveal_strlit("source-file \"");
    reveal_strlit("\"");
    reveal_strlit(" already sources berger's tmux config");
    assert(fits_line(line)) by {
        assert forall|i: int| 0 <= i < line.len() implies line[i] != '\n' by {
            let head = "source-file \""@.len();
            if head <= i < head + path@.len() {
                assert(path@.contains(path@[i - head]));
                assert(line[i] == path@[i - head]);
            }
        }
    }
    law_some_line_sources(before, line, path@);
    if !sourced {
        assert(report@.subrange(report@.len() - line.len(), report@.len() as int) == line);
        assert(report@.last() == '"');
    }
}

/// What `berger_config_dir` returns: `berger` below the directory that the variable names if
/// that is absolute, and else below the `.config` of an absolute home.
pub proof fn law_config_lies_below_home(
    xdg: Option<Vec<u8>>,
    home: Option<Vec<u8>>,
    dir: Result<Vec<u8>, DirError>,
)
    requires
        call_ensures(berger_config_dir, (xdg, home), dir),
    ensures
        xdg is Some && !valid_utf8(xdg->0@) ==> dir == Err::<Vec<u8>, DirError>(DirError::NotUtf8),
        xdg is Some && valid_utf8(xdg->0@) && is_rooted(xdg->0@) ==> (dir matches Ok(path)
            && components(path@) == components(xdg->0@).push(encode_utf8("berger"@))),
        (xdg is None || (valid_utf8(xdg->0@) && !is_rooted(xdg->0@))) && home is Some && is_rooted(
            home->0@,
        ) ==> (dir matches Ok(path) && components(path@) == components(home->0@).push(
            encode_utf8(".config"@),
        ).push(encode_utf8("berger"@))),
        (xdg is None || (valid_utf8(xdg->0@) && !is_rooted(xdg->0@))) && (home is None
            || !is_rooted(home->0@)) ==> dir == Err::<Vec<u8>, DirError>(DirError::NoHome),
{
    assert(is_name(encode_utf8("berger"@))) by {
        reveal_strlit("berger");
        lemma_ascii_name("berger"@);
    }
    assert(is_name(encode_utf8(".config"@))) by {
        reveal_strlit(".config");
        lemma_ascii_name(".config"@);
    }
    law_config_directory_is_found(
        optional_path(xdg),
        optional_path(home),
        optional_path(home),
        ".config"@,
        "berger"@,
    );
}

/// What `tmux_conf_contents` returns runs the binary: between its two parts stands a word
/// that a shell reads as the binary's path.
pub proof fn law_written_tmux_conf_runs_the_binary(berger_bin: &str, conf: String)
    requires
        call_ensures(tmux_conf_contents, (berger_bin,), conf),
    ensures
        exists|word: Seq<char>| #[trigger]
            shell_word(word, false) == Some(berger_bin@) && conf@
                == "# ~/.config/berger/tmux.conf \u{2014} managed by `berger init`, do not edit\n"@
                + "set -g allow-rename off\nset -g automatic-rename off\nbind-key M run-shell \""@
                + word + " sync --session #{q:session_name}\"\n"@,
{
    law_tmux_conf_runs_the_binary(berger_bin@);
    let word = quoted(berger_bin@);
    assert(shell_word(word, false) == Some(berger_bin@));
}

} // verus!
