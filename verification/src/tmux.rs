//! What is asked of tmux, and how its answers are read.

use crate::text::{chars_of, fits_line, lemma_lines_append, lemma_position_is, lines};
use crate::text::{lines_of, optional_str, optional_text, split_first, split_once, text_of};
use crate::text::{law_line_ending_is_taken_off, law_split_at_first, utf8_text};
use crate::text::without_line_ending;
use vstd::prelude::*;
use vstd::utf8::{decode_utf8, encode_utf8, valid_utf8};

verus! {

/// A single tmux window: `{window_id}:{window_index}:{window_name}`, as returned by
/// `tmux list-windows -F '#{window_id}:#{window_index}:#{window_name}'`.
///
/// `id` (tmux's `@N` form) is stable for the window's lifetime, unlike `index`, which
/// shifts when windows are moved or the session is renumbered, and unlike `name`,
/// which changes on every rename: it alone tells "renamed" apart from "closed".
#[derive(Debug, Clone, PartialEq, Eq)]
pub struct Window {
    pub id: String,
    pub index: String,
    pub name: String,
}

/// A `Window` with its texts as sequences of characters.
pub struct WindowView {
    pub id: Seq<char>,
    pub index: Seq<char>,
    pub name: Seq<char>,
}

impl View for Window {
    type V = WindowView;

    open spec fn view(&self) -> WindowView {
        WindowView { id: self.id@, index: self.index@, name: self.name@ }
    }
}

impl DeepView for Window {
    type V = WindowView;

    open spec fn deep_view(&self) -> WindowView {
        self@
    }
}

/// What came of running a command: whether it succeeded, and what it printed.
pub struct CommandOutput {
    pub success: bool,
    pub stdout: Vec<u8>,
}

/// What a command printed, if it ran, succeeded and printed text.
pub open spec fn printed_text(output: Option<CommandOutput>) -> Option<Seq<char>> {
    match output {
        Some(out) => if out.success && valid_utf8(out.stdout@) {
            Some(decode_utf8(out.stdout@))
        } else {
            None
        },
        None => None,
    }
}

/// The one line that a command printed, if it printed anything.
pub open spec fn printed_line(output: Option<CommandOutput>) -> Option<Seq<char>> {
    match printed_text(output) {
        Some(text) => if without_line_ending(text).len() > 0 {
            Some(without_line_ending(text))
        } else {
            None
        },
        None => None,
    }
}

/// The window that a line of `tmux list-windows` describes: what stands before the
/// first colon, between the first two, and after the second, whatever that holds.
pub open spec fn window_of(line: Seq<char>) -> Option<WindowView> {
    match split_first(line, ':') {
        Some((id, rest)) => match split_first(rest, ':') {
            Some((index, name)) => Some(WindowView { id, index, name }),
            None => None,
        },
        None => None,
    }
}

/// The windows that the lines of `text` describe, in order; other lines are passed over.
pub open spec fn windows_of(text: Seq<char>) -> Seq<WindowView> {
    lines_of(text).filter_map(|line: Seq<char>| window_of(line))
}

/// Removes the line ending that `s` may end in.
pub fn strip_line_ending(s: String) -> (line: String)
    ensures
        line@ == without_line_ending(s@),
{
    let chars = chars_of(s.as_str());
    let mut end: usize = chars.len();
    if end > 0 && chars[end - 1] == '\n' {
        end = end - 1;
        if end > 0 && chars[end - 1] == '\r' {
            end = end - 1;
        }
    }
    assert(chars@.subrange(0, end as int) == without_line_ending(s@));
    text_of(&chars[0..end])
}

/// Reads the text that a command printed.
fn printed(output: Option<CommandOutput>) -> (text: Option<String>)
    ensures
        optional_text(text) == printed_text(output),
{
    match output {
        Some(out) => if out.success {
            utf8_text(out.stdout)
        } else {
            None
        },
        None => None,
    }
}

/// Reads the answer of `tmux display-message`: the current session, the current
/// window's id, index or name, or the server's pid. A command that did not run or did
/// not succeed, an answer that is not text, and an empty one all count as none.
pub fn display_message_reply(output: Option<CommandOutput>) -> (reply: Option<String>)
    ensures
        optional_text(reply) == printed_line(output),
{
    match printed(output) {
        Some(text) => {
            let line = strip_line_ending(text);
            if line.as_str().is_empty() {
                None
            } else {
                Some(line)
            }
        },
        None => None,
    }
}

/// The arguments that ask tmux to expand `format`.
pub fn display_message_args(format: &str) -> (args: Vec<String>)
    ensures
        args.deep_view() == seq!["display-message"@, "-p"@, format@],
{
    let args = vec!["display-message".to_owned(), "-p".to_owned(), format.to_owned()];
    assert(args.deep_view() == seq!["display-message"@, "-p"@, format@]);
    args
}

/// The arguments that ask tmux for the windows of `session`.
pub fn list_windows_args(session: &str) -> (args: Vec<String>)
    ensures
        args.deep_view() == seq![
            "list-windows"@,
            "-t"@,
            session@,
            "-F"@,
            "#{window_id}:#{window_index}:#{window_name}"@,
        ],
{
    let args = vec![
        "list-windows".to_owned(),
        "-t".to_owned(),
        session.to_owned(),
        "-F".to_owned(),
        "#{window_id}:#{window_index}:#{window_name}".to_owned(),
    ];
    assert(args.deep_view() == seq![
        "list-windows"@,
        "-t"@,
        session@,
        "-F"@,
        "#{window_id}:#{window_index}:#{window_name}"@,
    ]);
    args
}

/// The arguments that rename the window at `index` of `session`.
pub fn rename_window_args(session: &str, index: &str, new_name: &str) -> (args: Vec<String>)
    ensures
        args.deep_view() == seq![
            "rename-window"@,
            "-t"@,
            session@ + seq![':'] + index@,
            new_name@,
        ],
{
    let mut target = session.to_owned();
    target.push(':');
    target.append(index);
    let args = vec!["rename-window".to_owned(), "-t".to_owned(), target, new_name.to_owned()];
    assert(target@ == session@ + seq![':'] + index@);
    assert(args.deep_view() == seq![
        "rename-window"@,
        "-t"@,
        session@ + seq![':'] + index@,
        new_name@,
    ]);
    args
}

/// The arguments that rename the window with this id.
///
/// `window_id` (tmux's `@N` form) is unique across the whole server, so it needs no
/// session qualifier, unlike `index`, which is only unique within a session and can
/// shift when windows move.
pub fn rename_window_by_id_args(window_id: &str, new_name: &str) -> (args: Vec<String>)
    ensures
        args.deep_view() == seq!["rename-window"@, "-t"@, window_id@, new_name@],
{
    let args = vec![
        "rename-window".to_owned(),
        "-t".to_owned(),
        window_id.to_owned(),
        new_name.to_owned(),
    ];
    assert(args.deep_view() == seq!["rename-window"@, "-t"@, window_id@, new_name@]);
    args
}

/// The arguments that rename the current window: by its id, or by its index in `session`
/// where the id can't be read; `None` if neither can.
pub fn rename_current_window_args(
    session: &str,
    window_id: Option<&str>,
    index: Option<&str>,
    new_name: &str,
) -> (args: Option<Vec<String>>)
    ensures
        match (optional_str(window_id), optional_str(index)) {
            (Some(id), _) => args matches Some(list) && list.deep_view() == seq![
                "rename-window"@,
                "-t"@,
                id,
                new_name@,
            ],
            (None, Some(at)) => args matches Some(list) && list.deep_view() == seq![
                "rename-window"@,
                "-t"@,
                session@ + seq![':'] + at,
                new_name@,
            ],
            (None, None) => args is None,
        },
{
    match (window_id, index) {
        (Some(id), _) => Some(rename_window_by_id_args(id, new_name)),
        (None, Some(at)) => Some(rename_window_args(session, at, new_name)),
        (None, None) => None,
    }
}

/// Reads what `tmux list-windows` printed.
pub fn parse_window_list(text: &str) -> (windows: Vec<Window>)
    ensures
        windows.deep_view() == windows_of(text@),
{
    let lines = lines(text);
    let ghost all = lines_of(text@);
    let ghost read = |line: Seq<char>| window_of(line);
    let mut windows: Vec<Window> = Vec::new();
    assert(windows.deep_view() == all.take(0).filter_map(read));
    for i in 0..lines.len()
        invariant
            lines.deep_view() == all,
            read == (|line: Seq<char>| window_of(line)),
            windows.deep_view() == all.take(i as int).filter_map(read),
    {
        assert(all[i as int] == lines[i as int]@);
        let ghost before = windows.deep_view();
        proof {
            all.lemma_filter_map_take_succ(read, i as int);
        }
        if let Some((id, rest)) = split_once(lines[i].as_str(), ':') {
            if let Some((index, name)) = split_once(rest.as_str(), ':') {
                windows.push(Window { id, index, name });
                assert(windows.deep_view() == before.push(windows@.last()@));
            }
        }
        assert(windows.deep_view() == all.take(i + 1).filter_map(read));
    }
    assert(all.take(all.len() as int) == all);
    windows
}

/// Reads the answer of `tmux list-windows`. A command that did not run or did not
/// succeed, and an answer that is not text, count as none.
pub fn list_windows_reply(output: Option<CommandOutput>) -> (windows: Option<Vec<Window>>)
    ensures
        match printed_text(output) {
            Some(text) => windows matches Some(list) && list.deep_view() == windows_of(text),
            None => windows is None,
        },
{
    match printed(output) {
        Some(text) => Some(parse_window_list(text.as_str())),
        None => None,
    }
}

/// The line of `tmux list-windows` for a window.
pub open spec fn window_line(window: WindowView) -> Seq<char> {
    window.id + seq![':'] + window.index + seq![':'] + window.name
}

/// What `tmux list-windows` prints for `windows`.
pub open spec fn window_list(windows: Seq<WindowView>) -> Seq<char>
    decreases windows.len(),
{
    if windows.len() == 0 {
        seq![]
    } else {
        window_list(windows.drop_last()) + window_line(windows.last()) + seq!['\n']
    }
}

/// Whether a window can be told from its line: its id and index hold no colon and no line
/// feed, and its name fits a line.
pub open spec fn is_listable(window: WindowView) -> bool {
    &&& forall|i: int| 0 <= i < window.id.len() ==> window.id[i] != ':' && window.id[i] != '\n'
    &&& forall|i: int|
        0 <= i < window.index.len() ==> window.index[i] != ':' && window.index[i] != '\n'
    &&& fits_line(window.name)
}

/// The windows that tmux prints are read back.
pub proof fn law_window_list_is_read_back(windows: Seq<WindowView>)
    requires
        forall|i: int| 0 <= i < windows.len() ==> is_listable(#[trigger] windows[i]),
    ensures
        windows_of(window_list(windows)) == windows,
{
    lemma_window_list(windows);
}

proof fn lemma_window_list(windows: Seq<WindowView>)
    requires
        forall|i: int| 0 <= i < windows.len() ==> is_listable(#[trigger] windows[i]),
    ensures
        windows_of(window_list(windows)) == windows,
        windows.len() > 0 ==> window_list(windows).len() > 0 && window_list(windows).last() == '\n',
    decreases windows.len(),
{
    let read = |line: Seq<char>| window_of(line);
    if windows.len() == 0 {
        assert(lines_of(window_list(windows)) == Seq::<Seq<char>>::empty());
        assert(windows_of(window_list(windows)) == windows);
    } else {
        let fewer = windows.drop_last();
        let last = windows.last();
        let line = window_line(last);
        assert forall|i: int| 0 <= i < fewer.len() implies is_listable(#[trigger] fewer[i]) by {
            assert(fewer[i] == windows[i]);
        }
        assert(is_listable(windows[windows.len() - 1]));
        lemma_window_list(fewer);
        let rest = last.index + seq![':'] + last.name;
        lemma_position_is(line, ':', last.id.len() as int);
        assert(line.take(last.id.len() as int) == last.id);
        assert(line.skip(last.id.len() + 1int) == rest);
        lemma_position_is(rest, ':', last.index.len() as int);
        assert(rest.take(last.index.len() as int) == last.index);
        assert(rest.skip(last.index.len() + 1int) == last.name);
        assert(window_of(line) == Some(last));
        assert(fits_line(line));
        lemma_lines_append(window_list(fewer), line);
        let earlier = lines_of(window_list(fewer));
        let lines = lines_of(window_list(windows));
        assert(lines == earlier.push(line));
        lines.lemma_filter_map_take_succ(read, earlier.len() as int);
        assert(lines.take(earlier.len() as int) == earlier);
        assert(lines.take(lines.len() as int) == lines);
        assert(windows_of(window_list(windows)) == fewer.push(last));
        assert(fewer.push(last) == windows);
    }
}

/// A line that lacks two colons describes no window and is passed over, wherever it stands.
pub proof fn law_other_lines_are_no_windows(text: Seq<char>, a: Seq<char>, b: Seq<char>)
    requires
        text.len() > 0 ==> text.last() == '\n',
        fits_line(a) && !a.contains(':'),
        fits_line(b) && !b.contains(':'),
    ensures
        windows_of(text + a + "\n"@) == windows_of(text),
        windows_of(text + (a + seq![':'] + b) + "\n"@) == windows_of(text),
{
    reveal_strlit("\n");
    assert("\n"@ == seq!['\n']);
    let line = a + seq![':'] + b;
    law_split_at_first(a, ':', b);
    law_split_at_first(b, ':', b);
    assert(fits_line(line));
    lemma_lines_append(text, a);
    lemma_lines_append(text, line);
    lemma_no_window(lines_of(text), a);
    lemma_no_window(lines_of(text), line);
}

proof fn lemma_no_window(lines: Seq<Seq<char>>, line: Seq<char>)
    requires
        window_of(line) is None,
    ensures
        lines.push(line).filter_map(|line: Seq<char>| window_of(line)) == lines.filter_map(
            |line: Seq<char>| window_of(line),
        ),
{
    let read = |line: Seq<char>| window_of(line);
    let more = lines.push(line);
    more.lemma_filter_map_take_succ(read, lines.len() as int);
    assert(more.take(lines.len() as int) == lines);
    assert(more.take(more.len() as int) == more);
}

/// What tmux prints in reply is read as the line it is, whichever way the line ends; a reply
/// that is empty, is not text, or comes with a failure is none.
pub proof fn law_reply_is_read(line: Seq<char>, success: CommandOutput, other: CommandOutput)
    requires
        success.success,
        line.len() == 0 || (line.last() != '\n' && line.last() != '\r'),
        success.stdout@ == encode_utf8(line) || success.stdout@ == encode_utf8(line + "\n"@)
            || success.stdout@ == encode_utf8(line + "\r\n"@),
    ensures
        line.len() > 0 ==> printed_line(Some(success)) == Some(line),
        line.len() == 0 ==> printed_line(Some(success)) is None,
        !other.success || !valid_utf8(other.stdout@) ==> printed_line(Some(other)) is None
            && printed_text(Some(other)) is None,
        printed_line(None) is None && printed_text(None) is None,
{
    reveal_strlit("\n");
    reveal_strlit("\r\n");
    assert("\n"@ == seq!['\n']);
    assert("\r\n"@ == seq!['\r', '\n']);
    law_line_ending_is_taken_off(line);
    vstd::utf8::encode_utf8_decode_utf8(line);
    vstd::utf8::encode_utf8_decode_utf8(line + seq!['\n']);
    vstd::utf8::encode_utf8_decode_utf8(line + seq!['\r', '\n']);
    vstd::utf8::encode_utf8_valid_utf8(line);
    vstd::utf8::encode_utf8_valid_utf8(line + seq!['\n']);
    vstd::utf8::encode_utf8_valid_utf8(line + seq!['\r', '\n']);
}

/// What succeeded and is text is read as that text.
pub proof fn law_printed_text_is_read(text: Seq<char>, output: CommandOutput)
    requires
        output.success,
        output.stdout@ == encode_utf8(text),
    ensures
        printed_text(Some(output)) == Some(text),
{
    vstd::utf8::encode_utf8_decode_utf8(text);
    vstd::utf8::encode_utf8_valid_utf8(text);
}

/// What tmux is asked: to print a format, to list a session's windows by id, index and name,
/// and to rename the window at an index of a session, or the one with an id.
pub proof fn law_what_tmux_is_asked(
    session: &str,
    index: &str,
    id: &str,
    name: &str,
    listing: Vec<String>,
    by_index: Vec<String>,
    by_id: Vec<String>,
    current: Option<Vec<String>>,
    moved: Option<Vec<String>>,
    printing: Vec<String>,
)
    requires
        call_ensures(list_windows_args, (session,), listing),
        call_ensures(rename_window_args, (session, index, name), by_index),
        call_ensures(rename_window_by_id_args, (id, name), by_id),
        call_ensures(
            rename_current_window_args,
            (session, Some(id), Some(index), name),
            current,
        ),
        call_ensures(rename_current_window_args, (session, None, Some(index), name), moved),
        call_ensures(display_message_args, (session,), printing),
    ensures
        listing@.len() == 5 && by_index@.len() == 4 && by_id@.len() == 4 && printing@.len() == 3,
        listing@[0]@ == "list-windows"@ && listing@[1]@ == "-t"@ && listing@[2]@ == session@,
        listing@[3]@ == "-F"@ && listing@[4]@
            == "#{window_id}:#{window_index}:#{window_name}"@,
        by_index@[0]@ == "rename-window"@ && by_index@[1]@ == "-t"@ && by_index@[3]@ == name@,
        by_index@[2]@ == session@ + ":"@ + index@,
        by_id@[0]@ == "rename-window"@ && by_id@[1]@ == "-t"@ && by_id@[2]@ == id@ && by_id@[3]@
            == name@,
        current matches Some(args) && args.deep_view() == by_id.deep_view(),
        moved matches Some(args) && args.deep_view() == by_index.deep_view(),
        printing@[0]@ == "display-message"@ && printing@[1]@ == "-p"@ && printing@[2]@ == session@,
{
    reveal_strlit(":");
    assert(":"@ == seq![':']);
    assert(listing@.len() == listing.deep_view().len());
    assert(by_index@.len() == by_index.deep_view().len());
    assert(by_id@.len() == by_id.deep_view().len());
    assert(printing@.len() == printing.deep_view().len());
    assert(listing.deep_view()[0] == listing@[0]@ && listing.deep_view()[1] == listing@[1]@
        && listing.deep_view()[2] == listing@[2]@ && listing.deep_view()[3] == listing@[3]@
        && listing.deep_view()[4] == listing@[4]@);
    assert(by_index.deep_view()[0] == by_index@[0]@ && by_index.deep_view()[1] == by_index@[1]@
        && by_index.deep_view()[2] == by_index@[2]@ && by_index.deep_view()[3] == by_index@[3]@);
    assert(by_id.deep_view()[0] == by_id@[0]@ && by_id.deep_view()[1] == by_id@[1]@
        && by_id.deep_view()[2] == by_id@[2]@ && by_id.deep_view()[3] == by_id@[3]@);
    assert(printing.deep_view()[0] == printing@[0]@ && printing.deep_view()[1] == printing@[1]@
        && printing.deep_view()[2] == printing@[2]@);
}

/// What `parse_window_list` returns for what tmux prints for windows is those windows.
pub proof fn law_parsed_list_is_the_list(printed: &str, windows: Seq<WindowView>, read: Vec<Window>)
    requires
        call_ensures(parse_window_list, (printed,), read),
        printed@ == window_list(windows),
        forall|i: int| 0 <= i < windows.len() ==> is_listable(#[trigger] windows[i]),
    ensures
        read.deep_view() == windows,
{
    law_window_list_is_read_back(windows);
}

/// What the readers of replies return: the line that was printed, without its ending, and
/// the windows of the list; nothing where the command did not run, or failed.
pub proof fn law_replies_are_read(
    line: Seq<char>,
    windows: Seq<WindowView>,
    said: CommandOutput,
    listed: CommandOutput,
    failed: CommandOutput,
    reply: Option<String>,
    list: Option<Vec<Window>>,
    no_reply: Option<String>,
    no_list: Option<Vec<Window>>,
    neither: Option<String>,
)
    requires
        call_ensures(display_message_reply, (Some(said),), reply),
        call_ensures(list_windows_reply, (Some(listed),), list),
        call_ensures(display_message_reply, (Some(failed),), no_reply),
        call_ensures(list_windows_reply, (Some(failed),), no_list),
        call_ensures(display_message_reply, (None,), neither),
        said.success && listed.success && !failed.success,
        line.len() > 0 && line.last() != '\n' && line.last() != '\r',
        said.stdout@ == encode_utf8(line + "\n"@),
        listed.stdout@ == encode_utf8(window_list(windows)),
        forall|i: int| 0 <= i < windows.len() ==> is_listable(#[trigger] windows[i]),
    ensures
        reply matches Some(text) && text@ == line,
        list matches Some(read) && read.deep_view() == windows,
        no_reply is None && no_list is None && neither is None,
{
    law_reply_is_read(line, said, failed);
    law_printed_text_is_read(window_list(windows), listed);
    law_window_list_is_read_back(windows);
}

/// What `strip_line_ending` returns is the text without the one ending it may have.
pub proof fn law_one_ending_is_stripped(text: String, stripped: String, line: Seq<char>)
    requires
        call_ensures(strip_line_ending, (text,), stripped),
    ensures
        text@ == line + "\r\n"@ ==> stripped@ == line,
        text@ == line + "\n"@ && (line.len() == 0 || line.last() != '\r') ==> stripped@ == line,
        text@.len() == 0 || text@.last() != '\n' ==> stripped@ == text@,
{
    reveal_strlit("\n");
    reveal_strlit("\r\n");
    assert("\n"@ == seq!['\n']);
    assert("\r\n"@ == seq!['\r', '\n']);
    law_line_ending_is_taken_off(line);
    law_line_ending_is_taken_off(text@);
}

} // verus!
