//! What an agent is doing, and the record of it that a state file holds.

use crate::fs_util::{agent_component, encode_path_component, encode_session_component};
use crate::fs_util::{law_agents_are_told_apart_but_for_case, law_sessions_are_kept_apart};
use crate::fs_util::{law_session_component_is_one_name, law_state_file_is_one_name};
use crate::fs_util::session_component;
use crate::path::{components, file_name_of, has_root, is_name, is_rooted, join, joined, SLASH};
use crate::path::{law_join_adds_one_name, law_join_writes_one_slash, lemma_join_nothing};
use crate::text::{ascii_lowered, fits_line, lemma_lines_append, lemma_position};
use crate::text::{lemma_position_is, lines, position};
use crate::text::{lines_of, optional_text, same_text, split_first, split_once};
use vstd::prelude::*;
use vstd::utf8::encode_utf8;

verus! {

/// What an agent is doing.
#[derive(Debug, Clone, Copy, PartialEq, Eq, Structural)]
pub enum State {
    Working,
    Approval,
    Done,
    Error,
}

/// The symbol that a window name ends in while its agent is in `state`.
pub open spec fn symbol_of(state: State) -> Seq<char> {
    match state {
        State::Working => seq![],
        State::Approval => seq!['!'],
        State::Done => seq!['\u{2713}'],
        State::Error => seq!['\u{2717}'],
    }
}

/// The word that stands for `state` in a state file.
pub open spec fn word_of(state: State) -> Seq<char> {
    match state {
        State::Working => "working"@,
        State::Approval => "approval"@,
        State::Done => "done"@,
        State::Error => "error"@,
    }
}

/// The state that `word` stands for, if any.
pub open spec fn state_of(word: Seq<char>) -> Option<State> {
    if word == "working"@ {
        Some(State::Working)
    } else if word == "approval"@ {
        Some(State::Approval)
    } else if word == "done"@ {
        Some(State::Done)
    } else if word == "error"@ {
        Some(State::Error)
    } else {
        None
    }
}

/// The state that a hook event puts its agent in, if any.
pub open spec fn event_state(event: Seq<char>) -> Option<State> {
    if event == "SessionStart"@ || event == "UserPromptSubmit"@ || event == "PreToolUse"@ {
        Some(State::Working)
    } else if event == "PermissionRequest"@ {
        Some(State::Approval)
    } else if event == "PostToolUseFailure"@ || event == "StopFailure"@ {
        Some(State::Error)
    } else if event == "Stop"@ {
        Some(State::Done)
    } else {
        None
    }
}

impl State {
    /// The symbol shown at the end of a window name.
    pub fn symbol(self) -> (symbol: &'static str)
        ensures
            symbol@ == symbol_of(self),
    {
        proof {
            reveal_strlit("");
            reveal_strlit("!");
            reveal_strlit("\u{2713}");
            reveal_strlit("\u{2717}");
        }
        match self {
            State::Working => "",
            State::Approval => "!",
            State::Done => "\u{2713}",
            State::Error => "\u{2717}",
        }
    }

    /// The word written to a state file.
    pub fn as_str(self) -> (word: &'static str)
        ensures
            word@ == word_of(self),
    {
        match self {
            State::Working => "working",
            State::Approval => "approval",
            State::Done => "done",
            State::Error => "error",
        }
    }
}

/// Maps a hook event name to the state it represents, or `None` if the event should
/// clear state entirely (`SessionEnd`) or is unrecognized.
pub fn state_for_event(hook_event_name: &str) -> (state: Option<State>)
    ensures
        state == event_state(hook_event_name@),
{
    if same_text(hook_event_name, "SessionStart") || same_text(hook_event_name, "UserPromptSubmit")
        || same_text(hook_event_name, "PreToolUse") {
        Some(State::Working)
    } else if same_text(hook_event_name, "PermissionRequest") {
        Some(State::Approval)
    } else if same_text(hook_event_name, "PostToolUseFailure") || same_text(
        hook_event_name,
        "StopFailure",
    ) {
        Some(State::Error)
    } else if same_text(hook_event_name, "Stop") {
        Some(State::Done)
    } else {
        None
    }
}

/// Reads the word that `State::as_str` writes.
pub fn parse_state(s: &str) -> (state: Option<State>)
    ensures
        state == state_of(s@),
{
    if same_text(s, "working") {
        Some(State::Working)
    } else if same_text(s, "approval") {
        Some(State::Approval)
    } else if same_text(s, "done") {
        Some(State::Done)
    } else if same_text(s, "error") {
        Some(State::Error)
    } else {
        None
    }
}

/// The state of one agent, and the window that shows it.
///
/// `window_id` and `server_pid` identify the window for as long as its tmux server
/// runs; a record written without them is matched to a window by name.
#[derive(Debug, PartialEq, Eq)]
pub struct StateRecord {
    pub agent: String,
    pub state: State,
    pub updated_at: String,
    pub harness: String,
    pub session: String,
    pub window: String,
    pub window_id: Option<String>,
    pub server_pid: Option<String>,
}

/// A `StateRecord` with its texts as sequences of characters.
pub struct StateRecordView {
    pub agent: Seq<char>,
    pub state: State,
    pub updated_at: Seq<char>,
    pub harness: Seq<char>,
    pub session: Seq<char>,
    pub window: Seq<char>,
    pub window_id: Option<Seq<char>>,
    pub server_pid: Option<Seq<char>>,
}

impl View for StateRecord {
    type V = StateRecordView;

    open spec fn view(&self) -> StateRecordView {
        StateRecordView {
            agent: self.agent@,
            state: self.state,
            updated_at: self.updated_at@,
            harness: self.harness@,
            session: self.session@,
            window: self.window@,
            window_id: optional_text(self.window_id),
            server_pid: optional_text(self.server_pid),
        }
    }
}

impl DeepView for StateRecord {
    type V = StateRecordView;

    open spec fn deep_view(&self) -> StateRecordView {
        self@
    }
}

/// A copy of an optional text.
fn copy_text(text: &Option<String>) -> (copy: Option<String>)
    ensures
        optional_text(copy) == optional_text(*text),
{
    match text {
        Some(t) => Some(t.clone()),
        None => None,
    }
}

impl Clone for StateRecord {
    fn clone(&self) -> (copy: Self)
        ensures
            copy@ == self@,
    {
        StateRecord {
            agent: self.agent.clone(),
            state: self.state,
            updated_at: self.updated_at.clone(),
            harness: self.harness.clone(),
            session: self.session.clone(),
            window: self.window.clone(),
            window_id: copy_text(&self.window_id),
            server_pid: copy_text(&self.server_pid),
        }
    }
}

/// One `key=value` line of a state file.
pub open spec fn kv_line(key: Seq<char>, value: Seq<char>) -> Seq<char> {
    key + seq!['='] + value + seq!['\n']
}

/// A line that is only there when there is a value.
pub open spec fn optional_kv_line(key: Seq<char>, value: Option<Seq<char>>) -> Seq<char> {
    match value {
        Some(v) => kv_line(key, v),
        None => seq![],
    }
}

/// The text of the state file for `record`.
pub open spec fn kv_text(record: StateRecordView) -> Seq<char> {
    kv_line("agent"@, record.agent) + kv_line("state"@, word_of(record.state)) + kv_line(
        "updated_at"@,
        record.updated_at,
    ) + kv_line("harness"@, record.harness) + kv_line("session"@, record.session) + kv_line(
        "window"@,
        record.window,
    ) + optional_kv_line("window_id"@, record.window_id) + optional_kv_line(
        "server_pid"@,
        record.server_pid,
    )
}

/// The keys and values of `lines`, if every line has the form `key=value`.
pub open spec fn kv_pairs(lines: Seq<Seq<char>>) -> Option<Seq<(Seq<char>, Seq<char>)>> {
    if forall|i: int| 0 <= i < lines.len() ==> split_first(#[trigger] lines[i], '=') is Some {
        Some(lines.map_values(|line: Seq<char>| split_first(line, '=')->0))
    } else {
        None
    }
}

/// The value that the last of `pairs` with this key gives it.
pub open spec fn last_value(pairs: Seq<(Seq<char>, Seq<char>)>, key: Seq<char>) -> Option<Seq<char>>
    decreases pairs.len(),
{
    if pairs.len() == 0 {
        None
    } else if pairs.last().0 == key {
        Some(pairs.last().1)
    } else {
        last_value(pairs.drop_last(), key)
    }
}

/// Whether every `state` among `pairs` is one that `state_of` knows.
pub open spec fn states_known(pairs: Seq<(Seq<char>, Seq<char>)>) -> bool {
    forall|i: int|
        0 <= i < pairs.len() && (#[trigger] pairs[i]).0 == "state"@ ==> state_of(pairs[i].1) is Some
}

/// The record that `pairs` describe: a missing harness is empty, the window's id and
/// the server's pid may be missing, and nothing else may.
pub open spec fn record_of(pairs: Seq<(Seq<char>, Seq<char>)>) -> Option<StateRecordView> {
    if last_value(pairs, "agent"@) is Some && last_value(pairs, "state"@) is Some && last_value(
        pairs,
        "updated_at"@,
    ) is Some && last_value(pairs, "session"@) is Some && last_value(pairs, "window"@) is Some {
        Some(
            StateRecordView {
                agent: last_value(pairs, "agent"@)->0,
                state: state_of(last_value(pairs, "state"@)->0)->0,
                updated_at: last_value(pairs, "updated_at"@)->0,
                harness: match last_value(pairs, "harness"@) {
                    Some(harness) => harness,
                    None => seq![],
                },
                session: last_value(pairs, "session"@)->0,
                window: last_value(pairs, "window"@)->0,
                window_id: last_value(pairs, "window_id"@),
                server_pid: last_value(pairs, "server_pid"@),
            },
        )
    } else {
        None
    }
}

/// The record that the text of a state file describes, if it describes one.
pub open spec fn kv_record(text: Seq<char>) -> Option<StateRecordView> {
    match kv_pairs(lines_of(text)) {
        Some(pairs) => if states_known(pairs) {
            record_of(pairs)
        } else {
            None
        },
        None => None,
    }
}

/// Appends one `key=value` line.
fn push_kv(text: &mut String, key: &str, value: &str)
    ensures
        final(text)@ == old(text)@ + kv_line(key@, value@),
{
    text.append(key);
    text.push('=');
    text.append(value);
    text.push('\n');
    assert(text@ == old(text)@ + kv_line(key@, value@));
}

impl StateRecord {
    /// The text of a state file: one `key=value` line for each field.
    pub fn to_kv(&self) -> (text: String)
        ensures
            text@ == kv_text(self@),
    {
        let mut text = String::new();
        push_kv(&mut text, "agent", self.agent.as_str());
        push_kv(&mut text, "state", self.state.as_str());
        push_kv(&mut text, "updated_at", self.updated_at.as_str());
        push_kv(&mut text, "harness", self.harness.as_str());
        push_kv(&mut text, "session", self.session.as_str());
        push_kv(&mut text, "window", self.window.as_str());
        if let Some(id) = &self.window_id {
            push_kv(&mut text, "window_id", id.as_str());
        }
        if let Some(pid) = &self.server_pid {
            push_kv(&mut text, "server_pid", pid.as_str());
        }
        assert(text@ == kv_text(self@));
        text
    }

    /// Reads the text of a state file. Unknown keys are ignored, and of a repeated key
    /// the last value counts.
    pub fn from_kv(text: &str) -> (record: Option<StateRecord>)
        ensures
            match record {
                Some(r) => kv_record(text@) == Some(r@),
                None => kv_record(text@) is None,
            },
    {
        let lines = lines(text);
        let ghost all = lines_of(text@);
        let ghost mut pairs: Seq<(Seq<char>, Seq<char>)> = seq![];
        let mut agent: Option<String> = None;
        let mut state: Option<State> = None;
        let mut updated_at: Option<String> = None;
        let mut harness: Option<String> = None;
        let mut session: Option<String> = None;
        let mut window: Option<String> = None;
        let mut window_id: Option<String> = None;
        let mut server_pid: Option<String> = None;
        for i in 0..lines.len()
            invariant
                lines.deep_view() == all,
                all == lines_of(text@),
                forall|k: int| 0 <= k < i ==> split_first(#[trigger] all[k], '=') is Some,
                pairs == all.take(i as int).map_values(
                    |line: Seq<char>| split_first(line, '=')->0,
                ),
                states_known(pairs),
                optional_text(agent) == last_value(pairs, "agent"@),
                state == (match last_value(pairs, "state"@) {
                    Some(word) => state_of(word),
                    None => None,
                }),
                state is Some <==> last_value(pairs, "state"@) is Some,
                optional_text(updated_at) == last_value(pairs, "updated_at"@),
                optional_text(harness) == last_value(pairs, "harness"@),
                optional_text(session) == last_value(pairs, "session"@),
                optional_text(window) == last_value(pairs, "window"@),
                optional_text(window_id) == last_value(pairs, "window_id"@),
                optional_text(server_pid) == last_value(pairs, "server_pid"@),
        {
            assert(all[i as int] == lines[i as int]@);
            let (key, val) = match split_once(lines[i].as_str(), '=') {
                Some(parts) => parts,
                None => {
                    return None;
                },
            };
            let ghost earlier = pairs;
            proof {
                pairs = earlier.push((key@, val@));
                assert(pairs.drop_last() == earlier);
                assert(all.take(i + 1) == all.take(i as int).push(all[i as int]));
                assert(pairs == all.take(i + 1).map_values(
                    |line: Seq<char>| split_first(line, '=')->0,
                ));
                lemma_keys_distinct();
            }
            if same_text(key.as_str(), "agent") {
                agent = Some(val);
            } else if same_text(key.as_str(), "state") {
                match parse_state(val.as_str()) {
                    Some(s) => {
                        state = Some(s);
                    },
                    None => {
                        proof {
                            let every = all.map_values(
                                |line: Seq<char>| split_first(line, '=')->0,
                            );
                            assert(every[i as int] == (key@, val@));
                        }
                        return None;
                    },
                }
            } else if same_text(key.as_str(), "updated_at") {
                updated_at = Some(val);
            } else if same_text(key.as_str(), "harness") {
                harness = Some(val);
            } else if same_text(key.as_str(), "session") {
                session = Some(val);
            } else if same_text(key.as_str(), "window") {
                window = Some(val);
            } else if same_text(key.as_str(), "window_id") {
                window_id = Some(val);
            } else if same_text(key.as_str(), "server_pid") {
                server_pid = Some(val);
            }
            assert(states_known(pairs)) by {
                assert forall|k: int|
                    0 <= k < pairs.len() && (#[trigger] pairs[k]).0 == "state"@ implies state_of(
                    pairs[k].1,
                ) is Some by {
                    if k < earlier.len() {
                        assert(pairs[k] == earlier[k]);
                    }
                }
            }
        }
        assert(all.take(all.len() as int) == all);
        assert(kv_pairs(all) == Some(pairs));
        match (agent, state, updated_at, session, window) {
            (Some(agent), Some(state), Some(updated_at), Some(session), Some(window)) => Some(
                StateRecord {
                    agent,
                    state,
                    updated_at,
                    harness: match harness {
                        Some(harness) => harness,
                        None => String::new(),
                    },
                    session,
                    window,
                    window_id,
                    server_pid,
                },
            ),
            _ => None,
        }
    }
}

/// The keys of a state file are different words.
proof fn lemma_keys_distinct()
    ensures
        "agent"@ != "state"@,
        "agent"@ != "updated_at"@,
        "agent"@ != "harness"@,
        "agent"@ != "session"@,
        "agent"@ != "window"@,
        "agent"@ != "window_id"@,
        "agent"@ != "server_pid"@,
        "state"@ != "updated_at"@,
        "state"@ != "harness"@,
        "state"@ != "session"@,
        "state"@ != "window"@,
        "state"@ != "window_id"@,
        "state"@ != "server_pid"@,
        "updated_at"@ != "harness"@,
        "updated_at"@ != "session"@,
        "updated_at"@ != "window"@,
        "updated_at"@ != "window_id"@,
        "updated_at"@ != "server_pid"@,
        "harness"@ != "session"@,
        "harness"@ != "window"@,
        "harness"@ != "window_id"@,
        "harness"@ != "server_pid"@,
        "session"@ != "window"@,
        "session"@ != "window_id"@,
        "session"@ != "server_pid"@,
        "window"@ != "window_id"@,
        "window"@ != "server_pid"@,
        "window_id"@ != "server_pid"@,
{
    reveal_strlit("agent");
    reveal_strlit("state");
    reveal_strlit("updated_at");
    reveal_strlit("harness");
    reveal_strlit("session");
    reveal_strlit("window");
    reveal_strlit("window_id");
    reveal_strlit("server_pid");
    assert("agent"@[0] == 'a');
    assert("state"@[0] == 's');
    assert("state"@[1] == 't');
    assert("session"@[1] == 'e');
    assert("server_pid"@[2] == 'r');
    assert("session"@[2] == 's');
    assert("updated_at"@[0] == 'u');
    assert("harness"@[0] == 'h');
    assert("window"@.len() == 6);
    assert("window"@[0] == 'w');
    assert("window_id"@.len() == 9);
    assert("window_id"@[0] == 'w');
}

/// As `fits_line`, where there may be no text.
pub open spec fn optional_fits_line(value: Option<Seq<char>>) -> bool {
    match value {
        Some(v) => fits_line(v),
        None => true,
    }
}

impl StateRecordView {
    /// Whether each text of the record fits its line.
    pub open spec fn fits_lines(self) -> bool {
        &&& fits_line(self.agent)
        &&& fits_line(self.updated_at)
        &&& fits_line(self.harness)
        &&& fits_line(self.session)
        &&& fits_line(self.window)
        &&& optional_fits_line(self.window_id)
        &&& optional_fits_line(self.server_pid)
    }
}

/// A state file gives back the record that was written to it.
#[verifier::rlimit(50)]
pub proof fn law_kv_round_trips(record: StateRecordView)
    requires
        record.fits_lines(),
    ensures
        kv_record(kv_text(record)) == Some(record),
{
    let required: Seq<(Seq<char>, Seq<char>)> = seq![
        ("agent"@, record.agent),
        ("state"@, word_of(record.state)),
        ("updated_at"@, record.updated_at),
        ("harness"@, record.harness),
        ("session"@, record.session),
        ("window"@, record.window),
    ];
    let with_id = match record.window_id {
        Some(id) => required.push(("window_id"@, id)),
        None => required,
    };
    let pairs = match record.server_pid {
        Some(pid) => with_id.push(("server_pid"@, pid)),
        None => with_id,
    };
    lemma_words();
    lemma_keys_distinct();
    assert(kv_text(record) == pairs_text(pairs)) by {
        reveal_with_fuel(pairs_text, 7);
        assert(pairs_text(required) == kv_line("agent"@, record.agent) + kv_line(
            "state"@,
            word_of(record.state),
        ) + kv_line("updated_at"@, record.updated_at) + kv_line("harness"@, record.harness)
            + kv_line("session"@, record.session) + kv_line("window"@, record.window)) by {
            assert(required.take(6) == required);
            lemma_pairs_text_step(required, 0);
            lemma_pairs_text_step(required, 1);
            lemma_pairs_text_step(required, 2);
            lemma_pairs_text_step(required, 3);
            lemma_pairs_text_step(required, 4);
            lemma_pairs_text_step(required, 5);
        }
        assert(required.push(("window_id"@, record.window_id->0)).drop_last() == required);
        assert(with_id.push(("server_pid"@, record.server_pid->0)).drop_last() == with_id);
        assert(pairs_text(with_id) == pairs_text(required) + optional_kv_line(
            "window_id"@,
            record.window_id,
        ));
        assert(pairs_text(pairs) == pairs_text(with_id) + optional_kv_line(
            "server_pid"@,
            record.server_pid,
        ));
    }
    lemma_pairs_read_back(pairs);
    assert(states_known(pairs));
    assert(record_of(pairs) == Some(record)) by {
        assert(with_id.push(("server_pid"@, record.server_pid->0)).drop_last() == with_id);
        assert(required.push(("window_id"@, record.window_id->0)).drop_last() == required);
        assert(required.drop_last() == required.take(5));
        assert(required.take(5).drop_last() == required.take(4));
        assert(required.take(4).drop_last() == required.take(3));
        assert(required.take(3).drop_last() == required.take(2));
        assert(required.take(2).drop_last() == required.take(1));
        assert(required.take(1).drop_last() == required.take(0));
        reveal_with_fuel(last_value, 9);
    }
}

/// The text that `pairs` are written as.
spec fn pairs_text(pairs: Seq<(Seq<char>, Seq<char>)>) -> Seq<char>
    decreases pairs.len(),
{
    if pairs.len() == 0 {
        seq![]
    } else {
        pairs_text(pairs.drop_last()) + kv_line(pairs.last().0, pairs.last().1)
    }
}

proof fn lemma_pairs_text_step(pairs: Seq<(Seq<char>, Seq<char>)>, n: int)
    requires
        0 <= n < pairs.len(),
    ensures
        pairs_text(pairs.take(n + 1)) == pairs_text(pairs.take(n)) + kv_line(
            pairs[n].0,
            pairs[n].1,
        ),
        n == 0 ==> pairs_text(pairs.take(1)) == kv_line(pairs[0].0, pairs[0].1),
{
    assert(pairs.take(n + 1).drop_last() == pairs.take(n));
    if n == 0 {
        assert(pairs_text(pairs.take(1)) == kv_line(pairs[0].0, pairs[0].1));
    }
}

/// A key that is read back: it holds neither the separator nor a line feed.
spec fn is_key(key: Seq<char>) -> bool {
    forall|i: int| 0 <= i < key.len() ==> key[i] != '=' && key[i] != '\n'
}

/// The keys and the state words read back.
proof fn lemma_words()
    ensures
        is_key("agent"@),
        is_key("state"@),
        is_key("updated_at"@),
        is_key("harness"@),
        is_key("session"@),
        is_key("window"@),
        is_key("window_id"@),
        is_key("server_pid"@),
        forall|state: State| fits_line(#[trigger] word_of(state)),
        forall|state: State| state_of(#[trigger] word_of(state)) == Some(state),
{
    reveal_strlit("agent");
    reveal_strlit("state");
    reveal_strlit("updated_at");
    reveal_strlit("harness");
    reveal_strlit("session");
    reveal_strlit("window");
    reveal_strlit("window_id");
    reveal_strlit("server_pid");
    reveal_strlit("working");
    reveal_strlit("approval");
    reveal_strlit("done");
    reveal_strlit("error");
    assert("working"@[0] == 'w');
    assert("approval"@[0] == 'a');
    assert("done"@[0] == 'd');
    assert("error"@[0] == 'e');
}

/// Pairs are read back as they were written.
proof fn lemma_pairs_read_back(pairs: Seq<(Seq<char>, Seq<char>)>)
    requires
        forall|i: int|
            0 <= i < pairs.len() ==> is_key((#[trigger] pairs[i]).0) && fits_line(pairs[i].1),
    ensures
        kv_pairs(lines_of(pairs_text(pairs))) == Some(pairs),
        pairs.len() > 0 ==> pairs_text(pairs).len() > 0 && pairs_text(pairs).last() == '\n',
    decreases pairs.len(),
{
    if pairs.len() == 0 {
        assert(lines_of(pairs_text(pairs)) == Seq::<Seq<char>>::empty());
        assert(kv_pairs(lines_of(pairs_text(pairs)))->0 == pairs);
    } else {
        let earlier = pairs.drop_last();
        lemma_pairs_read_back(earlier);
        let (key, value) = pairs.last();
        assert(is_key(pairs[pairs.len() - 1].0));
        let line = key + seq!['='] + value;
        assert(fits_line(line));
        assert(pairs_text(pairs) == pairs_text(earlier) + line + seq!['\n']);
        lemma_lines_append(pairs_text(earlier), line);
        lemma_position_is(line, '=', key.len() as int);
        assert(line.take(key.len() as int) == key);
        assert(line.skip(key.len() + 1int) == value);
        let lines = lines_of(pairs_text(pairs));
        let earlier_lines = lines_of(pairs_text(earlier));
        assert(lines == earlier_lines.push(line));
        assert forall|i: int| 0 <= i < lines.len() implies split_first(
            #[trigger] lines[i],
            '=',
        ) is Some by {
            if i < earlier_lines.len() {
                assert(lines[i] == earlier_lines[i]);
            }
        }
        assert(kv_pairs(lines)->0 == pairs) by {
            assert(kv_pairs(earlier_lines)->0 == earlier);
            assert forall|i: int| 0 <= i < pairs.len() implies kv_pairs(lines)->0[i]
                == pairs[i] by {
                if i < earlier.len() {
                    assert(kv_pairs(earlier_lines)->0[i] == earlier[i]);
                }
            }
        }
    }
}

/// The view of an optional path.
pub open spec fn optional_path(path: Option<&[u8]>) -> Option<Seq<u8>> {
    match path {
        Some(p) => Some(p@),
        None => None,
    }
}

/// Where state files are kept: below `$XDG_CACHE_HOME` if that is an absolute path, else
/// below the `.cache` of `$HOME` if that is one.
pub open spec fn cache_root_of(
    xdg_cache_home: Option<Seq<u8>>,
    home: Option<Seq<u8>>,
) -> Option<Seq<u8>> {
    if xdg_cache_home is Some && is_rooted(xdg_cache_home->0) {
        Some(joined(xdg_cache_home->0, encode_utf8("bergr"@)))
    } else if home is Some && is_rooted(home->0) {
        Some(joined(joined(home->0, encode_utf8(".cache"@)), encode_utf8("bergr"@)))
    } else {
        None
    }
}

/// The directory below `root` that holds the state files of `session`.
pub open spec fn session_dir_of(root: Seq<u8>, session: Seq<char>) -> Seq<u8> {
    joined(root, encode_utf8(session_component(session)))
}

/// The state file of `agent` in `session`, below `root`.
pub open spec fn state_path_of(root: Seq<u8>, session: Seq<char>, agent: Seq<char>) -> Seq<u8> {
    joined(session_dir_of(root, session), encode_utf8(agent_component(agent) + ".state"@))
}

/// `$XDG_CACHE_HOME`, defaulting to `$HOME/.cache` per the XDG base dir spec. Errors if
/// neither is an absolute path rather than silently resolving to a relative one.
pub fn cache_root(xdg_cache_home: Option<&[u8]>, home: Option<&[u8]>) -> (root: Result<
    Vec<u8>,
    &'static str,
>)
    ensures
        match root {
            Ok(path) => cache_root_of(optional_path(xdg_cache_home), optional_path(home)) == Some(
                path@,
            ),
            Err(message) => cache_root_of(optional_path(xdg_cache_home), optional_path(home)) is None
                && message@ == "neither XDG_CACHE_HOME nor an absolute HOME is set"@,
        },
{
    if let Some(xdg) = xdg_cache_home {
        if has_root(xdg) {
            return Ok(join(xdg, "bergr".as_bytes()));
        }
    }
    if let Some(home) = home {
        if has_root(home) {
            return Ok(join(&join(home, ".cache".as_bytes()), "bergr".as_bytes()));
        }
    }
    Err("neither XDG_CACHE_HOME nor an absolute HOME is set")
}

/// The directory that holds the state files of `session`.
pub fn session_dir(
    xdg_cache_home: Option<&[u8]>,
    home: Option<&[u8]>,
    session: &str,
) -> (dir: Result<Vec<u8>, &'static str>)
    ensures
        match dir {
            Ok(path) => cache_root_of(
                optional_path(xdg_cache_home),
                optional_path(home),
            ) matches Some(root) && path@ == session_dir_of(root, session@),
            Err(message) => cache_root_of(optional_path(xdg_cache_home), optional_path(home)) is None
                && message@ == "neither XDG_CACHE_HOME nor an absolute HOME is set"@,
        },
{
    match cache_root(xdg_cache_home, home) {
        Ok(root) => Ok(join(&root, encode_session_component(session).as_str().as_bytes())),
        Err(message) => Err(message),
    }
}

/// The state file of `agent` in `session`.
pub fn state_path(
    xdg_cache_home: Option<&[u8]>,
    home: Option<&[u8]>,
    session: &str,
    agent: &str,
) -> (path: Result<Vec<u8>, &'static str>)
    ensures
        match path {
            Ok(path) => cache_root_of(
                optional_path(xdg_cache_home),
                optional_path(home),
            ) matches Some(root) && path@ == state_path_of(root, session@, agent@),
            Err(message) => cache_root_of(optional_path(xdg_cache_home), optional_path(home)) is None
                && message@ == "neither XDG_CACHE_HOME nor an absolute HOME is set"@,
        },
{
    match session_dir(xdg_cache_home, home, session) {
        Ok(dir) => {
            let mut file = encode_path_component(agent);
            file.append(".state");
            Ok(join(&dir, file.as_str().as_bytes()))
        },
        Err(message) => Err(message),
    }
}

/// A state file lies below the cache root, in a directory of its session, whatever the
/// session and the agent are called: its path adds exactly two names to the root's.
pub proof fn law_state_path_stays_below_root(root: Seq<u8>, session: Seq<char>, agent: Seq<char>)
    requires
        session.len() > 0,
    ensures
        components(state_path_of(root, session, agent)) == components(root).push(
            encode_utf8(session_component(session)),
        ).push(encode_utf8(agent_component(agent) + ".state"@)),
        file_name_of(state_path_of(root, session, agent)) == Some(
            encode_utf8(agent_component(agent) + ".state"@),
        ),
{
    law_session_component_is_one_name(session);
    law_state_file_is_one_name(agent);
    law_join_adds_one_name(root, encode_utf8(session_component(session)));
    law_join_adds_one_name(
        session_dir_of(root, session),
        encode_utf8(agent_component(agent) + ".state"@),
    );
}

/// The names that lead to a state file; a session without a name adds none.
proof fn lemma_state_path_names(root: Seq<u8>, session: Seq<char>, agent: Seq<char>)
    ensures
        components(state_path_of(root, session, agent)) == if session.len() == 0 {
            components(root).push(encode_utf8(agent_component(agent) + ".state"@))
        } else {
            components(root).push(encode_utf8(session_component(session))).push(
                encode_utf8(agent_component(agent) + ".state"@),
            )
        },
{
    if session.len() == 0 {
        assert(session_component(session) == Seq::<char>::empty());
        assert(encode_utf8(session_component(session)) == Seq::<u8>::empty());
        lemma_join_nothing(root);
        law_state_file_is_one_name(agent);
        law_join_adds_one_name(
            session_dir_of(root, session),
            encode_utf8(agent_component(agent) + ".state"@),
        );
    } else {
        law_state_path_stays_below_root(root, session, agent);
    }
}

/// State files are keyed by the session, and by the agent up to ASCII case.
pub proof fn law_state_paths_are_keyed(
    root: Seq<u8>,
    session: Seq<char>,
    agent: Seq<char>,
    other_session: Seq<char>,
    other_agent: Seq<char>,
)
    ensures
        state_path_of(root, session, agent) == state_path_of(root, other_session, other_agent)
            <==> session == other_session && ascii_lowered(agent) == ascii_lowered(other_agent),
{
    let path = state_path_of(root, session, agent);
    let other_path = state_path_of(root, other_session, other_agent);
    let file = agent_component(agent) + ".state"@;
    let other_file = agent_component(other_agent) + ".state"@;
    if path == other_path {
        lemma_state_path_names(root, session, agent);
        lemma_state_path_names(root, other_session, other_agent);
        let names = components(path);
        assert(names.last() == encode_utf8(file));
        assert(names.last() == encode_utf8(other_file));
        assert(session.len() == 0 <==> names.len() == components(root).len() + 1);
        assert(other_session.len() == 0 <==> names.len() == components(root).len() + 1);
        if session.len() > 0 {
            assert(names.drop_last().last() == encode_utf8(session_component(session)));
            assert(names.drop_last().last() == encode_utf8(session_component(other_session)));
        }
        vstd::utf8::encode_utf8_decode_utf8(file);
        vstd::utf8::encode_utf8_decode_utf8(other_file);
        vstd::utf8::encode_utf8_decode_utf8(session_component(session));
        vstd::utf8::encode_utf8_decode_utf8(session_component(other_session));
        assert(agent_component(agent) == file.take(file.len() - ".state"@.len()));
        assert(agent_component(other_agent) == file.take(file.len() - ".state"@.len()));
        assert(session.len() == 0 ==> session == other_session);
    }
    law_sessions_are_kept_apart(session, other_session);
    law_agents_are_told_apart_but_for_case(agent, other_agent);
}

/// Which events put an agent in which state: each state has these events and no others, and
/// every other event, `SessionEnd` among them, puts it in none.
pub proof fn law_events_of_each_state(event: Seq<char>)
    ensures
        event_state(event) == Some(State::Working) <==> seq![
            "SessionStart"@,
            "UserPromptSubmit"@,
            "PreToolUse"@,
        ].contains(event),
        event_state(event) == Some(State::Approval) <==> event == "PermissionRequest"@,
        event_state(event) == Some(State::Error) <==> seq![
            "PostToolUseFailure"@,
            "StopFailure"@,
        ].contains(event),
        event_state(event) == Some(State::Done) <==> event == "Stop"@,
        event_state("SessionEnd"@) is None,
{
    lemma_event_words();
    let working = seq!["SessionStart"@, "UserPromptSubmit"@, "PreToolUse"@];
    let error = seq!["PostToolUseFailure"@, "StopFailure"@];
    assert(working[0] == "SessionStart"@ && working[1] == "UserPromptSubmit"@ && working[2]
        == "PreToolUse"@);
    assert(error[0] == "PostToolUseFailure"@ && error[1] == "StopFailure"@);
}

/// The names of the events are different words.
proof fn lemma_event_words()
    ensures
        seq![
            "SessionStart"@,
            "UserPromptSubmit"@,
            "PreToolUse"@,
            "PermissionRequest"@,
            "PostToolUseFailure"@,
            "Stop"@,
            "StopFailure"@,
            "SessionEnd"@,
        ].no_duplicates(),
        "SessionStart"@ != "SessionEnd"@,
        "UserPromptSubmit"@ != "SessionEnd"@,
        "PreToolUse"@ != "SessionEnd"@,
        "PermissionRequest"@ != "SessionEnd"@,
        "PostToolUseFailure"@ != "SessionEnd"@,
        "Stop"@ != "SessionEnd"@,
        "StopFailure"@ != "SessionEnd"@,
        "PermissionRequest"@ != "SessionStart"@,
        "PermissionRequest"@ != "UserPromptSubmit"@,
        "PermissionRequest"@ != "PreToolUse"@,
        "PostToolUseFailure"@ != "SessionStart"@,
        "PostToolUseFailure"@ != "UserPromptSubmit"@,
        "PostToolUseFailure"@ != "PreToolUse"@,
        "PostToolUseFailure"@ != "PermissionRequest"@,
        "StopFailure"@ != "SessionStart"@,
        "StopFailure"@ != "UserPromptSubmit"@,
        "StopFailure"@ != "PreToolUse"@,
        "StopFailure"@ != "PermissionRequest"@,
        "Stop"@ != "SessionStart"@,
        "Stop"@ != "UserPromptSubmit"@,
        "Stop"@ != "PreToolUse"@,
        "Stop"@ != "PermissionRequest"@,
        "Stop"@ != "PostToolUseFailure"@,
        "Stop"@ != "StopFailure"@,
{
    reveal_strlit("SessionStart");
    reveal_strlit("UserPromptSubmit");
    reveal_strlit("PreToolUse");
    reveal_strlit("PermissionRequest");
    reveal_strlit("PostToolUseFailure");
    reveal_strlit("Stop");
    reveal_strlit("StopFailure");
    reveal_strlit("SessionEnd");
    let names = seq![
        "SessionStart"@,
        "UserPromptSubmit"@,
        "PreToolUse"@,
        "PermissionRequest"@,
        "PostToolUseFailure"@,
        "Stop"@,
        "StopFailure"@,
        "SessionEnd"@,
    ];
    assert("PreToolUse"@[0] == 'P');
    assert("SessionEnd"@[0] == 'S');
    assert forall|i: int, j: int| 0 <= i < names.len() && 0 <= j < names.len() && i != j implies
        names[i] != names[j] by {
        assert(names[i].len() != names[j].len() || names[i][0] != names[j][0]);
    }
}

/// Each state has its symbol and its word, and no two share one; a word that stands for no
/// state is none of the four.
pub proof fn law_states_are_told_apart(a: State, b: State, word: Seq<char>)
    ensures
        symbol_of(State::Working) == ""@,
        symbol_of(State::Approval) == "!"@,
        symbol_of(State::Done) == "\u{2713}"@,
        symbol_of(State::Error) == "\u{2717}"@,
        symbol_of(a) == symbol_of(b) <==> a == b,
        state_of(word) == Some(a) <==> word == word_of(a),
        word_of(State::Working) == "working"@,
        word_of(State::Approval) == "approval"@,
        word_of(State::Done) == "done"@,
        word_of(State::Error) == "error"@,
{
    reveal_strlit("");
    reveal_strlit("!");
    reveal_strlit("\u{2713}");
    reveal_strlit("\u{2717}");
    lemma_words();
    assert(symbol_of(State::Approval)[0] == '!');
    assert(symbol_of(State::Done)[0] == '\u{2713}');
    assert(symbol_of(State::Error)[0] == '\u{2717}');
    assert(symbol_of(State::Working).len() == 0);
    assert(state_of(word_of(a)) == Some(a));
    assert(symbol_of(State::Working) =~= ""@);
    assert(symbol_of(State::Approval) =~= "!"@);
    assert(symbol_of(State::Done) =~= "\u{2713}"@);
    assert(symbol_of(State::Error) =~= "\u{2717}"@);
}

/// The pairs of a text behind which one more line stands.
proof fn lemma_pairs_append(text: Seq<char>, key: Seq<char>, value: Seq<char>)
    requires
        text.len() > 0 ==> text.last() == '\n',
        is_key(key),
        fits_line(value),
    ensures
        kv_pairs(lines_of(text + kv_line(key, value))) == match kv_pairs(lines_of(text)) {
            Some(pairs) => Some(pairs.push((key, value))),
            None => None,
        },
{
    let line = key + seq!['='] + value;
    assert(fits_line(line));
    assert(text + kv_line(key, value) == text + line + seq!['\n']);
    lemma_lines_append(text, line);
    lemma_position_is(line, '=', key.len() as int);
    assert(line.take(key.len() as int) == key);
    assert(line.skip(key.len() + 1int) == value);
    let earlier = lines_of(text);
    let all = lines_of(text + kv_line(key, value));
    assert(all == earlier.push(line));
    if kv_pairs(earlier) is Some {
        assert forall|i: int| 0 <= i < all.len() implies split_first(
            #[trigger] all[i],
            '=',
        ) is Some by {
            if i < earlier.len() {
                assert(all[i] == earlier[i]);
            }
        }
        assert(kv_pairs(all)->0 == kv_pairs(earlier)->0.push((key, value)));
    } else {
        let i = choose|i: int|
            0 <= i < earlier.len() && split_first(#[trigger] earlier[i], '=') is None;
        assert(all[i] == earlier[i]);
    }
}

/// A line behind those of a record sets what its key names: the last value counts, a key
/// that is none of the eight changes nothing, and a state that is none of the four spoils
/// the record.
pub proof fn law_later_line_counts(
    text: Seq<char>,
    key: Seq<char>,
    value: Seq<char>,
    record: StateRecordView,
)
    requires
        text.len() > 0 ==> text.last() == '\n',
        !key.contains('=') && !key.contains('\n'),
        fits_line(value),
        kv_record(text) == Some(record),
    ensures
        ({
            let after = kv_record(text + key + "="@ + value + "\n"@);
            &&& key == "agent"@ ==> after == Some(StateRecordView { agent: value, ..record })
            &&& key == "updated_at"@ ==> after == Some(
                StateRecordView { updated_at: value, ..record },
            )
            &&& key == "harness"@ ==> after == Some(StateRecordView { harness: value, ..record })
            &&& key == "session"@ ==> after == Some(StateRecordView { session: value, ..record })
            &&& key == "window"@ ==> after == Some(StateRecordView { window: value, ..record })
            &&& key == "window_id"@ ==> after == Some(
                StateRecordView { window_id: Some(value), ..record },
            )
            &&& key == "server_pid"@ ==> after == Some(
                StateRecordView { server_pid: Some(value), ..record },
            )
            &&& key == "state"@ ==> after == match state_of(value) {
                Some(state) => Some(StateRecordView { state, ..record }),
                None => None,
            }
            &&& !seq![
                "agent"@,
                "state"@,
                "updated_at"@,
                "harness"@,
                "session"@,
                "window"@,
                "window_id"@,
                "server_pid"@,
            ].contains(key) ==> after == Some(record)
        }),
{
    reveal_strlit("=");
    reveal_strlit("\n");
    lemma_keys_distinct();
    assert(text + key + "="@ + value + "\n"@ == text + kv_line(key, value));
    assert(is_key(key)) by {
        assert forall|i: int| 0 <= i < key.len() implies key[i] != '=' && key[i] != '\n' by {
            assert(key.contains(key[i]));
        }
    }
    lemma_pairs_append(text, key, value);
    let pairs = kv_pairs(lines_of(text))->0;
    let more = pairs.push((key, value));
    assert(more.drop_last() == pairs);
    assert forall|other: Seq<char>| #[trigger] last_value(more, other) == if other == key {
        Some(value)
    } else {
        last_value(pairs, other)
    } by {}
    assert(states_known(more) <==> !(key == "state"@ && state_of(value) is None)) by {
        assert(more[pairs.len() as int] == (key, value));
        assert forall|i: int|
            0 <= i < pairs.len() && (#[trigger] more[i]).0 == "state"@ implies state_of(
            more[i].1,
        ) is Some by {
            assert(more[i] == pairs[i]);
        }
    }
    let keys = seq![
        "agent"@,
        "state"@,
        "updated_at"@,
        "harness"@,
        "session"@,
        "window"@,
        "window_id"@,
        "server_pid"@,
    ];
    assert(keys[0] == "agent"@ && keys[1] == "state"@ && keys[2] == "updated_at"@ && keys[3]
        == "harness"@ && keys[4] == "session"@ && keys[5] == "window"@ && keys[6] == "window_id"@
        && keys[7] == "server_pid"@);
}

/// What a record holds stands in the lines that it was read from, and none of those lacks a
/// separator.
pub proof fn law_record_stands_in_its_lines(text: Seq<char>, record: StateRecordView)
    requires
        kv_record(text) == Some(record),
    ensures
        lines_of(text).contains("agent="@ + record.agent),
        lines_of(text).contains("state="@ + word_of(record.state)),
        lines_of(text).contains("updated_at="@ + record.updated_at),
        record.harness.len() > 0 ==> lines_of(text).contains("harness="@ + record.harness),
        lines_of(text).contains("session="@ + record.session),
        lines_of(text).contains("window="@ + record.window),
        record.window_id matches Some(id) ==> lines_of(text).contains("window_id="@ + id),
        record.server_pid matches Some(pid) ==> lines_of(text).contains("server_pid="@ + pid),
        forall|i: int| 0 <= i < lines_of(text).len() ==> (#[trigger] lines_of(text)[i]).contains('='),
{
    let lines = lines_of(text);
    let pairs = kv_pairs(lines)->0;
    reveal_strlit("agent=");
    reveal_strlit("agent");
    reveal_strlit("state=");
    reveal_strlit("state");
    reveal_strlit("updated_at=");
    reveal_strlit("updated_at");
    reveal_strlit("harness=");
    reveal_strlit("harness");
    reveal_strlit("session=");
    reveal_strlit("session");
    reveal_strlit("window=");
    reveal_strlit("window");
    reveal_strlit("window_id=");
    reveal_strlit("window_id");
    reveal_strlit("server_pid=");
    reveal_strlit("server_pid");
    assert("agent="@ == "agent"@ + seq!['=']);
    assert("state="@ == "state"@ + seq!['=']);
    assert("updated_at="@ == "updated_at"@ + seq!['=']);
    assert("harness="@ == "harness"@ + seq!['=']);
    assert("session="@ == "session"@ + seq!['=']);
    assert("window="@ == "window"@ + seq!['=']);
    assert("window_id="@ == "window_id"@ + seq!['=']);
    assert("server_pid="@ == "server_pid"@ + seq!['=']);
    lemma_value_has_a_line(lines, "agent"@);
    lemma_value_has_a_line(lines, "state"@);
    lemma_value_has_a_line(lines, "updated_at"@);
    lemma_value_has_a_line(lines, "harness"@);
    lemma_value_has_a_line(lines, "session"@);
    lemma_value_has_a_line(lines, "window"@);
    lemma_value_has_a_line(lines, "window_id"@);
    lemma_value_has_a_line(lines, "server_pid"@);
    let word = last_value(pairs, "state"@)->0;
    lemma_last_value_is_there(pairs, "state"@);
    assert(word == word_of(record.state));
    assert forall|i: int| 0 <= i < lines.len() implies (#[trigger] lines[i]).contains('=') by {
        assert(split_first(lines[i], '=') is Some);
        lemma_position(lines[i], '=');
    }
}

/// The value that counts for a key is that of one of its pairs.
proof fn lemma_last_value_is_there(pairs: Seq<(Seq<char>, Seq<char>)>, key: Seq<char>)
    ensures
        last_value(pairs, key) matches Some(value) ==> pairs.contains((key, value)),
    decreases pairs.len(),
{
    if pairs.len() > 0 {
        let fewer = pairs.drop_last();
        lemma_last_value_is_there(fewer, key);
        if pairs.last().0 == key {
            assert(pairs[pairs.len() - 1] == (key, pairs.last().1));
        } else if let Some(value) = last_value(fewer, key) {
            let i = choose|i: int| 0 <= i < fewer.len() && fewer[i] == (key, value);
            assert(pairs[i] == (key, value));
        }
    }
}

/// The value that counts for a key stands behind it on some line.
proof fn lemma_value_has_a_line(lines: Seq<Seq<char>>, key: Seq<char>)
    requires
        kv_pairs(lines) is Some,
    ensures
        last_value(kv_pairs(lines)->0, key) matches Some(value) ==> lines.contains(
            key + seq!['='] + value,
        ),
{
    let pairs = kv_pairs(lines)->0;
    lemma_last_value_is_there(pairs, key);
    if let Some(value) = last_value(pairs, key) {
        let i = choose|i: int| 0 <= i < pairs.len() && pairs[i] == (key, value);
        assert(split_first(lines[i], '=') is Some);
        lemma_position(lines[i], '=');
        assert(pairs[i] == split_first(lines[i], '=')->0);
        assert(lines[i] == key + seq!['='] + value);
    }
}

/// The cache lies below the absolute directory that the variable names, whatever the home
/// is; else below the `.cache` of an absolute home; and without either nowhere.
pub proof fn law_cache_is_found(
    xdg: Option<Seq<u8>>,
    home: Option<Seq<u8>>,
    other_home: Option<Seq<u8>>,
)
    ensures
        xdg is Some && is_rooted(xdg->0) ==> {
            &&& cache_root_of(xdg, home) matches Some(root)
            &&& components(root) == components(xdg->0).push(encode_utf8("bergr"@))
            &&& is_rooted(root)
            &&& cache_root_of(xdg, home) == cache_root_of(xdg, other_home)
        },
        (xdg is None || !is_rooted(xdg->0)) && home is Some && is_rooted(home->0) ==> {
            &&& cache_root_of(xdg, home) matches Some(root)
            &&& components(root) == components(home->0).push(encode_utf8(".cache"@)).push(
                encode_utf8("bergr"@),
            )
            &&& is_rooted(root)
        },
        (xdg is None || !is_rooted(xdg->0)) && (home is None || !is_rooted(home->0))
            ==> cache_root_of(xdg, home) is None,
{
    let name = encode_utf8("bergr"@);
    let cache = encode_utf8(".cache"@);
    assert(is_name(name) && !is_rooted(name)) by {
        reveal_strlit("bergr");
        vstd::utf8::is_ascii_chars_encode_utf8("bergr"@);
        assert forall|i: int| 0 <= i < name.len() implies name[i] != SLASH by {
            assert("bergr"@[i] as u8 == name[i]);
        }
    }
    assert(is_name(cache) && !is_rooted(cache)) by {
        reveal_strlit(".cache");
        vstd::utf8::is_ascii_chars_encode_utf8(".cache"@);
        assert forall|i: int| 0 <= i < cache.len() implies cache[i] != SLASH by {
            assert(".cache"@[i] as u8 == cache[i]);
        }
    }
    if xdg is Some && is_rooted(xdg->0) {
        law_join_adds_one_name(xdg->0, name);
        law_join_writes_one_slash(xdg->0, name);
    }
    if home is Some && is_rooted(home->0) {
        law_join_adds_one_name(home->0, cache);
        law_join_writes_one_slash(home->0, cache);
        law_join_adds_one_name(joined(home->0, cache), name);
        law_join_writes_one_slash(joined(home->0, cache), name);
    }
}

/// The lines of text behind text that ends a line come behind its lines.
proof fn lemma_lines_concat(before: Seq<char>, after: Seq<char>)
    requires
        before.len() > 0 ==> before.last() == '\n',
    ensures
        lines_of(before + after) == lines_of(before) + lines_of(after),
    decreases before.len(),
{
    let s = before + after;
    if before.len() == 0 {
        assert(s == after);
        assert(lines_of(before) + lines_of(after) == lines_of(after));
    } else {
        let at = position(before, '\n');
        lemma_position(before, '\n');
        lemma_position_is(s, '\n', at);
        let rest = before.skip(at + 1);
        assert(s.take(at) == before.take(at));
        assert(s.skip(at + 1) == rest + after);
        lemma_lines_concat(rest, after);
        assert(lines_of(s) == lines_of(before) + lines_of(after));
    }
}

/// The pairs of lines behind lines come behind their pairs.
proof fn lemma_pairs_concat(a: Seq<Seq<char>>, b: Seq<Seq<char>>)
    ensures
        kv_pairs(a + b) == if kv_pairs(a) is Some && kv_pairs(b) is Some {
            Some(kv_pairs(a)->0 + kv_pairs(b)->0)
        } else {
            None
        },
{
    let all = a + b;
    if kv_pairs(a) is Some && kv_pairs(b) is Some {
        assert forall|i: int| 0 <= i < all.len() implies split_first(
            #[trigger] all[i],
            '=',
        ) is Some by {
            if i < a.len() {
                assert(all[i] == a[i]);
            } else {
                assert(all[i] == b[i - a.len()]);
            }
        }
        assert(kv_pairs(all)->0 == kv_pairs(a)->0 + kv_pairs(b)->0);
    } else if kv_pairs(a) is None {
        let i = choose|i: int| 0 <= i < a.len() && split_first(#[trigger] a[i], '=') is None;
        assert(all[i] == a[i]);
    } else {
        let i = choose|i: int| 0 <= i < b.len() && split_first(#[trigger] b[i], '=') is None;
        assert(all[a.len() + i] == b[i]);
    }
}

/// What pairs behind others give a key counts before what those give it.
proof fn lemma_last_value_concat(
    a: Seq<(Seq<char>, Seq<char>)>,
    b: Seq<(Seq<char>, Seq<char>)>,
    key: Seq<char>,
)
    ensures
        last_value(a + b, key) == match last_value(b, key) {
            Some(value) => Some(value),
            None => last_value(a, key),
        },
    decreases b.len(),
{
    if b.len() == 0 {
        assert(a + b == a);
    } else {
        assert((a + b).drop_last() == a + b.drop_last());
        lemma_last_value_concat(a, b.drop_last(), key);
    }
}

/// The states of pairs are known if those of their parts are.
proof fn lemma_states_known_concat(
    a: Seq<(Seq<char>, Seq<char>)>,
    b: Seq<(Seq<char>, Seq<char>)>,
)
    ensures
        states_known(a + b) <==> states_known(a) && states_known(b),
{
    let all = a + b;
    if states_known(all) {
        assert forall|i: int| 0 <= i < a.len() && (#[trigger] a[i]).0 == "state"@ implies state_of(
            a[i].1,
        ) is Some by {
            assert(all[i] == a[i]);
        }
        assert forall|i: int| 0 <= i < b.len() && (#[trigger] b[i]).0 == "state"@ implies state_of(
            b[i].1,
        ) is Some by {
            assert(all[a.len() + i] == b[i]);
        }
    }
    if states_known(a) && states_known(b) {
        assert forall|i: int|
            0 <= i < all.len() && (#[trigger] all[i]).0 == "state"@ implies state_of(
            all[i].1,
        ) is Some by {
            if i < a.len() {
                assert(all[i] == a[i]);
            } else {
                assert(all[i] == b[i - a.len()]);
            }
        }
    }
}

/// The pair of one line.
proof fn lemma_one_pair(key: Seq<char>, value: Seq<char>)
    requires
        is_key(key),
        fits_line(value),
    ensures
        kv_pairs(lines_of(kv_line(key, value))) == Some(seq![(key, value)]),
        kv_line(key, value).last() == '\n',
{
    let nothing = Seq::<char>::empty();
    lemma_pairs_append(nothing, key, value);
    assert(nothing + kv_line(key, value) == kv_line(key, value));
    assert(lines_of(nothing) == Seq::<Seq<char>>::empty());
    assert(kv_pairs(lines_of(nothing))->0 == Seq::<(Seq<char>, Seq<char>)>::empty());
    assert(kv_pairs(lines_of(kv_line(key, value)))->0 == seq![(key, value)]);
}

/// The order of the lines does not count, but for lines with one key: two neighbours with
/// different keys may change places.
pub proof fn law_order_of_keys_does_not_count(
    before: Seq<char>,
    key: Seq<char>,
    value: Seq<char>,
    other_key: Seq<char>,
    other_value: Seq<char>,
    after: Seq<char>,
)
    requires
        before.len() > 0 ==> before.last() == '\n',
        !key.contains('=') && !key.contains('\n'),
        !other_key.contains('=') && !other_key.contains('\n'),
        key != other_key,
        fits_line(value),
        fits_line(other_value),
    ensures
        ({
            let line = key + "="@ + value + "\n"@;
            let other = other_key + "="@ + other_value + "\n"@;
            kv_record(before + line + other + after) == kv_record(before + other + line + after)
        }),
{
    reveal_strlit("=");
    reveal_strlit("\n");
    let line = kv_line(key, value);
    let other = kv_line(other_key, other_value);
    assert(line == key + "="@ + value + "\n"@);
    assert(other == other_key + "="@ + other_value + "\n"@);
    assert(is_key(key)) by {
        assert forall|i: int| 0 <= i < key.len() implies key[i] != '=' && key[i] != '\n' by {
            assert(key.contains(key[i]));
        }
    }
    assert(is_key(other_key)) by {
        assert forall|i: int| 0 <= i < other_key.len() implies other_key[i] != '='
            && other_key[i] != '\n' by {
            assert(other_key.contains(other_key[i]));
        }
    }
    lemma_one_pair(key, value);
    lemma_one_pair(other_key, other_value);
    lemma_two_lines(before, line, other, after);
    lemma_two_lines(before, other, line, after);
    if kv_pairs(lines_of(before)) is Some && kv_pairs(lines_of(after)) is Some {
        let head = kv_pairs(lines_of(before))->0;
        let tail = kv_pairs(lines_of(after))->0;
        let p = seq![(key, value)];
        let q = seq![(other_key, other_value)];
        lemma_states_known_concat(head + p + q, tail);
        lemma_states_known_concat(head + p, q);
        lemma_states_known_concat(head, p);
        lemma_states_known_concat(head + q + p, tail);
        lemma_states_known_concat(head + q, p);
        lemma_states_known_concat(head, q);
        assert forall|k: Seq<char>| #[trigger] last_value(head + p + q + tail, k) == last_value(
            head + q + p + tail,
            k,
        ) by {
            lemma_last_value_concat(head + p + q, tail, k);
            lemma_last_value_concat(head + p, q, k);
            lemma_last_value_concat(head, p, k);
            lemma_last_value_concat(head + q + p, tail, k);
            lemma_last_value_concat(head + q, p, k);
            lemma_last_value_concat(head, q, k);
            assert(p.drop_last() == Seq::<(Seq<char>, Seq<char>)>::empty());
            assert(q.drop_last() == Seq::<(Seq<char>, Seq<char>)>::empty());
            reveal_with_fuel(last_value, 2);
        }
    }
}

/// The pairs of two lines between others.
proof fn lemma_two_lines(before: Seq<char>, line: Seq<char>, other: Seq<char>, after: Seq<char>)
    requires
        before.len() > 0 ==> before.last() == '\n',
        line.len() > 0 && line.last() == '\n',
        other.len() > 0 && other.last() == '\n',
        kv_pairs(lines_of(line)) is Some,
        kv_pairs(lines_of(other)) is Some,
    ensures
        kv_pairs(lines_of(before + line + other + after)) == if kv_pairs(
            lines_of(before),
        ) is Some && kv_pairs(lines_of(after)) is Some {
            Some(
                kv_pairs(lines_of(before))->0 + kv_pairs(lines_of(line))->0 + kv_pairs(
                    lines_of(other),
                )->0 + kv_pairs(lines_of(after))->0,
            )
        } else {
            None
        },
{
    lemma_lines_concat(before + line + other, after);
    lemma_lines_concat(before + line, other);
    lemma_lines_concat(before, line);
    lemma_pairs_concat(lines_of(before + line + other), lines_of(after));
    lemma_pairs_concat(lines_of(before + line), lines_of(other));
    lemma_pairs_concat(lines_of(before), lines_of(line));
}

/// A line that names an unknown state spoils a record, wherever it stands.
pub proof fn law_unknown_state_spoils_the_record(text: Seq<char>, word: Seq<char>)
    requires
        lines_of(text).contains("state="@ + word),
        state_of(word) is None,
    ensures
        kv_record(text) is None,
{
    let lines = lines_of(text);
    let line = "state="@ + word;
    reveal_strlit("state=");
    reveal_strlit("state");
    assert(line == "state"@ + seq!['='] + word);
    let i = choose|i: int| 0 <= i < lines.len() && lines[i] == line;
    if let Some(pairs) = kv_pairs(lines) {
        lemma_words();
        lemma_position_is(line, '=', "state"@.len() as int);
        assert(line.take("state"@.len() as int) == "state"@);
        assert(line.skip("state"@.len() + 1int) == word);
        assert(pairs[i] == ("state"@, word));
    }
}

/// What the functions on states return: the symbol and the word of each, which `parse_state`
/// reads back and takes nothing else for.
pub proof fn law_state_words_and_symbols(
    state: State,
    symbol: &'static str,
    word: &'static str,
    text: &str,
    parsed: Option<State>,
)
    requires
        call_ensures(State::symbol, (state,), symbol),
        call_ensures(State::as_str, (state,), word),
        call_ensures(parse_state, (text,), parsed),
    ensures
        symbol@ == match state {
            State::Working => ""@,
            State::Approval => "!"@,
            State::Done => "\u{2713}"@,
            State::Error => "\u{2717}"@,
        },
        parsed == Some(state) <==> text@ == word@,
        parsed is Some <==> seq!["working"@, "approval"@, "done"@, "error"@].contains(text@),
{
    law_states_are_told_apart(state, state, text@);
    lemma_words();
    let words = seq!["working"@, "approval"@, "done"@, "error"@];
    assert(words[0] == "working"@ && words[1] == "approval"@ && words[2] == "done"@ && words[3]
        == "error"@);
}

/// What an event puts an agent in is decided by its name alone.
pub proof fn law_state_for_event_by_name(event: &str, state: Option<State>)
    requires
        call_ensures(state_for_event, (event,), state),
    ensures
        state is None <==> !seq![
            "SessionStart"@,
            "UserPromptSubmit"@,
            "PreToolUse"@,
            "PermissionRequest"@,
            "PostToolUseFailure"@,
            "StopFailure"@,
            "Stop"@,
        ].contains(event@),
        event@ == "PermissionRequest"@ <==> state == Some(State::Approval),
        event@ == "Stop"@ <==> state == Some(State::Done),
        event@ == "PostToolUseFailure"@ || event@ == "StopFailure"@ <==> state == Some(
            State::Error,
        ),
{
    law_events_of_each_state(event@);
    let names = seq![
        "SessionStart"@,
        "UserPromptSubmit"@,
        "PreToolUse"@,
        "PermissionRequest"@,
        "PostToolUseFailure"@,
        "StopFailure"@,
        "Stop"@,
    ];
    assert(names[0] == "SessionStart"@ && names[1] == "UserPromptSubmit"@ && names[2]
        == "PreToolUse"@ && names[3] == "PermissionRequest"@ && names[4] == "PostToolUseFailure"@
        && names[5] == "StopFailure"@ && names[6] == "Stop"@);
    let working = seq!["SessionStart"@, "UserPromptSubmit"@, "PreToolUse"@];
    let error = seq!["PostToolUseFailure"@, "StopFailure"@];
    assert(working[0] == "SessionStart"@ && working[1] == "UserPromptSubmit"@ && working[2]
        == "PreToolUse"@);
    assert(error[0] == "PostToolUseFailure"@ && error[1] == "StopFailure"@);
}

/// A record that `to_kv` wrote is the one that `from_kv` reads.
pub proof fn law_from_kv_reads_what_to_kv_wrote(
    record: StateRecord,
    text: String,
    read: &str,
    back: Option<StateRecord>,
)
    requires
        call_ensures(StateRecord::to_kv, (&record,), text),
        call_ensures(StateRecord::from_kv, (read,), back),
        read@ == text@,
        record@.fits_lines(),
    ensures
        back matches Some(r) && r@ == record@,
{
    law_kv_round_trips(record@);
}

/// The state file of an agent lies in the directory of its session, which lies in the
/// cache; there is one exactly if the variable or the home is an absolute path.
pub proof fn law_state_file_lies_in_its_session(
    xdg: Option<&[u8]>,
    home: Option<&[u8]>,
    session: &str,
    agent: &str,
    root: Result<Vec<u8>, &'static str>,
    dir: Result<Vec<u8>, &'static str>,
    path: Result<Vec<u8>, &'static str>,
)
    requires
        call_ensures(cache_root, (xdg, home), root),
        call_ensures(session_dir, (xdg, home, session), dir),
        call_ensures(state_path, (xdg, home, session, agent), path),
        session@.len() > 0,
    ensures
        root is Ok <==> (xdg is Some && is_rooted(xdg->0@)) || (home is Some && is_rooted(
            home->0@,
        )),
        root is Ok <==> dir is Ok,
        root is Ok <==> path is Ok,
        root is Ok ==> components(dir->Ok_0@) == components(root->Ok_0@).push(
            encode_utf8(session_component(session@)),
        ),
        root is Ok ==> components(path->Ok_0@) == components(dir->Ok_0@).push(
            encode_utf8(agent_component(agent@) + ".state"@),
        ),
        root is Ok && xdg is Some && is_rooted(xdg->0@) ==> components(root->Ok_0@) == components(
            xdg->0@,
        ).push(encode_utf8("bergr"@)),
        root is Err ==> root->Err_0@ == "neither XDG_CACHE_HOME nor an absolute HOME is set"@
            && dir->Err_0@ == root->Err_0@ && path->Err_0@ == root->Err_0@,
{
    law_cache_is_found(optional_path(xdg), optional_path(home), optional_path(home));
    if let Ok(found) = root {
        law_state_path_stays_below_root(found@, session@, agent@);
        law_session_component_is_one_name(session@);
        law_join_adds_one_name(found@, encode_utf8(session_component(session@)));
    }
}

/// The text of a state file, line by line.
pub proof fn law_text_of_a_state_file(record: StateRecordView)
    ensures
        kv_text(record) == "agent="@ + record.agent + "\nstate="@ + word_of(record.state)
            + "\nupdated_at="@ + record.updated_at + "\nharness="@ + record.harness + "\nsession="@
            + record.session + "\nwindow="@ + record.window + "\n"@ + match record.window_id {
            Some(id) => "window_id="@ + id + "\n"@,
            None => ""@,
        } + match record.server_pid {
            Some(pid) => "server_pid="@ + pid + "\n"@,
            None => ""@,
        },
{
    reveal_strlit("");
    reveal_strlit("\n");
    reveal_strlit("agent");
    reveal_strlit("agent=");
    reveal_strlit("state");
    reveal_strlit("\nstate=");
    reveal_strlit("updated_at");
    reveal_strlit("\nupdated_at=");
    reveal_strlit("harness");
    reveal_strlit("\nharness=");
    reveal_strlit("session");
    reveal_strlit("\nsession=");
    reveal_strlit("window");
    reveal_strlit("\nwindow=");
    reveal_strlit("window_id");
    reveal_strlit("window_id=");
    reveal_strlit("server_pid");
    reveal_strlit("server_pid=");
    assert("agent="@ == "agent"@ + seq!['=']);
    assert("\nstate="@ == seq!['\n'] + "state"@ + seq!['=']);
    assert("\nupdated_at="@ == seq!['\n'] + "updated_at"@ + seq!['=']);
    assert("\nharness="@ == seq!['\n'] + "harness"@ + seq!['=']);
    assert("\nsession="@ == seq!['\n'] + "session"@ + seq!['=']);
    assert("\nwindow="@ == seq!['\n'] + "window"@ + seq!['=']);
    assert("window_id="@ == "window_id"@ + seq!['=']);
    assert("server_pid="@ == "server_pid"@ + seq!['=']);
    assert("\n"@ == seq!['\n']);
    let required = kv_line("agent"@, record.agent) + kv_line("state"@, word_of(record.state))
        + kv_line("updated_at"@, record.updated_at) + kv_line("harness"@, record.harness) + kv_line(
        "session"@,
        record.session,
    ) + kv_line("window"@, record.window);
    assert(required == "agent="@ + record.agent + "\nstate="@ + word_of(record.state)
        + "\nupdated_at="@ + record.updated_at + "\nharness="@ + record.harness + "\nsession="@
        + record.session + "\nwindow="@ + record.window + "\n"@);
    assert(optional_kv_line("window_id"@, record.window_id) == match record.window_id {
        Some(id) => "window_id="@ + id + "\n"@,
        None => ""@,
    });
    assert(optional_kv_line("server_pid"@, record.server_pid) == match record.server_pid {
        Some(pid) => "server_pid="@ + pid + "\n"@,
        None => ""@,
    });
}

} // verus!
