//! Handling one hook event: what to record, what to delete, what to rename.

use crate::name::{is_suffix_char, lemma_suffix_chars, law_only_trailing_symbols_are_stripped};
use crate::name::{law_strip_is_idempotent, law_symbol_is_stripped, strip_suffix, stripped};
use crate::path::{components, file_name, file_name_of, is_name, joined};
use crate::path::law_join_adds_one_name;
use crate::reconcile::{rename_of, shown_record, shows_record, window_matches_record};
use crate::state::{cache_root_of, kv_record, kv_text, law_kv_round_trips};
use crate::state::{optional_fits_line, optional_path, state_path, state_path_of, symbol_of};
use crate::state::{State, StateRecord, StateRecordView};
use crate::sync::{law_shown_record_is_kept, orphaned, records_view};
use crate::text::{fits_line, lossy_text, lossy_text_of, optional_str, optional_text};
use crate::text::{law_trimming, trim, trimmed, utf8_text, Trim};
use crate::tmux::{Window, WindowView};
use vstd::prelude::*;
use vstd::utf8::{decode_utf8, encode_utf8, valid_utf8};

verus! {

/// The name of the agent: the variable, if it is set to something, else the name of the
/// window, both without status symbols, else the name of the directory.
pub open spec fn agent_of(
    variable: Option<Seq<char>>,
    window_name: Option<Seq<char>>,
    directory: Option<Seq<char>>,
) -> Seq<char> {
    if variable is Some && variable->0.len() > 0 {
        stripped(variable->0)
    } else if window_name is Some {
        stripped(window_name->0)
    } else if directory is Some {
        directory->0
    } else {
        seq![]
    }
}

/// The last name of a directory as text, in which what is not UTF-8 is replaced; `None` for
/// the root and for a path that ends in a parent directory.
pub fn directory_name(directory: &[u8]) -> (name: Option<String>)
    ensures
        optional_text(name) == match file_name_of(directory@) {
            Some(bytes) => Some(lossy_text_of(bytes)),
            None => None,
        },
        name matches Some(text) ==> valid_utf8(file_name_of(directory@)->0) ==> text@
            == decode_utf8(file_name_of(directory@)->0),
{
    match file_name(directory) {
        Some(bytes) => Some(lossy_text(&bytes)),
        None => None,
    }
}

/// Resolves the agent name: the `$BERGR_AGENT` override, else the current tmux window
/// name (suffix stripped), else the last name of the current directory.
pub fn resolve_agent(
    agent_variable: Option<&str>,
    window_name: Option<&str>,
    directory: Option<&str>,
) -> (agent: String)
    ensures
        agent@ == agent_of(
            optional_str(agent_variable),
            optional_str(window_name),
            optional_str(directory),
        ),
{
    if let Some(agent) = agent_variable {
        if !agent.is_empty() {
            return strip_suffix(agent);
        }
    }
    if let Some(window) = window_name {
        return strip_suffix(window);
    }
    match directory {
        Some(name) => name.to_owned(),
        None => String::new(),
    }
}

/// The current tmux window, or `None` if any of its id, index, or name can't be read.
pub fn current_window(id: Option<String>, index: Option<String>, name: Option<String>) -> (window:
    Option<Window>)
    ensures
        match window {
            Some(w) => id == Some(w.id) && index == Some(w.index) && name == Some(w.name),
            None => id is None || index is None || name is None,
        },
{
    match (id, index, name) {
        (Some(id), Some(index), Some(name)) => Some(Window { id, index, name }),
        _ => None,
    }
}

/// Whether the first of `records` that `window` shows is the one at `at`.
pub open spec fn first_shown<P>(
    records: Seq<(P, StateRecord)>,
    window: WindowView,
    server_pid: Option<Seq<char>>,
    at: int,
) -> bool {
    &&& 0 <= at < records.len()
    &&& shows_record(window, records[at].1@, server_pid)
    &&& forall|k: int|
        0 <= k < at ==> !shows_record(window, (#[trigger] records[k]).1@, server_pid)
}

/// Finds the record matching `window` (see `reconcile::window_matches_record`) among those
/// of its session, and returns the path it was actually read from: the same matching as
/// in a sync, so both agree on how a record is found by window identity rather than by
/// re-deriving a path from an agent name.
pub fn find_record_path_for_window<'a, P>(
    records: &'a [(P, StateRecord)],
    window: &Window,
    current_server_pid: Option<&str>,
) -> (path: Option<&'a P>)
    ensures
        match path {
            Some(p) => exists|at: int|
                #[trigger] first_shown(records@, window@, optional_str(current_server_pid), at)
                    && *p == records@[at].0,
            None => forall|k: int|
                0 <= k < records@.len() ==> !shows_record(
                    window@,
                    (#[trigger] records@[k]).1@,
                    optional_str(current_server_pid),
                ),
        },
{
    let ghost pid = optional_str(current_server_pid);
    for i in 0..records.len()
        invariant
            pid == optional_str(current_server_pid),
            forall|k: int|
                0 <= k < i ==> !shows_record(window@, (#[trigger] records@[k]).1@, pid),
    {
        if window_matches_record(window, &records[i].1, current_server_pid) {
            assert(first_shown(records@, window@, pid, i as int));
            return Some(&records[i].0);
        }
    }
    None
}

/// What an event that ends a session does: the state file to delete, if any, and the name
/// to give the window.
pub struct ClearPlan<'a, P> {
    pub delete: Option<&'a P>,
    pub window_id: String,
    pub new_name: String,
}

/// Plans what `SessionEnd` (or an unrecognized event) does in `window`: clear state and
/// strip any suffix from the window, rather than leaving it stale.
///
/// The record to delete and the name to restore are both found from the window's live
/// identity, not from the agent's name: if the window was renamed since its record was
/// written, the wrong file would be deleted, or the window renamed to a name it never had.
pub fn plan_clear<'a, P>(
    records: &'a [(P, StateRecord)],
    window: Window,
    current_server_pid: Option<&str>,
) -> (plan: ClearPlan<'a, P>)
    ensures
        match plan.delete {
            Some(p) => exists|at: int|
                #[trigger] first_shown(records@, window@, optional_str(current_server_pid), at)
                    && *p == records@[at].0,
            None => forall|k: int|
                0 <= k < records@.len() ==> !shows_record(
                    window@,
                    (#[trigger] records@[k]).1@,
                    optional_str(current_server_pid),
                ),
        },
        plan.delete is None <==> shown_record(
            records_view(records@),
            window@,
            optional_str(current_server_pid),
        ) is None,
        plan.window_id@ == window@.id,
        plan.new_name@ == stripped(window@.name),
{
    proof {
        law_event_and_sync_find_one_record(records@, window@, optional_str(current_server_pid));
    }
    let delete = find_record_path_for_window(records, &window, current_server_pid);
    let new_name = strip_suffix(window.name.as_str());
    ClearPlan { delete, window_id: window.id, new_name }
}

/// The record of an agent that an event of `harness` put in `state`.
pub open spec fn updated_record(
    agent: Seq<char>,
    session: Seq<char>,
    state: State,
    updated_at: Seq<char>,
    harness: Seq<char>,
    window_id: Option<Seq<char>>,
    server_pid: Option<Seq<char>>,
) -> StateRecordView {
    StateRecordView {
        agent,
        state,
        updated_at,
        harness,
        session,
        window: agent + symbol_of(state),
        window_id,
        server_pid,
    }
}

/// What an event that puts an agent in a state does: the state file to write, and the name
/// to give the window.
pub struct UpdatePlan {
    pub path: Vec<u8>,
    pub contents: String,
    pub new_name: String,
}

/// Plans what an event that puts `agent` in `state` does: record the state, and show its
/// symbol behind the agent's name. Fails if there is nowhere to record it.
pub fn plan_update(
    xdg_cache_home: Option<&[u8]>,
    home: Option<&[u8]>,
    session: String,
    agent: String,
    state: State,
    updated_at: String,
    harness: String,
    window_id: Option<String>,
    server_pid: Option<String>,
) -> (plan: Result<UpdatePlan, &'static str>)
    ensures
        match plan {
            Ok(p) => {
                &&& cache_root_of(
                    optional_path(xdg_cache_home),
                    optional_path(home),
                ) matches Some(root)
                &&& p.path@ == state_path_of(root, session@, agent@)
                &&& p.contents@ == kv_text(
                    updated_record(
                        agent@,
                        session@,
                        state,
                        updated_at@,
                        harness@,
                        optional_text(window_id),
                        optional_text(server_pid),
                    ),
                )
                &&& p.new_name@ == agent@ + symbol_of(state)
            },
            Err(message) => cache_root_of(optional_path(xdg_cache_home), optional_path(home)) is None
                && message@ == "neither XDG_CACHE_HOME nor an absolute HOME is set"@,
        },
{
    let path = match state_path(xdg_cache_home, home, session.as_str(), agent.as_str()) {
        Ok(path) => path,
        Err(message) => {
            return Err(message);
        },
    };
    let mut new_name = agent.clone();
    new_name.append(state.symbol());
    let record = StateRecord {
        agent,
        state,
        updated_at,
        harness,
        session,
        window: new_name.clone(),
        window_id,
        server_pid,
    };
    Ok(UpdatePlan { path, contents: record.to_kv(), new_name })
}

/// Reads the time that `date` printed; `None` if that is not text.
pub fn timestamp(stdout: Vec<u8>) -> (time: Option<String>)
    ensures
        optional_text(time) == if valid_utf8(stdout@) {
            Some(trimmed(decode_utf8(stdout@), Trim::Whitespace))
        } else {
            None
        },
{
    match utf8_text(stdout) {
        Some(text) => Some(trim(text.as_str(), Trim::Whitespace)),
        None => None,
    }
}

/// An agent named by the variable or by its window carries no status symbol.
pub proof fn law_agent_carries_no_symbol(
    variable: Option<Seq<char>>,
    window_name: Option<Seq<char>>,
    directory: Option<Seq<char>>,
)
    requires
        (variable is Some && variable->0.len() > 0) || window_name is Some,
    ensures
        ({
            let agent = agent_of(variable, window_name, directory);
            stripped(agent) == agent
        }),
{
    if variable is Some && variable->0.len() > 0 {
        law_strip_is_idempotent(variable->0);
    } else {
        law_strip_is_idempotent(window_name->0);
    }
}

/// The record that an event writes is the one its window shows from then on, whatever the
/// window comes to be called, as long as the window and its server live.
pub proof fn law_window_shows_what_its_event_recorded(
    agent: Seq<char>,
    session: Seq<char>,
    state: State,
    updated_at: Seq<char>,
    harness: Seq<char>,
    server_pid: Option<Seq<char>>,
    window: WindowView,
)
    ensures
        shows_record(
            window,
            updated_record(
                agent,
                session,
                state,
                updated_at,
                harness,
                Some(window.id),
                server_pid,
            ),
            server_pid,
        ),
{
}

/// A sync after an event has nothing to rename in the window that the event renamed.
pub proof fn law_sync_agrees_with_event(
    records: Seq<StateRecordView>,
    window: WindowView,
    server_pid: Option<Seq<char>>,
    agent: Seq<char>,
    state: State,
)
    requires
        stripped(agent) == agent,
        window.name == agent + symbol_of(state),
        shown_record(records, window, server_pid) matches Some(record) && record.state == state,
    ensures
        rename_of(records, window, server_pid) is None,
{
    law_symbol_is_stripped(agent, state);
}

/// The record that the end of a session deletes is the one that a sync would show in the
/// window: both go by the first record that the window shows.
pub proof fn law_event_and_sync_find_one_record<P>(
    records: Seq<(P, StateRecord)>,
    window: WindowView,
    server_pid: Option<Seq<char>>,
)
    ensures
        forall|at: int|
            #[trigger] first_shown(records, window, server_pid, at) ==> shown_record(
                records_view(records),
                window,
                server_pid,
            ) == Some(records[at].1@),
        shown_record(records_view(records), window, server_pid) is None <==> forall|k: int|
            0 <= k < records.len() ==> !shows_record(
                window,
                (#[trigger] records[k]).1@,
                server_pid,
            ),
    decreases records.len(),
{
    if records.len() > 0 {
        let rest = records.drop_first();
        law_event_and_sync_find_one_record(rest, window, server_pid);
        assert(records_view(records).drop_first() == records_view(rest));
        assert forall|at: int| #[trigger] first_shown(
            records,
            window,
            server_pid,
            at,
        ) implies shown_record(records_view(records), window, server_pid) == Some(
            records[at].1@,
        ) by {
            if at > 0 {
                assert(!shows_record(window, records[0].1@, server_pid));
                assert forall|k: int| 0 <= k < at - 1 implies !shows_record(
                    window,
                    (#[trigger] rest[k]).1@,
                    server_pid,
                ) by {
                    assert(rest[k] == records[k + 1]);
                }
                assert(first_shown(rest, window, server_pid, at - 1));
            }
        }
        if forall|k: int|
            0 <= k < rest.len() ==> !shows_record(window, (#[trigger] rest[k]).1@, server_pid) {
            assert forall|k: int| 1 <= k < records.len() implies !shows_record(
                window,
                (#[trigger] records[k]).1@,
                server_pid,
            ) by {
                assert(records[k] == rest[k - 1]);
            }
        } else {
            let k = choose|k: int|
                0 <= k < rest.len() && shows_record(window, (#[trigger] rest[k]).1@, server_pid);
            assert(shows_record(window, records[k + 1].1@, server_pid));
        }
    }
}

/// The event that ends a session leaves its window without a status symbol, and under the
/// base of the name it had.
pub proof fn law_cleared_name_carries_no_symbol(window_name: Seq<char>)
    ensures
        stripped(stripped(window_name)) == stripped(window_name),
        stripped(window_name).len() > 0 ==> !is_suffix_char(stripped(window_name).last()),
{
    law_strip_is_idempotent(window_name);
    law_only_trailing_symbols_are_stripped(window_name);
}

/// What an event writes to a state file is read back from it, unless a text in it does not
/// fit a line.
pub proof fn law_recorded_event_is_read_back(
    agent: Seq<char>,
    session: Seq<char>,
    state: State,
    updated_at: Seq<char>,
    harness: Seq<char>,
    window_id: Option<Seq<char>>,
    server_pid: Option<Seq<char>>,
)
    requires
        fits_line(agent),
        fits_line(session),
        fits_line(updated_at),
        fits_line(harness),
        optional_fits_line(window_id),
        optional_fits_line(server_pid),
    ensures
        ({
            let record = updated_record(
                agent,
                session,
                state,
                updated_at,
                harness,
                window_id,
                server_pid,
            );
            kv_record(kv_text(record)) == Some(record)
        }),
{
    let record = updated_record(agent, session, state, updated_at, harness, window_id, server_pid);
    assert(fits_line(record.window)) by {
        if symbol_of(state).len() == 0 {
            assert(record.window == agent);
        }
    }
    law_kv_round_trips(record);
}

/// The variable decides alone whenever it is set to something: the agent is its text
/// without trailing status symbols, and the text itself if it ends in none, whatever the
/// window and the directory are called.
pub proof fn law_variable_decides_the_agent(
    variable: Seq<char>,
    window_name: Option<Seq<char>>,
    directory: Option<Seq<char>>,
    other_window_name: Option<Seq<char>>,
    other_directory: Option<Seq<char>>,
)
    requires
        variable.len() > 0,
    ensures
        agent_of(Some(variable), window_name, directory) == agent_of(
            Some(variable),
            other_window_name,
            other_directory,
        ),
        ({
            let agent = agent_of(Some(variable), window_name, directory);
            &&& agent.is_prefix_of(variable)
            &&& forall|i: int|
                agent.len() <= i < variable.len() ==> "!\u{2713}\u{2717}?"@.contains(
                    #[trigger] variable[i],
                )
            &&& agent.len() > 0 ==> !"!\u{2713}\u{2717}?"@.contains(agent.last())
        }),
{
    lemma_suffix_chars();
    law_only_trailing_symbols_are_stripped(variable);
}

/// Where the variable is not set, or set to nothing, the window's name decides alone, in
/// the same way; and where there is no window either, the agent is the directory's name.
pub proof fn law_window_then_directory_decides(
    variable: Option<Seq<char>>,
    window_name: Seq<char>,
    directory: Option<Seq<char>>,
    name: Seq<char>,
)
    requires
        variable is None || variable == Some(Seq::<char>::empty()),
    ensures
        ({
            let agent = agent_of(variable, Some(window_name), directory);
            &&& agent.is_prefix_of(window_name)
            &&& forall|i: int|
                agent.len() <= i < window_name.len() ==> "!\u{2713}\u{2717}?"@.contains(
                    #[trigger] window_name[i],
                )
            &&& agent.len() > 0 ==> !"!\u{2713}\u{2717}?"@.contains(agent.last())
        }),
        agent_of(variable, None, Some(name)) == name,
        agent_of(variable, None, None).len() == 0,
{
    lemma_suffix_chars();
    law_only_trailing_symbols_are_stripped(window_name);
}

/// The state file that an event writes is read back as what the event reported: this
/// agent, in this state, in this session, window and server.
pub proof fn law_event_is_read_back_field_by_field(
    agent: Seq<char>,
    session: Seq<char>,
    state: State,
    updated_at: Seq<char>,
    harness: Seq<char>,
    window_id: Option<Seq<char>>,
    server_pid: Option<Seq<char>>,
)
    requires
        fits_line(agent),
        fits_line(session),
        fits_line(updated_at),
        fits_line(harness),
        optional_fits_line(window_id),
        optional_fits_line(server_pid),
    ensures
        ({
            let contents = kv_text(
                updated_record(
                    agent,
                    session,
                    state,
                    updated_at,
                    harness,
                    window_id,
                    server_pid,
                ),
            );
            &&& kv_record(contents) matches Some(record)
            &&& record.state == state
            &&& record.agent == agent
            &&& record.session == session
            &&& record.updated_at == updated_at
            &&& record.harness == harness
            &&& record.window == agent + symbol_of(state)
            &&& record.window_id == window_id
            &&& record.server_pid == server_pid
        }),
{
    law_recorded_event_is_read_back(
        agent,
        session,
        state,
        updated_at,
        harness,
        window_id,
        server_pid,
    );
}

/// Right after an event a sync that reads the state file it wrote, before any other, plans
/// no rename in the window that the event renamed, and keeps the file.
pub proof fn law_sync_after_event_changes_nothing(
    agent: Seq<char>,
    session: Seq<char>,
    state: State,
    updated_at: Seq<char>,
    harness: Seq<char>,
    server_pid: Option<Seq<char>>,
    window: WindowView,
    others: Seq<StateRecordView>,
)
    requires
        stripped(agent) == agent,
        fits_line(agent),
        fits_line(session),
        fits_line(updated_at),
        fits_line(harness),
        fits_line(window.id),
        optional_fits_line(server_pid),
        window.name == agent + symbol_of(state),
    ensures
        ({
            let contents = kv_text(
                updated_record(
                    agent,
                    session,
                    state,
                    updated_at,
                    harness,
                    Some(window.id),
                    server_pid,
                ),
            );
            &&& kv_record(contents) matches Some(record)
            &&& rename_of(seq![record] + others, window, server_pid) is None
            &&& !orphaned(record, seq![window], server_pid)
        }),
{
    law_event_is_read_back_field_by_field(
        agent,
        session,
        state,
        updated_at,
        harness,
        Some(window.id),
        server_pid,
    );
    let record = kv_record(
        kv_text(
            updated_record(
                agent,
                session,
                state,
                updated_at,
                harness,
                Some(window.id),
                server_pid,
            ),
        ),
    )->0;
    let records = seq![record] + others;
    assert(records[0] == record);
    law_sync_agrees_with_event(records, window, server_pid, agent, state);
    law_shown_record_is_kept(record, seq![window], server_pid, 0);
}

/// What `resolve_agent` returns: what the variable says if it says anything, else what the
/// window is called, both without the status symbols behind them, else what the directory is
/// called.
pub proof fn law_agent_is_resolved_in_order(
    variable: Option<&str>,
    window_name: Option<&str>,
    directory: Option<&str>,
    agent: String,
)
    requires
        call_ensures(resolve_agent, (variable, window_name, directory), agent),
    ensures
        variable is Some && variable->0@.len() > 0 ==> agent@.is_prefix_of(variable->0@) && (
        forall|i: int|
            agent@.len() <= i < variable->0@.len() ==> "!\u{2713}\u{2717}?"@.contains(
                #[trigger] variable->0@[i],
            )) && (agent@.len() > 0 ==> !"!\u{2713}\u{2717}?"@.contains(agent@.last())),
        (variable is None || variable->0@.len() == 0) && window_name is Some
            ==> agent@.is_prefix_of(window_name->0@) && (forall|i: int|
            agent@.len() <= i < window_name->0@.len() ==> "!\u{2713}\u{2717}?"@.contains(
                #[trigger] window_name->0@[i],
            )) && (agent@.len() > 0 ==> !"!\u{2713}\u{2717}?"@.contains(agent@.last())),
        (variable is None || variable->0@.len() == 0) && window_name is None ==> agent@ == (
        match directory {
            Some(name) => name@,
            None => Seq::empty(),
        }),
{
    lemma_suffix_chars();
    if variable is Some {
        law_only_trailing_symbols_are_stripped(variable->0@);
    }
    if window_name is Some {
        law_only_trailing_symbols_are_stripped(window_name->0@);
    }
}

/// What `plan_update` plans: the window is called by the agent and the symbol of the state,
/// the file is that of this agent in this session, and it is read back as this agent in this
/// state.
pub proof fn law_update_records_what_it_shows(
    xdg: Option<&[u8]>,
    home: Option<&[u8]>,
    session: String,
    agent: String,
    state: State,
    updated_at: String,
    harness: String,
    window_id: Option<String>,
    server_pid: Option<String>,
    plan: Result<UpdatePlan, &'static str>,
    session_text: &str,
    agent_text: &str,
    path: Result<Vec<u8>, &'static str>,
)
    requires
        call_ensures(
            plan_update,
            (xdg, home, session, agent, state, updated_at, harness, window_id, server_pid),
            plan,
        ),
        call_ensures(state_path, (xdg, home, session_text, agent_text), path),
        session_text@ == session@,
        agent_text@ == agent@,
    ensures
        plan is Ok <==> path is Ok,
        plan is Err ==> plan->Err_0@ == path->Err_0@,
        plan matches Ok(p) ==> p.path@ == path->Ok_0@ && p.new_name@ == agent@ + symbol_of(state),
        plan matches Ok(p) ==> (fits_line(agent@) && fits_line(session@) && fits_line(updated_at@)
            && fits_line(harness@) && optional_fits_line(optional_text(window_id))
            && optional_fits_line(optional_text(server_pid)) ==> {
            &&& kv_record(p.contents@) matches Some(record)
            &&& record.agent == agent@
            &&& record.state == state
            &&& record.session == session@
            &&& record.updated_at == updated_at@
            &&& record.harness == harness@
            &&& record.window == p.new_name@
            &&& record.window_id == optional_text(window_id)
            &&& record.server_pid == optional_text(server_pid)
        }),
{
    if fits_line(agent@) && fits_line(session@) && fits_line(updated_at@) && fits_line(harness@)
        && optional_fits_line(optional_text(window_id)) && optional_fits_line(
        optional_text(server_pid),
    ) {
        law_event_is_read_back_field_by_field(
            agent@,
            session@,
            state,
            updated_at@,
            harness@,
            optional_text(window_id),
            optional_text(server_pid),
        );
    }
}

/// What `plan_clear` plans: the window, which it tells by its id, gets the base of the name
/// it has, and the record to delete is the one that a sync would show in it.
pub proof fn law_clear_undoes_what_is_shown<'a, P>(
    records: &'a [(P, StateRecord)],
    window: Window,
    server_pid: Option<&str>,
    plan: ClearPlan<'a, P>,
)
    requires
        call_ensures(plan_clear::<P>, (records, window, server_pid), plan),
    ensures
        plan.window_id@ == window.id@,
        plan.new_name@.is_prefix_of(window.name@),
        forall|i: int|
            plan.new_name@.len() <= i < window.name@.len() ==> "!\u{2713}\u{2717}?"@.contains(
                #[trigger] window.name@[i],
            ),
        plan.new_name@.len() > 0 ==> !"!\u{2713}\u{2717}?"@.contains(plan.new_name@.last()),
        plan.delete is None <==> shown_record(
            records_view(records@),
            window@,
            optional_str(server_pid),
        ) is None,
        plan.delete matches Some(path) ==> exists|at: int|
            #[trigger] first_shown(records@, window@, optional_str(server_pid), at) && *path
                == records@[at].0 && shown_record(
                records_view(records@),
                window@,
                optional_str(server_pid),
            ) == Some(records@[at].1@),
{
    lemma_suffix_chars();
    law_only_trailing_symbols_are_stripped(window.name@);
    law_event_and_sync_find_one_record(records@, window@, optional_str(server_pid));
    let stored = records@;
    let pid = optional_str(server_pid);
    if let Some(path) = plan.delete {
        let at = choose|at: int|
            #[trigger] first_shown(stored, window@, pid, at) && *path == stored[at].0;
        assert(first_shown(stored, window@, pid, at));
        assert(shown_record(records_view(stored), window@, pid) == Some(stored[at].1@));
    }
}

/// What `timestamp` returns for a time between blanks is that time, and for what is not text
/// nothing.
pub proof fn law_time_is_read_without_blanks(
    before: Seq<char>,
    time: Seq<char>,
    after: Seq<char>,
    stdout: Vec<u8>,
    read: Option<String>,
)
    requires
        call_ensures(timestamp, (stdout,), read),
        forall|i: int| 0 <= i < before.len() ==> Trim::Whitespace.covers(#[trigger] before[i]),
        forall|i: int| 0 <= i < after.len() ==> Trim::Whitespace.covers(#[trigger] after[i]),
        time.len() > 0 ==> !Trim::Whitespace.covers(time[0]) && !Trim::Whitespace.covers(
            time.last(),
        ),
    ensures
        stdout@ == encode_utf8(before + time + after) ==> (read matches Some(text)
            && text@ == time),
        !valid_utf8(stdout@) ==> read is None,
{
    law_trimming(before, time, after, Trim::Whitespace);
    vstd::utf8::encode_utf8_decode_utf8(before + time + after);
    vstd::utf8::encode_utf8_valid_utf8(before + time + after);
}

/// What `directory_name` returns is the last name of the directory, wherever that lies.
pub proof fn law_directory_is_called_by_its_last_name(
    base: Seq<u8>,
    text: Seq<char>,
    directory: &[u8],
    name: Option<String>,
)
    requires
        call_ensures(directory_name, (directory,), name),
        is_name(encode_utf8(text)),
    ensures
        directory@ == joined(base, encode_utf8(text)) ==> (name matches Some(n) && n@
            == text),
        components(directory@).len() == 0 ==> name is None,
{
    law_join_adds_one_name(base, encode_utf8(text));
    vstd::utf8::encode_utf8_decode_utf8(text);
    vstd::utf8::encode_utf8_valid_utf8(text);
}

/// What `current_window` returns: the window that its three parts make, and nothing where
/// one is missing.
pub proof fn law_window_has_three_parts(
    id: String,
    index: String,
    name: String,
    whole: Option<Window>,
    some_id: Option<String>,
    some_index: Option<String>,
    some_name: Option<String>,
    partial: Option<Window>,
)
    requires
        call_ensures(current_window, (Some(id), Some(index), Some(name)), whole),
        call_ensures(current_window, (some_id, some_index, some_name), partial),
        some_id is None || some_index is None || some_name is None,
    ensures
        whole matches Some(window) && window.id@ == id@ && window.index@ == index@ && window.name@
            == name@,
        partial is None,
{
}

} // verus!
