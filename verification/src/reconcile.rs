//! Which record a window shows, and what the window should be called.

use crate::fs_util::{agent_component, law_agents_are_told_apart_but_for_case};
use crate::name::{law_strip_is_idempotent, law_symbol_is_stripped, strip_suffix, stripped};
use crate::state::{symbol_of, StateRecord, StateRecordView};
use crate::text::{ascii_lower, ascii_lowered, law_lower_case_is_letter_by_letter, optional_str};
use crate::text::{same_ignoring_ascii_case, same_text};
use crate::tmux::{Window, WindowView};
use vstd::prelude::*;

verus! {

/// Whether a window of this name is that of `agent`: status symbols and the case of
/// ASCII letters do not count.
pub open spec fn names_agent(window_name: Seq<char>, agent: Seq<char>) -> bool {
    ascii_lowered(stripped(window_name)) == ascii_lowered(agent)
}

/// Agent names fold ASCII case on the on-disk path (see
/// `fs_util::encode_path_component`), so window-to-record matching must fold ASCII
/// case too, to agree with how state files are keyed. Session names are not folded:
/// two live tmux sessions differing only by case are genuinely distinct.
pub fn agent_matches(window_name: &str, agent: &str) -> (matches: bool)
    ensures
        matches == names_agent(window_name@, agent@),
{
    same_ignoring_ascii_case(strip_suffix(window_name).as_str(), agent)
}

/// A window to rename, and its new name.
#[derive(Debug, Clone, PartialEq, Eq)]
pub struct Rename {
    pub index: String,
    pub new_name: String,
}

/// A `Rename` with its texts as sequences of characters.
pub struct RenameView {
    pub index: Seq<char>,
    pub new_name: Seq<char>,
}

impl View for Rename {
    type V = RenameView;

    open spec fn view(&self) -> RenameView {
        RenameView { index: self.index@, new_name: self.new_name@ }
    }
}

impl DeepView for Rename {
    type V = RenameView;

    open spec fn deep_view(&self) -> RenameView {
        self@
    }
}

/// Whether `window` is the one that `record` was written for: by the window's id, if
/// the record has one and its server is the one now running, or by name, if the record
/// has no id.
pub open spec fn shows_record(
    window: WindowView,
    record: StateRecordView,
    server_pid: Option<Seq<char>>,
) -> bool {
    match record.window_id {
        Some(id) => window.id == id && (record.server_pid is Some ==> server_pid
            == record.server_pid),
        None => names_agent(window.name, record.agent),
    }
}

/// The first of `records` that `window` shows, if any.
pub open spec fn shown_record(
    records: Seq<StateRecordView>,
    window: WindowView,
    server_pid: Option<Seq<char>>,
) -> Option<StateRecordView>
    decreases records.len(),
{
    if records.len() == 0 {
        None
    } else if shows_record(window, records[0], server_pid) {
        Some(records[0])
    } else {
        shown_record(records.drop_first(), window, server_pid)
    }
}

/// The rename that makes the name of `window` reflect the record it shows, if it shows
/// one and is not called so already.
pub open spec fn rename_of(
    records: Seq<StateRecordView>,
    window: WindowView,
    server_pid: Option<Seq<char>>,
) -> Option<RenameView> {
    match shown_record(records, window, server_pid) {
        Some(record) => {
            let new_name = stripped(window.name) + symbol_of(record.state);
            if new_name == window.name {
                None
            } else {
                Some(RenameView { index: window.index, new_name })
            }
        },
        None => None,
    }
}

/// The renames of all windows that need one, in the order of the windows.
pub open spec fn renames_of(
    records: Seq<StateRecordView>,
    windows: Seq<WindowView>,
    server_pid: Option<Seq<char>>,
) -> Seq<RenameView> {
    windows.filter_map(|window: WindowView| rename_of(records, window, server_pid))
}

/// True when `record` is the one `window` represents: matched by the record's stable
/// `window_id` when it has one, which is what lets a window whose name has drifted away
/// from its agent still be found. Records with no `window_id` fall back to matching by
/// name, with any suffix stripped.
///
/// A `window_id` match additionally requires `record.server_pid` to match
/// `current_server_pid` when the record has one: tmux hands out window ids starting
/// from `@0` again on every fresh server, so after a restart a live window can carry an
/// id a stale record also used for a since-closed window. A pid mismatch means the id
/// can't be trusted, so the record simply doesn't match this window; it does not fall
/// back to the name-based check, which would risk pairing it with an unrelated window
/// that happens to share a stripped name.
pub fn window_matches_record(
    window: &Window,
    record: &StateRecord,
    current_server_pid: Option<&str>,
) -> (matches: bool)
    ensures
        matches == shows_record(window@, record@, optional_str(current_server_pid)),
{
    match &record.window_id {
        Some(id) => window.id == *id && match &record.server_pid {
            Some(recorded) => match current_server_pid {
                Some(current) => same_text(current, recorded.as_str()),
                None => false,
            },
            None => true,
        },
        None => agent_matches(window.name.as_str(), record.agent.as_str()),
    }
}

/// Given every state record for a session and every window currently in that session,
/// compute the renames needed to make window names reflect state.
///
/// Windows with no matching record (see `window_matches_record`) are left alone. A
/// rename that would produce the window's current name is omitted; this is what makes
/// events and repeated syncs idempotent.
pub fn plan_renames(
    records: &[StateRecord],
    windows: &[Window],
    current_server_pid: Option<&str>,
) -> (renames: Vec<Rename>)
    ensures
        renames.deep_view() == renames_of(
            records.deep_view(),
            windows.deep_view(),
            optional_str(current_server_pid),
        ),
{
    let ghost all = records.deep_view();
    let ghost shown = windows.deep_view();
    let ghost pid = optional_str(current_server_pid);
    let ghost rename = |window: WindowView| rename_of(all, window, pid);
    let mut renames: Vec<Rename> = Vec::new();
    assert(renames.deep_view() == shown.take(0).filter_map(rename));
    for i in 0..windows.len()
        invariant
            all == records.deep_view(),
            shown == windows.deep_view(),
            pid == optional_str(current_server_pid),
            rename == (|window: WindowView| rename_of(all, window, pid)),
            renames.deep_view() == shown.take(i as int).filter_map(rename),
    {
        let window = &windows[i];
        assert(shown[i as int] == window@);
        let ghost before = renames.deep_view();
        proof {
            shown.lemma_filter_map_take_succ(rename, i as int);
        }
        if let Some(at) = find_record(records, window, current_server_pid) {
            let mut new_name = strip_suffix(window.name.as_str());
            new_name.append(records[at].state.symbol());
            if new_name != window.name {
                renames.push(Rename { index: window.index.clone(), new_name });
                assert(renames.deep_view() == before.push(renames@.last()@));
            }
        }
        assert(renames.deep_view() == shown.take(i + 1).filter_map(rename));
    }
    assert(shown.take(shown.len() as int) == shown);
    renames
}

/// Where the first of `records` that `window` shows stands.
fn find_record(
    records: &[StateRecord],
    window: &Window,
    current_server_pid: Option<&str>,
) -> (found: Option<usize>)
    ensures
        match found {
            Some(at) => at < records@.len() && shown_record(
                records.deep_view(),
                window@,
                optional_str(current_server_pid),
            ) == Some(records@[at as int]@),
            None => shown_record(
                records.deep_view(),
                window@,
                optional_str(current_server_pid),
            ) is None,
        },
{
    let ghost all = records.deep_view();
    let ghost pid = optional_str(current_server_pid);
    assert(all.skip(0) == all);
    for i in 0..records.len()
        invariant
            all == records.deep_view(),
            pid == optional_str(current_server_pid),
            shown_record(all, window@, pid) == shown_record(all.skip(i as int), window@, pid),
    {
        assert(all.skip(i as int)[0] == records@[i as int]@);
        assert(all.skip(i as int).drop_first() == all.skip(i + 1));
        if window_matches_record(window, &records[i], current_server_pid) {
            return Some(i);
        }
    }
    None
}

/// `window` after `rename`, which concerns it if it names its index.
pub open spec fn after_rename(window: WindowView, rename: RenameView) -> WindowView {
    if window.index == rename.index {
        WindowView { name: rename.new_name, ..window }
    } else {
        window
    }
}

/// `windows` after `renames`, one after the other.
pub open spec fn after_renames(
    windows: Seq<WindowView>,
    renames: Seq<RenameView>,
) -> Seq<WindowView>
    decreases renames.len(),
{
    if renames.len() == 0 {
        windows
    } else {
        after_renames(windows, renames.drop_last()).map_values(
            |window: WindowView| after_rename(window, renames.last()),
        )
    }
}

/// The windows of one session each have an index of their own.
pub open spec fn distinct_indices(windows: Seq<WindowView>) -> bool {
    forall|i: int, j: int|
        0 <= i < j < windows.len() ==> (#[trigger] windows[i]).index != (#[trigger] windows[j]).index
}

/// `window` with the name that reflects the record it shows.
pub open spec fn reconciled(
    records: Seq<StateRecordView>,
    window: WindowView,
    server_pid: Option<Seq<char>>,
) -> WindowView {
    match shown_record(records, window, server_pid) {
        Some(record) => WindowView {
            name: stripped(window.name) + symbol_of(record.state),
            ..window
        },
        None => window,
    }
}

/// Carrying the plan out gives every window that shows a record the base of its name
/// and the symbol of the record's state, and leaves every other window alone.
pub proof fn law_plan_reconciles_every_window(
    records: Seq<StateRecordView>,
    windows: Seq<WindowView>,
    server_pid: Option<Seq<char>>,
)
    requires
        distinct_indices(windows),
    ensures
        after_renames(windows, renames_of(records, windows, server_pid)) == windows.map_values(
            |window: WindowView| reconciled(records, window, server_pid),
        ),
{
    let result = after_renames(windows, renames_of(records, windows, server_pid));
    let wanted = windows.map_values(|window: WindowView| reconciled(records, window, server_pid));
    lemma_renames_of_first(records, windows, server_pid, windows.len() as int);
    assert(windows.take(windows.len() as int) == windows);
    assert forall|j: int| 0 <= j < windows.len() implies result[j] == wanted[j] by {
        assert(result[j] == reconciled(records, windows[j], server_pid));
    }
    assert(result == wanted);
}

/// The renames of the first `n` windows reconcile those and no others.
proof fn lemma_renames_of_first(
    records: Seq<StateRecordView>,
    windows: Seq<WindowView>,
    server_pid: Option<Seq<char>>,
    n: int,
)
    requires
        distinct_indices(windows),
        0 <= n <= windows.len(),
    ensures
        after_renames(windows, renames_of(records, windows.take(n), server_pid)).len()
            == windows.len(),
        forall|j: int|
            0 <= j < windows.len() ==> #[trigger] after_renames(
                windows,
                renames_of(records, windows.take(n), server_pid),
            )[j] == if j < n {
                reconciled(records, windows[j], server_pid)
            } else {
                windows[j]
            },
    decreases n,
{
    let rename = |window: WindowView| rename_of(records, window, server_pid);
    if n == 0 {
        assert(windows.take(0).filter_map(rename) == Seq::<RenameView>::empty());
    } else {
        let window = windows[n - 1];
        lemma_renames_of_first(records, windows, server_pid, n - 1);
        let earlier = renames_of(records, windows.take(n - 1), server_pid);
        let renames = renames_of(records, windows.take(n), server_pid);
        windows.lemma_filter_map_take_succ(rename, n - 1);
        match rename_of(records, window, server_pid) {
            Some(last) => {
                assert(renames == earlier.push(last));
                assert(renames.drop_last() == earlier);
                assert forall|j: int| 0 <= j < windows.len() implies #[trigger] after_renames(
                    windows,
                    renames,
                )[j] == if j < n {
                    reconciled(records, windows[j], server_pid)
                } else {
                    windows[j]
                } by {
                    let before = after_renames(windows, earlier)[j];
                    assert(before.index == windows[j].index);
                    if j < n - 1 {
                        assert(windows[j].index != windows[n - 1].index);
                    } else if j > n - 1 {
                        assert(windows[n - 1].index != windows[j].index);
                    }
                }
            },
            None => {
                assert(renames == earlier);
                assert(reconciled(records, window, server_pid) == window);
            },
        }
    }
}

/// A window shows the same record whatever symbol its name ends in.
proof fn lemma_shown_record_by_base(
    records: Seq<StateRecordView>,
    window: WindowView,
    other: WindowView,
    server_pid: Option<Seq<char>>,
)
    requires
        window.id == other.id,
        stripped(window.name) == stripped(other.name),
    ensures
        shown_record(records, window, server_pid) == shown_record(records, other, server_pid),
    decreases records.len(),
{
    if records.len() > 0 {
        lemma_shown_record_by_base(records.drop_first(), window, other, server_pid);
    }
}

/// Once the plan has been carried out there is nothing left to rename, so a second
/// sync with the same records changes nothing.
pub proof fn law_sync_is_idempotent(
    records: Seq<StateRecordView>,
    windows: Seq<WindowView>,
    server_pid: Option<Seq<char>>,
)
    requires
        distinct_indices(windows),
    ensures
        renames_of(
            records,
            after_renames(windows, renames_of(records, windows, server_pid)),
            server_pid,
        ) == Seq::<RenameView>::empty(),
{
    let after = after_renames(windows, renames_of(records, windows, server_pid));
    law_plan_reconciles_every_window(records, windows, server_pid);
    assert forall|j: int| 0 <= j < after.len() implies rename_of(
        records,
        #[trigger] after[j],
        server_pid,
    ) is None by {
        law_reconciled_needs_no_rename(records, windows[j], server_pid);
        assert(after[j] == reconciled(records, windows[j], server_pid));
    }
    lemma_no_renames(records, after, server_pid);
}

/// A window that was given its name is not renamed again.
pub proof fn law_reconciled_needs_no_rename(
    records: Seq<StateRecordView>,
    window: WindowView,
    server_pid: Option<Seq<char>>,
)
    ensures
        rename_of(records, reconciled(records, window, server_pid), server_pid) is None,
{
    if let Some(record) = shown_record(records, window, server_pid) {
        let after = reconciled(records, window, server_pid);
        law_symbol_is_stripped(stripped(window.name), record.state);
        law_strip_is_idempotent(window.name);
        lemma_shown_record_by_base(records, window, after, server_pid);
    }
}

/// Windows none of which needs a rename give an empty plan.
proof fn lemma_no_renames(
    records: Seq<StateRecordView>,
    windows: Seq<WindowView>,
    server_pid: Option<Seq<char>>,
)
    requires
        forall|j: int|
            0 <= j < windows.len() ==> rename_of(records, #[trigger] windows[j], server_pid) is None,
    ensures
        renames_of(records, windows, server_pid) == Seq::<RenameView>::empty(),
    decreases windows.len(),
{
    if windows.len() > 0 {
        let fewer = windows.drop_last();
        assert forall|j: int| 0 <= j < fewer.len() implies rename_of(
            records,
            #[trigger] fewer[j],
            server_pid,
        ) is None by {
            assert(fewer[j] == windows[j]);
        }
        lemma_no_renames(records, fewer, server_pid);
        assert(rename_of(records, windows[windows.len() - 1], server_pid) is None);
    }
}

/// Matching a window to an agent by name agrees with how state files are keyed: it
/// holds exactly if the window's base name has the agent's state file.
pub proof fn law_matching_agrees_with_state_files(window_name: Seq<char>, agent: Seq<char>)
    ensures
        names_agent(window_name, agent) <==> agent_component(stripped(window_name))
            == agent_component(agent),
{
    law_agents_are_told_apart_but_for_case(stripped(window_name), agent);
}

/// A record that carries a server's pid is shown by no window unless the current server's
/// pid is known and is that very pid: an id that another server hands out is not trusted,
/// whatever the window is called.
pub proof fn law_other_server_shows_no_record(
    window: WindowView,
    record: StateRecordView,
    server_pid: Option<Seq<char>>,
)
    requires
        record.window_id is Some,
        record.server_pid is Some,
        server_pid != record.server_pid,
    ensures
        !shows_record(window, record, server_pid),
{
}

/// A record with a window's id is shown by every window of that id and by no other, under
/// whatever name, if it was written under the current server or carries no server's pid.
pub proof fn law_record_follows_its_window_id(
    window: WindowView,
    record: StateRecordView,
    id: Seq<char>,
    server_pid: Option<Seq<char>>,
)
    requires
        record.window_id == Some(id),
        record.server_pid is None || record.server_pid == server_pid,
    ensures
        shows_record(window, record, server_pid) <==> window.id == id,
{
}

/// A record without a window's id is shown by the windows whose base name has the agent's
/// state file, whatever their id and whichever server runs.
pub proof fn law_record_without_id_goes_by_name(
    window: WindowView,
    record: StateRecordView,
    server_pid: Option<Seq<char>>,
)
    requires
        record.window_id is None,
    ensures
        shows_record(window, record, server_pid) <==> agent_component(stripped(window.name))
            == agent_component(record.agent),
{
    law_matching_agrees_with_state_files(window.name, record.agent);
}

/// A window shows the first record that it shows alone: a record behind one that is shown
/// does not count, and one that is not shown changes nothing, wherever it stands.
pub proof fn law_first_shown_record_counts(
    before: Seq<StateRecordView>,
    record: StateRecordView,
    after: Seq<StateRecordView>,
    window: WindowView,
    server_pid: Option<Seq<char>>,
)
    ensures
        shows_record(window, record, server_pid) && (forall|i: int|
            0 <= i < before.len() ==> !shows_record(window, #[trigger] before[i], server_pid))
            ==> shown_record(before.push(record) + after, window, server_pid) == Some(record),
        !shows_record(window, record, server_pid) ==> shown_record(
            before.push(record) + after,
            window,
            server_pid,
        ) == shown_record(before + after, window, server_pid),
        shown_record(Seq::empty(), window, server_pid) is None,
    decreases before.len(),
{
    let whole = before.push(record) + after;
    if before.len() == 0 {
        assert(whole[0] == record);
        assert(whole.drop_first() == after);
        assert(before + after == after);
    } else {
        let rest = before.drop_first();
        assert(whole[0] == before[0]);
        assert(whole.drop_first() == rest.push(record) + after);
        assert((before + after).drop_first() == rest + after);
        law_first_shown_record_counts(rest, record, after, window, server_pid);
        if forall|i: int|
            0 <= i < before.len() ==> !shows_record(window, #[trigger] before[i], server_pid) {
            assert forall|i: int| 0 <= i < rest.len() implies !shows_record(
                window,
                #[trigger] rest[i],
                server_pid,
            ) by {
                assert(rest[i] == before[i + 1]);
            }
            assert(!shows_record(window, before[0], server_pid));
        }
    }
}

/// After a sync each window that shows a record is called by the base of the name it had
/// and the symbol of that record's state, and each other window by the name it had; ids,
/// indices and the order of the windows stay.
pub proof fn law_synced_windows_show_their_state(
    records: Seq<StateRecordView>,
    windows: Seq<WindowView>,
    server_pid: Option<Seq<char>>,
    j: int,
)
    requires
        distinct_indices(windows),
        0 <= j < windows.len(),
    ensures
        ({
            let after = after_renames(windows, renames_of(records, windows, server_pid));
            &&& after.len() == windows.len()
            &&& after[j].id == windows[j].id
            &&& after[j].index == windows[j].index
            &&& after[j].name == match shown_record(records, windows[j], server_pid) {
                Some(record) => stripped(windows[j].name) + symbol_of(record.state),
                None => windows[j].name,
            }
        }),
{
    law_plan_reconciles_every_window(records, windows, server_pid);
}

/// Whether `rename` is for `window`, and gives it a name that it does not have.
pub open spec fn is_needed_for(rename: RenameView, window: WindowView) -> bool {
    rename.index == window.index && rename.new_name != window.name
}

/// Whether `rename` is needed for one of `windows`, which shows a record.
pub open spec fn is_needed(
    rename: RenameView,
    records: Seq<StateRecordView>,
    windows: Seq<WindowView>,
    server_pid: Option<Seq<char>>,
) -> bool {
    exists|j: int|
        0 <= j < windows.len() && #[trigger] is_needed_for(rename, windows[j]) && shown_record(
            records,
            windows[j],
            server_pid,
        ) is Some
}

/// A sync renames only windows that show a record, each by its own index and to a name that
/// it does not have.
pub proof fn law_renames_are_needed(
    records: Seq<StateRecordView>,
    windows: Seq<WindowView>,
    server_pid: Option<Seq<char>>,
)
    ensures
        renames_of(records, windows, server_pid).len() <= windows.len(),
        forall|k: int|
            0 <= k < renames_of(records, windows, server_pid).len() ==> is_needed(
                #[trigger] renames_of(records, windows, server_pid)[k],
                records,
                windows,
                server_pid,
            ),
    decreases windows.len(),
{
    let renames = renames_of(records, windows, server_pid);
    if windows.len() > 0 {
        let fewer = windows.drop_last();
        let rename = |window: WindowView| rename_of(records, window, server_pid);
        let earlier = renames_of(records, fewer, server_pid);
        law_renames_are_needed(records, fewer, server_pid);
        windows.lemma_filter_map_take_succ(rename, windows.len() - 1);
        assert(windows.take(windows.len() as int) == windows);
        assert(windows.take(windows.len() - 1) == fewer);
        assert forall|k: int| 0 <= k < renames.len() implies is_needed(
            #[trigger] renames[k],
            records,
            windows,
            server_pid,
        ) by {
            if k < earlier.len() {
                assert(renames[k] == earlier[k]);
                assert(is_needed(earlier[k], records, fewer, server_pid));
                let j = choose|j: int|
                    0 <= j < fewer.len() && #[trigger] is_needed_for(earlier[k], fewer[j])
                        && shown_record(records, fewer[j], server_pid) is Some;
                assert(windows[j] == fewer[j]);
                assert(is_needed_for(renames[k], windows[j]));
            } else {
                assert(is_needed_for(renames[k], windows[windows.len() - 1]));
            }
        }
    } else {
        assert(renames == Seq::<RenameView>::empty());
    }
}

/// What `window_matches_record` decides: with an id, by the id, and under another server
/// than the record's not at all; without one, by the name.
pub proof fn law_matching_is_by_id_and_server(
    window: &Window,
    record: &StateRecord,
    server_pid: Option<&str>,
    matches: bool,
)
    requires
        call_ensures(window_matches_record, (window, record, server_pid), matches),
    ensures
        record.window_id is Some && matches ==> record.window_id->0@ == window.id@,
        record.window_id is Some && record.server_pid is Some && matches ==> server_pid is Some
            && server_pid->0@ == record.server_pid->0@,
        record.window_id is Some && record.window_id->0@ == window.id@ && record.server_pid is None
            ==> matches,
        record.window_id is Some && record.window_id->0@ == window.id@ && record.server_pid is Some
            && server_pid is Some && server_pid->0@ == record.server_pid->0@ ==> matches,
        record.window_id is None ==> (matches <==> agent_component(stripped(window.name@))
            == agent_component(record.agent@)),
{
    law_matching_agrees_with_state_files(window.name@, record.agent@);
}

/// A window is an agent's by name if the two agree letter by letter, up to the status
/// symbols behind the window's name and the case of English letters.
pub proof fn law_agent_matches_by_letters(window_name: &str, agent: &str, matches: bool)
    requires
        call_ensures(agent_matches, (window_name, agent), matches),
    ensures
        matches <==> stripped(window_name@).len() == agent@.len() && forall|i: int|
            0 <= i < agent@.len() ==> ascii_lower(stripped(window_name@)[i]) == ascii_lower(
                #[trigger] agent@[i],
            ),
{
    let base = stripped(window_name@);
    law_lower_case_is_letter_by_letter(base, agent@);
    law_lower_case_is_letter_by_letter(agent@, base);
    if base.len() == agent@.len() && forall|i: int|
        0 <= i < agent@.len() ==> ascii_lower(base[i]) == ascii_lower(#[trigger] agent@[i]) {
        assert(ascii_lowered(base) =~= ascii_lowered(agent@));
    }
    if matches {
        assert forall|i: int| 0 <= i < agent@.len() implies ascii_lower(base[i]) == ascii_lower(
            #[trigger] agent@[i],
        ) by {
            assert(ascii_lowered(base)[i] == ascii_lowered(agent@)[i]);
        }
    }
}

/// Carrying out what `plan_renames` returns leaves nothing to rename, and each window under
/// the name that its record asks for.
pub proof fn law_planned_renames_settle_the_session(
    records: &[StateRecord],
    windows: &[Window],
    server_pid: Option<&str>,
    renames: Vec<Rename>,
    j: int,
)
    requires
        call_ensures(plan_renames, (records, windows, server_pid), renames),
        distinct_indices(windows.deep_view()),
        0 <= j < windows@.len(),
    ensures
        ({
            let after = after_renames(windows.deep_view(), renames.deep_view());
            let pid = optional_str(server_pid);
            &&& after[j].id == windows@[j].id@
            &&& after[j].index == windows@[j].index@
            &&& after[j].name == match shown_record(records.deep_view(), windows@[j]@, pid) {
                Some(record) => stripped(windows@[j].name@) + symbol_of(record.state),
                None => windows@[j].name@,
            }
            &&& rename_of(records.deep_view(), after[j], pid) is None
        }),
{
    let pid = optional_str(server_pid);
    let shown = windows.deep_view();
    assert(shown[j] == windows@[j]@);
    law_synced_windows_show_their_state(records.deep_view(), shown, pid, j);
    law_plan_reconciles_every_window(records.deep_view(), shown, pid);
    law_reconciled_needs_no_rename(records.deep_view(), shown[j], pid);
}

/// Windows are looked at one by one and in order: one more window adds its rename, if it
/// needs one, behind those of the others.
pub proof fn law_renames_come_in_order(
    records: Seq<StateRecordView>,
    windows: Seq<WindowView>,
    window: WindowView,
    server_pid: Option<Seq<char>>,
)
    ensures
        ({
            let earlier = renames_of(records, windows, server_pid);
            let all = renames_of(records, windows.push(window), server_pid);
            match shown_record(records, window, server_pid) {
                Some(record) => {
                    let name = stripped(window.name) + symbol_of(record.state);
                    all == if name == window.name {
                        earlier
                    } else {
                        earlier.push(RenameView { index: window.index, new_name: name })
                    }
                },
                None => all == earlier,
            }
        }),
        renames_of(records, Seq::empty(), server_pid).len() == 0,
{
    let rename = |window: WindowView| rename_of(records, window, server_pid);
    let more = windows.push(window);
    more.lemma_filter_map_take_succ(rename, windows.len() as int);
    assert(more.take(windows.len() as int) == windows);
    assert(more.take(more.len() as int) == more);
    assert(renames_of(records, Seq::empty(), server_pid) == Seq::<RenameView>::empty());
}

} // verus!
