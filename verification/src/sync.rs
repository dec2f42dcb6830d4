//! Reconciling a whole session: which windows to rename, which state files to remove.

use crate::reconcile::{agent_matches, names_agent, plan_renames, rename_of, renames_of};
use crate::reconcile::{shown_record, shows_record, window_matches_record, Rename};
use crate::state::{StateRecord, StateRecordView};
use crate::text::{optional_str, same_text};
use crate::tmux::{Window, WindowView};
use vstd::prelude::*;

verus! {

/// Whether `window` carries the id of `record` only because another server than the one
/// that the record was written under reuses it, but goes by the agent's name all the same.
pub open spec fn takes_over(
    window: WindowView,
    record: StateRecordView,
    server_pid: Option<Seq<char>>,
) -> bool {
    &&& record.window_id == Some(window.id)
    &&& record.server_pid is Some
    &&& server_pid is Some
    &&& record.server_pid != server_pid
    &&& names_agent(window.name, record.agent)
}

/// Whether `window` speaks for keeping `record`.
pub open spec fn retains(
    window: WindowView,
    record: StateRecordView,
    server_pid: Option<Seq<char>>,
) -> bool {
    shows_record(window, record, server_pid) || takes_over(window, record, server_pid)
}

/// Whether no window speaks for keeping `record`.
pub open spec fn orphaned(
    record: StateRecordView,
    windows: Seq<WindowView>,
    server_pid: Option<Seq<char>>,
) -> bool {
    forall|i: int| 0 <= i < windows.len() ==> !retains(#[trigger] windows[i], record, server_pid)
}

fn window_retains_record(
    window: &Window,
    record: &StateRecord,
    current_server_pid: Option<&str>,
) -> (retained: bool)
    ensures
        retained == retains(window@, record@, optional_str(current_server_pid)),
{
    if window_matches_record(window, record, current_server_pid) {
        return true;
    }
    match (&record.window_id, &record.server_pid, current_server_pid) {
        (Some(id), Some(recorded), Some(current)) => window.id == *id && !same_text(
            recorded.as_str(),
            current,
        ) && agent_matches(window.name.as_str(), record.agent.as_str()),
        _ => false,
    }
}

/// A record is orphaned when no live window matches it (see
/// `reconcile::window_matches_record`), i.e. its window is closed, not merely renamed. A
/// name-based check alone can't tell those apart, which is why that shared check prefers
/// the stable `window_id` when the record has one.
///
/// A record whose `window_id` collides with a live window only because a restarted tmux
/// server reused the id, but whose stripped name also happens to match, is retained
/// rather than pruned.
pub fn is_orphaned(
    record: &StateRecord,
    windows: &[Window],
    current_server_pid: Option<&str>,
) -> (is_orphaned: bool)
    ensures
        is_orphaned == orphaned(
            record@,
            windows.deep_view(),
            optional_str(current_server_pid),
        ),
{
    let ghost all = windows.deep_view();
    let ghost pid = optional_str(current_server_pid);
    for i in 0..windows.len()
        invariant
            all == windows.deep_view(),
            pid == optional_str(current_server_pid),
            forall|k: int| 0 <= k < i ==> !retains(#[trigger] all[k], record@, pid),
    {
        assert(all[i as int] == windows@[i as int]@);
        if window_retains_record(&windows[i], record, current_server_pid) {
            return false;
        }
    }
    true
}

/// The paths of the orphaned ones among `records`, in order.
pub open spec fn orphaned_paths<P>(
    records: Seq<(P, StateRecord)>,
    windows: Seq<WindowView>,
    server_pid: Option<Seq<char>>,
) -> Seq<P> {
    records.filter_map(
        |stored: (P, StateRecord)|
            if orphaned(stored.1@, windows, server_pid) {
                Some(stored.0)
            } else {
                None
            },
    )
}

/// The state files to delete: those of agents whose window no longer exists. The window
/// may have been killed outside of the harness's `SessionEnd` hook, which is the only other
/// place state gets cleaned up. Each is given by the path its record was actually read
/// from, not a recomputed one, so a name mismatch can't leave orphans stuck forever.
pub fn prune_orphaned<'a, P>(
    records: &'a [(P, StateRecord)],
    windows: &[Window],
    current_server_pid: Option<&str>,
) -> (paths: Vec<&'a P>)
    ensures
        paths@.unref() == orphaned_paths(
            records@,
            windows.deep_view(),
            optional_str(current_server_pid),
        ),
{
    let ghost all = windows.deep_view();
    let ghost pid = optional_str(current_server_pid);
    let ghost path_of = |stored: (P, StateRecord)|
        if orphaned(stored.1@, all, pid) {
            Some(stored.0)
        } else {
            None
        };
    let mut paths: Vec<&'a P> = Vec::new();
    assert(paths@.unref() == records@.take(0).filter_map(path_of));
    for i in 0..records.len()
        invariant
            all == windows.deep_view(),
            pid == optional_str(current_server_pid),
            path_of == (|stored: (P, StateRecord)|
                if orphaned(stored.1@, all, pid) {
                    Some(stored.0)
                } else {
                    None
                }),
            paths@.unref() == records@.take(i as int).filter_map(path_of),
    {
        let ghost before = paths@.unref();
        proof {
            records@.lemma_filter_map_take_succ(path_of, i as int);
        }
        if is_orphaned(&records[i].1, windows, current_server_pid) {
            paths.push(&records[i].0);
            assert(paths@.unref() == before.push(records@[i as int].0));
        }
        assert(paths@.unref() == records@.take(i + 1).filter_map(path_of));
    }
    assert(records@.take(records@.len() as int) == records@);
    paths
}

/// What a sync does: the windows to rename, and the state files to delete.
pub struct SyncPlan<'a, P> {
    pub renames: Vec<Rename>,
    pub prune: Vec<&'a P>,
}

/// The views of the records among `stored`.
pub open spec fn records_view<P>(stored: Seq<(P, StateRecord)>) -> Seq<StateRecordView> {
    stored.map_values(|stored: (P, StateRecord)| stored.1@)
}

/// Plans one on-demand reconciliation of every window in a session against its state
/// files.
///
/// State files are only pruned when the current server's pid is actually known: pruning
/// is destructive, and an unreadable pid means a `window_id` match can't be verified, so
/// it is better to skip it than to risk treating live windows as orphaned.
pub fn plan_sync<'a, P>(
    records: &'a [(P, StateRecord)],
    windows: &[Window],
    server_pid: Option<&str>,
) -> (plan: SyncPlan<'a, P>)
    ensures
        plan.renames.deep_view() == renames_of(
            records_view(records@),
            windows.deep_view(),
            optional_str(server_pid),
        ),
        plan.prune@.unref() == if server_pid is Some {
            orphaned_paths(records@, windows.deep_view(), optional_str(server_pid))
        } else {
            seq![]
        },
{
    let mut all: Vec<StateRecord> = Vec::new();
    for i in 0..records.len()
        invariant
            all.deep_view() == records_view(records@.take(i as int)),
    {
        let ghost before = all.deep_view();
        all.push(records[i].1.clone());
        assert(all.deep_view() == before.push(records@[i as int].1@));
        assert(records_view(records@.take(i + 1)) == before.push(records@[i as int].1@));
    }
    assert(records@.take(records@.len() as int) == records@);
    let renames = plan_renames(&all, windows, server_pid);
    let prune = if server_pid.is_some() {
        prune_orphaned(records, windows, server_pid)
    } else {
        Vec::new()
    };
    assert(server_pid is None ==> prune@.unref() == Seq::<P>::empty());
    SyncPlan { renames, prune }
}

/// A record that some window shows is never pruned, so a window that was only renamed
/// keeps its record.
pub proof fn law_shown_record_is_kept(
    record: StateRecordView,
    windows: Seq<WindowView>,
    server_pid: Option<Seq<char>>,
    i: int,
)
    requires
        0 <= i < windows.len(),
        shows_record(windows[i], record, server_pid),
    ensures
        !orphaned(record, windows, server_pid),
{
    assert(retains(windows[i], record, server_pid));
}

/// A record with a window's id is pruned once no window has that id, whatever the windows
/// are called.
pub proof fn law_closed_window_orphans_its_record(
    record: StateRecordView,
    windows: Seq<WindowView>,
    server_pid: Option<Seq<char>>,
)
    requires
        record.window_id is Some,
        forall|i: int|
            0 <= i < windows.len() ==> Some((#[trigger] windows[i]).id) != record.window_id,
    ensures
        orphaned(record, windows, server_pid),
{
}

/// Syncing deletes no state file that it renames a window for.
pub proof fn law_renamed_window_keeps_its_record(
    records: Seq<StateRecordView>,
    windows: Seq<WindowView>,
    server_pid: Option<Seq<char>>,
    i: int,
)
    requires
        0 <= i < windows.len(),
        rename_of(records, windows[i], server_pid) is Some,
    ensures
        !orphaned(shown_record(records, windows[i], server_pid)->0, windows, server_pid),
{
    lemma_shown_is_shown(records, windows[i], server_pid);
    assert(retains(
        windows[i],
        shown_record(records, windows[i], server_pid)->0,
        server_pid,
    ));
}

proof fn lemma_shown_is_shown(
    records: Seq<StateRecordView>,
    window: WindowView,
    server_pid: Option<Seq<char>>,
)
    ensures
        shown_record(records, window, server_pid) matches Some(record) ==> shows_record(
            window,
            record,
            server_pid,
        ),
    decreases records.len(),
{
    if records.len() > 0 {
        lemma_shown_is_shown(records.drop_first(), window, server_pid);
    }
}

/// A record is kept exactly if some window speaks for it. Without a window's id, that is one
/// that goes by the agent's name. With one, it is one of that id: under the server that the
/// record was written under or if it names none, whatever the window is called, and under
/// another known server only if it goes by the agent's name.
pub proof fn law_what_speaks_for_a_record(
    record: StateRecordView,
    window: WindowView,
    windows: Seq<WindowView>,
    server_pid: Option<Seq<char>>,
)
    ensures
        ({
            let alone = !orphaned(record, seq![window], server_pid);
            &&& record.window_id is None ==> (alone <==> names_agent(window.name, record.agent))
            &&& record.window_id is Some && record.window_id != Some(window.id) ==> !alone
            &&& record.window_id == Some(window.id) && (record.server_pid is None
                || record.server_pid == server_pid) ==> alone
            &&& record.window_id == Some(window.id) && record.server_pid is Some && server_pid is Some
                && record.server_pid != server_pid ==> (alone <==> names_agent(
                window.name,
                record.agent,
            ))
            &&& record.window_id == Some(window.id) && record.server_pid is Some && server_pid is None
                ==> !alone
        }),
        orphaned(record, windows.push(window), server_pid) <==> orphaned(
            record,
            windows,
            server_pid,
        ) && orphaned(record, seq![window], server_pid),
        orphaned(record, Seq::empty(), server_pid),
{
    let single = seq![window];
    let more = windows.push(window);
    assert(single[0] == window);
    assert(orphaned(record, single, server_pid) <==> !retains(window, record, server_pid));
    if orphaned(record, more, server_pid) {
        assert forall|i: int| 0 <= i < windows.len() implies !retains(
            #[trigger] windows[i],
            record,
            server_pid,
        ) by {
            assert(more[i] == windows[i]);
        }
        assert(more[windows.len() as int] == window);
    }
    if orphaned(record, windows, server_pid) && orphaned(record, single, server_pid) {
        assert forall|i: int| 0 <= i < more.len() implies !retains(
            #[trigger] more[i],
            record,
            server_pid,
        ) by {
            if i < windows.len() {
                assert(more[i] == windows[i]);
            }
        }
    }
}

/// The files to delete are those of the orphaned records, one for each and in their order.
pub proof fn law_orphans_are_deleted_one_by_one<P>(
    records: Seq<(P, StateRecord)>,
    path: P,
    record: StateRecord,
    windows: Seq<WindowView>,
    server_pid: Option<Seq<char>>,
)
    ensures
        orphaned_paths(records.push((path, record)), windows, server_pid) == if orphaned(
            record@,
            windows,
            server_pid,
        ) {
            orphaned_paths(records, windows, server_pid).push(path)
        } else {
            orphaned_paths(records, windows, server_pid)
        },
        orphaned_paths(Seq::<(P, StateRecord)>::empty(), windows, server_pid).len() == 0,
{
    let path_of = |stored: (P, StateRecord)|
        if orphaned(stored.1@, windows, server_pid) {
            Some(stored.0)
        } else {
            None
        };
    let more = records.push((path, record));
    more.lemma_filter_map_take_succ(path_of, records.len() as int);
    assert(more.take(records.len() as int) == records);
    assert(more.take(more.len() as int) == more);
    assert(orphaned_paths(Seq::<(P, StateRecord)>::empty(), windows, server_pid) == Seq::<
        P,
    >::empty());
}

/// Whether `path` is that of an orphaned record among `records`.
pub open spec fn is_orphans_path<P>(
    path: P,
    records: Seq<(P, StateRecord)>,
    windows: Seq<WindowView>,
    server_pid: Option<Seq<char>>,
) -> bool {
    exists|j: int|
        0 <= j < records.len() && (#[trigger] records[j]).0 == path && orphaned(
            records[j].1@,
            windows,
            server_pid,
        )
}

/// What `plan_sync` deletes: nothing where the server is not known, and else the file of
/// each record that `is_orphaned` finds, and no file of another record alone.
pub proof fn law_sync_deletes_orphans_only<'a, P>(
    records: &'a [(P, StateRecord)],
    windows: &[Window],
    server_pid: Option<&str>,
    plan: SyncPlan<'a, P>,
    i: int,
    is_orphan: bool,
)
    requires
        call_ensures(plan_sync::<P>, (records, windows, server_pid), plan),
        0 <= i < records@.len(),
        call_ensures(is_orphaned, (&records@[i].1, windows, server_pid), is_orphan),
    ensures
        server_pid is None ==> plan.prune@.len() == 0,
        server_pid is Some && is_orphan ==> plan.prune@.unref().contains(records@[i].0),
        forall|k: int|
            0 <= k < plan.prune@.len() ==> is_orphans_path(
                #[trigger] plan.prune@.unref()[k],
                records@,
                windows.deep_view(),
                optional_str(server_pid),
            ),
{
    let pid = optional_str(server_pid);
    lemma_orphans_of(records@, windows.deep_view(), pid);
    assert(plan.prune@.len() == plan.prune@.unref().len());
}

proof fn lemma_orphans_of<P>(
    records: Seq<(P, StateRecord)>,
    windows: Seq<WindowView>,
    server_pid: Option<Seq<char>>,
)
    ensures
        forall|i: int|
            0 <= i < records.len() && orphaned((#[trigger] records[i]).1@, windows, server_pid)
                ==> orphaned_paths(records, windows, server_pid).contains(records[i].0),
        forall|k: int|
            0 <= k < orphaned_paths(records, windows, server_pid).len() ==> is_orphans_path(
                #[trigger] orphaned_paths(records, windows, server_pid)[k],
                records,
                windows,
                server_pid,
            ),
    decreases records.len(),
{
    let paths = orphaned_paths(records, windows, server_pid);
    if records.len() > 0 {
        let fewer = records.drop_last();
        let last = records.last();
        let earlier = orphaned_paths(fewer, windows, server_pid);
        lemma_orphans_of(fewer, windows, server_pid);
        assert(fewer.push((last.0, last.1)) == records);
        law_orphans_are_deleted_one_by_one(fewer, last.0, last.1, windows, server_pid);
        assert forall|i: int|
            0 <= i < records.len() && orphaned(
                (#[trigger] records[i]).1@,
                windows,
                server_pid,
            ) implies paths.contains(records[i].0) by {
            if i < fewer.len() {
                assert(fewer[i] == records[i]);
                let at = choose|at: int| 0 <= at < earlier.len() && earlier[at] == fewer[i].0;
                assert(paths[at] == records[i].0);
            } else {
                assert(paths[paths.len() - 1] == records[i].0);
            }
        }
        assert forall|k: int| 0 <= k < paths.len() implies is_orphans_path(
            #[trigger] paths[k],
            records,
            windows,
            server_pid,
        ) by {
            if k < earlier.len() {
                assert(paths[k] == earlier[k]);
                assert(is_orphans_path(earlier[k], fewer, windows, server_pid));
                let j = choose|j: int|
                    0 <= j < fewer.len() && (#[trigger] fewer[j]).0 == earlier[k] && orphaned(
                        fewer[j].1@,
                        windows,
                        server_pid,
                    );
                assert(records[j] == fewer[j]);
            } else {
                assert(records[records.len() - 1].0 == paths[k]);
            }
        }
    } else {
        assert(paths == Seq::<P>::empty());
    }
}

/// What `plan_sync` renames is what `plan_renames` does for the same records, whether or not
/// the server is known.
pub proof fn law_sync_renames_as_planned<'a, P>(
    stored: &'a [(P, StateRecord)],
    records: &[StateRecord],
    windows: &[Window],
    server_pid: Option<&str>,
    plan: SyncPlan<'a, P>,
    renames: Vec<Rename>,
)
    requires
        call_ensures(plan_sync::<P>, (stored, windows, server_pid), plan),
        call_ensures(plan_renames, (records, windows, server_pid), renames),
        records@.len() == stored@.len(),
        forall|i: int| 0 <= i < records@.len() ==> (#[trigger] records@[i])@ == stored@[i].1@,
    ensures
        plan.renames.deep_view() == renames.deep_view(),
{
    assert(records.deep_view() == records_view(stored@));
}

} // verus!
