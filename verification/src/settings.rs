//! The hooks that a harness's settings name, and berger's place among them.

use crate::json::{items_view, lemma_json_view, member_of, members_view, object_of};
use crate::json::{set_member, take_member, Json, JsonView};
use crate::path::{file_name, file_name_of, same_bytes};
use crate::shell::{law_unquote_inverts_quote, quote_body, quoted, unquoted_body};
use crate::shell::{law_quoted_is_one_shell_word, shell_quote, shell_unquote_body, shell_word};
use crate::state::{event_state, law_events_of_each_state};
use crate::text::{after_prefix, before_suffix, law_affixes, same_text, strip_prefix};
use crate::text::strip_suffix;
use vstd::prelude::*;
use vstd::utf8::encode_utf8;

verus! {

/// The events that berger hooks into.
pub open spec fn hook_event_names() -> Seq<Seq<char>> {
    seq![
        "SessionStart"@,
        "UserPromptSubmit"@,
        "PreToolUse"@,
        "PermissionRequest"@,
        "PostToolUseFailure"@,
        "Stop"@,
        "StopFailure"@,
        "SessionEnd"@,
    ]
}

/// The path that the part of a command before ` event` names: what it stands for if it is
/// a single quoted word, or the text itself.
pub open spec fn command_path(rest: Seq<char>) -> Seq<char> {
    match after_prefix(rest, seq!['\'']) {
        Some(opened) => match before_suffix(opened, seq!['\'']) {
            Some(body) => if quoted(unquoted_body(body)) == rest {
                unquoted_body(body)
            } else {
                rest
            },
            None => rest,
        },
        None => rest,
    }
}

/// Whether a command is shaped like one of berger's hooks: a path whose last name is
/// `berger`, quoted or not, followed by ` event`.
pub open spec fn is_generated(command: Seq<char>) -> bool {
    match before_suffix(command, " event"@) {
        Some(rest) => file_name_of(encode_utf8(command_path(rest))) == Some(
            encode_utf8("berger"@),
        ),
        None => false,
    }
}

/// The command of a hook, if it has one.
pub open spec fn command_of(hook: JsonView) -> Option<Seq<char>> {
    match hook.member("command"@) {
        Some(JsonView::Text(command)) => Some(command),
        _ => None,
    }
}

/// The hooks of an entry, if it has a list of them.
pub open spec fn hooks_of(entry: JsonView) -> Option<Seq<JsonView>> {
    match entry.member("hooks"@) {
        Some(JsonView::Array(hooks)) => Some(hooks),
        _ => None,
    }
}

/// Whether a hook is one of berger's, but not the one that runs `berger_cmd`.
pub open spec fn is_stale(hook: JsonView, berger_cmd: Seq<char>) -> bool {
    command_of(hook) matches Some(command) && command != berger_cmd && is_generated(command)
}

/// `hooks` without the stale ones.
pub open spec fn fresh(hooks: Seq<JsonView>, berger_cmd: Seq<char>) -> Seq<JsonView> {
    hooks.filter(|hook: JsonView| !is_stale(hook, berger_cmd))
}

/// `entry` with these hooks in place of its own.
pub open spec fn with_hooks(entry: JsonView, hooks: Seq<JsonView>) -> JsonView {
    JsonView::Object(entry->Object_0.insert("hooks"@, JsonView::Array(hooks)))
}

/// `entry` without its stale hooks.
pub open spec fn without_stale(entry: JsonView, berger_cmd: Seq<char>) -> JsonView {
    match hooks_of(entry) {
        Some(hooks) => with_hooks(entry, fresh(hooks, berger_cmd)),
        None => entry,
    }
}

/// Whether an entry has any hooks.
pub open spec fn has_hooks(entry: JsonView) -> bool {
    hooks_of(entry) matches Some(hooks) && hooks.len() > 0
}

/// What is left of an entry of which hooks were removed, unless that took its last one.
pub open spec fn unless_emptied(before: JsonView, after: JsonView) -> Option<JsonView> {
    if has_hooks(before) && !has_hooks(after) {
        None
    } else {
        Some(after)
    }
}

/// Whether one of `hooks` has this very command.
pub open spec fn some_has(hooks: Seq<JsonView>, command: Seq<char>) -> bool {
    exists|i: int| 0 <= i < hooks.len() && #[trigger] command_of(hooks[i]) == Some(command)
}

/// Whether one of the hooks of an entry has this very command.
pub open spec fn runs(entry: JsonView, command: Seq<char>) -> bool {
    hooks_of(entry) matches Some(hooks) && some_has(hooks, command)
}

/// The entries without their stale hooks, but for those that this emptied.
pub open spec fn kept_entries(entries: Seq<JsonView>, berger_cmd: Seq<char>) -> Seq<JsonView> {
    entries.filter_map(
        |entry: JsonView| unless_emptied(entry, without_stale(entry, berger_cmd)),
    )
}

/// Whether one of the entries runs this very command.
pub open spec fn some_runs(entries: Seq<JsonView>, command: Seq<char>) -> bool {
    exists|i: int| 0 <= i < entries.len() && runs(#[trigger] entries[i], command)
}

/// `hooks` without those that repeat this command, all of them if it was seen before.
pub open spec fn hooks_once(hooks: Seq<JsonView>, command: Seq<char>, seen: bool) -> Seq<JsonView>
    decreases hooks.len(),
{
    if hooks.len() == 0 {
        seq![]
    } else {
        let earlier = hooks_once(hooks.drop_last(), command, seen);
        if command_of(hooks.last()) == Some(command) && (seen || some_has(
            hooks.drop_last(),
            command,
        )) {
            earlier
        } else {
            earlier.push(hooks.last())
        }
    }
}

/// `entry` without the hooks that repeat this command.
pub open spec fn entry_once(entry: JsonView, command: Seq<char>, seen: bool) -> JsonView {
    match hooks_of(entry) {
        Some(hooks) => with_hooks(entry, hooks_once(hooks, command, seen)),
        None => entry,
    }
}

/// The entries without the hooks that repeat this command, but for those that this emptied.
pub open spec fn entries_once(entries: Seq<JsonView>, command: Seq<char>) -> Seq<JsonView>
    decreases entries.len(),
{
    if entries.len() == 0 {
        seq![]
    } else {
        let earlier = entries_once(entries.drop_last(), command);
        let last = entries.last();
        let seen = some_runs(entries.drop_last(), command);
        match unless_emptied(last, entry_once(last, command, seen)) {
            Some(entry) => earlier.push(entry),
            None => earlier,
        }
    }
}

/// The entry that berger adds.
pub open spec fn berger_entry(berger_cmd: Seq<char>) -> JsonView {
    JsonView::Object(
        map![
            "hooks"@ => JsonView::Array(
                seq![
                    JsonView::Object(
                        map![
                            "type"@ => JsonView::Text("command"@),
                            "command"@ => JsonView::Text(berger_cmd),
                        ],
                    ),
                ],
            ),
        ],
    )
}

/// The entries of one event after berger's hook has been merged in: once, whatever was
/// there.
pub open spec fn merged_entries(entries: Seq<JsonView>, berger_cmd: Seq<char>) -> Seq<JsonView> {
    let kept = kept_entries(entries, berger_cmd);
    let once = entries_once(kept, berger_cmd);
    if some_runs(kept, berger_cmd) {
        once
    } else {
        once.push(berger_entry(berger_cmd))
    }
}

/// The entries of an event, if they are a list; an event that is not there has none.
pub open spec fn entries_of(hooks: Map<Seq<char>, JsonView>, event: Seq<char>) -> Option<
    Seq<JsonView>,
> {
    match member_of(hooks, event) {
        Some(JsonView::Array(entries)) => Some(entries),
        Some(_) => None,
        None => Some(seq![]),
    }
}

/// The hooks after those of one event have been merged.
pub open spec fn with_event_merged(
    hooks: Map<Seq<char>, JsonView>,
    event: Seq<char>,
    berger_cmd: Seq<char>,
) -> Map<Seq<char>, JsonView>
    recommends
        entries_of(hooks, event) is Some,
{
    hooks.insert(
        event,
        JsonView::Array(merged_entries(entries_of(hooks, event)->0, berger_cmd)),
    )
}

/// The hooks after those of `events` have been merged, one event after the other, and
/// the event whose entries are not a list, at which merging stopped.
pub open spec fn with_events_merged(
    hooks: Map<Seq<char>, JsonView>,
    events: Seq<Seq<char>>,
    berger_cmd: Seq<char>,
) -> (Map<Seq<char>, JsonView>, Option<Seq<char>>)
    decreases events.len(),
{
    if events.len() == 0 {
        (hooks, None)
    } else if entries_of(hooks, events[0]) is None {
        (hooks, Some(events[0]))
    } else {
        with_events_merged(
            with_event_merged(hooks, events[0], berger_cmd),
            events.drop_first(),
            berger_cmd,
        )
    }
}

/// The hooks that settings hold; settings without any have none.
pub open spec fn hooks_object(settings: JsonView) -> Option<Map<Seq<char>, JsonView>> {
    match settings.member("hooks"@) {
        Some(JsonView::Object(hooks)) => Some(hooks),
        Some(_) => None,
        None => Some(Map::empty()),
    }
}

/// Settings after berger's hooks have been merged in, as far as their shape allows, and
/// what is wrong with their shape, if anything is.
pub open spec fn merged(settings: JsonView, berger_cmd: Seq<char>) -> (JsonView, Option<Seq<char>>) {
    if settings !is Object {
        (settings, Some("settings.json root must be an object"@))
    } else if hooks_object(settings) is None {
        (settings, Some("\"hooks\" must be an object"@))
    } else {
        let (hooks, bad_event) = with_events_merged(
            hooks_object(settings)->0,
            hook_event_names(),
            berger_cmd,
        );
        let after = JsonView::Object(
            settings->Object_0.insert("hooks"@, JsonView::Object(hooks)),
        );
        match bad_event {
            Some(event) => (after, Some("\"hooks."@ + event + "\" must be an array"@)),
            None => (after, None),
        }
    }
}

/// The events that berger hooks into.
pub fn hook_events() -> (events: Vec<&'static str>)
    ensures
        events@.map_values(|event: &'static str| event@) == hook_event_names(),
{
    let events: Vec<&'static str> = vec![
        "SessionStart",
        "UserPromptSubmit",
        "PreToolUse",
        "PermissionRequest",
        "PostToolUseFailure",
        "Stop",
        "StopFailure",
        "SessionEnd",
    ];
    assert(events@.map_values(|event: &'static str| event@) == hook_event_names());
    events
}

/// True for a command shaped like a `berger init`-generated hook: a single shell-quoted
/// path whose basename is `berger`, followed by the `event` subcommand. Matching by shape
/// (not exact string) is what lets re-init recognize its own prior output even when the
/// binary's path has changed since the last run.
///
/// The same shape without the quotes is recognized too.
pub fn is_generated_berger_command(command: &str) -> (generated: bool)
    ensures
        generated == is_generated(command@),
{
    proof {
        reveal_strlit("'");
        assert("'"@ == seq!['\'']);
    }
    let rest = match strip_suffix(command, " event") {
        Some(rest) => rest,
        None => {
            return false;
        },
    };
    let path = match strip_prefix(rest.as_str(), "'") {
        Some(opened) => match strip_suffix(opened.as_str(), "'") {
            Some(body) => {
                let path = shell_unquote_body(body.as_str());
                if same_text(shell_quote(path.as_str()).as_str(), rest.as_str()) {
                    path
                } else {
                    rest
                }
            },
            None => rest,
        },
        None => rest,
    };
    match file_name(path.as_str().as_bytes()) {
        Some(name) => same_bytes(&name, "berger".as_bytes()),
        None => false,
    }
}

/// Whether a hook has exactly this command.
fn command_equals(hook: &Json, command: &str) -> (equal: bool)
    ensures
        equal == (command_of(hook@) == Some(command@)),
{
    match hook.get("command") {
        Some(value) => match value.as_str() {
            Some(text) => same_text(text, command),
            None => false,
        },
        None => false,
    }
}

/// Whether one of an entry's hooks has exactly this command.
pub fn entry_command_equals(entry: &Json, command: &str) -> (equal: bool)
    ensures
        equal == runs(entry@, command@),
{
    let inner = match entry.get("hooks") {
        Some(value) => match value.as_array() {
            Some(inner) => inner,
            None => {
                return false;
            },
        },
        None => {
            return false;
        },
    };
    let ghost hooks = items_view(inner@);
    for i in 0..inner.len()
        invariant
            hooks == items_view(inner@),
            hooks_of(entry@) == Some(hooks),
            forall|k: int| 0 <= k < i ==> #[trigger] command_of(hooks[k]) != Some(command@),
    {
        assert(hooks[i as int] == inner@[i as int]@);
        if command_equals(&inner[i], command) {
            return true;
        }
    }
    false
}

/// Whether a hook is one of berger's, but not the one that runs `berger_cmd`.
fn stale(hook: &Json, berger_cmd: &str) -> (stale: bool)
    ensures
        stale == is_stale(hook@, berger_cmd@),
{
    match hook.get("command") {
        Some(value) => match value.as_str() {
            Some(command) => !same_text(command, berger_cmd) && is_generated_berger_command(
                command,
            ),
            None => false,
        },
        None => false,
    }
}

/// The hooks that are not stale.
fn keep_fresh(hooks: Vec<Json>, berger_cmd: &str) -> (kept: Vec<Json>)
    ensures
        items_view(kept@) == fresh(items_view(hooks@), berger_cmd@),
{
    let ghost all = items_view(hooks@);
    let ghost pred = |hook: JsonView| !is_stale(hook, berger_cmd@);
    let mut kept: Vec<Json> = Vec::new();
    assert(items_view(kept@) == all.take(0).filter(pred)) by {
        reveal(Seq::filter);
    }
    for hook in it: hooks
        invariant
            it.seq() == hooks@,
            all == items_view(hooks@),
            pred == (|hook: JsonView| !is_stale(hook, berger_cmd@)),
            items_view(kept@) == all.take(it.index()).filter(pred),
    {
        let ghost before = items_view(kept@);
        let ghost view = hook@;
        proof {
            assert(view == all[it.index()]);
            assert(all.take(it.index() + 1) == all.take(it.index()).push(view));
            assert(all.take(it.index() + 1).drop_last() == all.take(it.index()));
            reveal(Seq::filter);
        }
        if !stale(&hook, berger_cmd) {
            kept.push(hook);
            assert(items_view(kept@) == before.push(view));
        }
        assert(items_view(kept@) == all.take(it.index() + 1).filter(pred));
    }
    assert(all.take(all.len() as int) == all);
    kept
}

/// Takes the hooks of an entry, if it has a list of them; what is left for it awaits
/// `put_hooks`.
fn take_hooks(entry: &mut Json) -> (hooks: Option<Vec<Json>>)
    ensures
        match hooks {
            Some(list) => {
                &&& hooks_of(old(entry)@) == Some(items_view(list@))
                &&& forall|after: Seq<JsonView>| #[trigger]
                    with_hooks(final(entry)@, after) == with_hooks(old(entry)@, after)
                &&& final(entry)@ is Object
            },
            None => hooks_of(old(entry)@) is None && final(entry)@ == old(entry)@,
        },
{
    let listed = match entry.get("hooks") {
        Some(value) => value.as_array().is_some(),
        None => false,
    };
    if !listed {
        return None;
    }
    proof {
        lemma_json_view(*old(entry));
    }
    let mut hooks: Option<Vec<Json>> = None;
    match entry {
        Json::Object(members) => {
            if let Some(value) = take_member(members, "hooks") {
                proof {
                    lemma_json_view(value);
                }
                if let Json::Array(list) = value {
                    hooks = Some(list);
                }
            }
        },
        _ => {},
    }
    proof {
        lemma_json_view(*entry);
        let before = old(entry)@;
        assert forall|after: Seq<JsonView>| #[trigger]
            with_hooks(entry@, after) == with_hooks(before, after) by {
            assert(with_hooks(entry@, after)->Object_0 =~= with_hooks(before, after)->Object_0);
        }
    }
    hooks
}

/// Gives an entry these hooks.
fn put_hooks(entry: &mut Json, hooks: Vec<Json>)
    requires
        old(entry)@ is Object,
    ensures
        final(entry)@ == with_hooks(old(entry)@, items_view(hooks@)),
{
    let hooks = Json::Array(hooks);
    proof {
        lemma_json_view(hooks);
        lemma_json_view(*old(entry));
    }
    match entry {
        Json::Object(members) => {
            set_member(members, "hooks", hooks);
        },
        _ => {},
    }
    proof {
        lemma_json_view(*entry);
    }
}

/// Drops nested `hooks[].command` entries that are a previously-generated berger hook but
/// no longer match the current `berger_cmd` (e.g. after the binary moved), keeping any
/// sibling commands in the same group.
pub fn remove_stale_berger_commands(entry: &mut Json, berger_cmd: &str)
    ensures
        final(entry)@ == without_stale(old(entry)@, berger_cmd@),
{
    if let Some(hooks) = take_hooks(entry) {
        put_hooks(entry, keep_fresh(hooks, berger_cmd));
    }
}

/// The hooks that do not repeat this command.
fn keep_once(hooks: Vec<Json>, command: &str, seen: bool) -> (kept: Vec<Json>)
    ensures
        items_view(kept@) == hooks_once(items_view(hooks@), command@, seen),
{
    let ghost all = items_view(hooks@);
    let mut kept: Vec<Json> = Vec::new();
    let mut had = false;
    assert(items_view(kept@) == hooks_once(all.take(0), command@, seen));
    for hook in it: hooks
        invariant
            it.seq() == hooks@,
            all == items_view(hooks@),
            had == some_has(all.take(it.index()), command@),
            items_view(kept@) == hooks_once(all.take(it.index()), command@, seen),
    {
        let ghost before = items_view(kept@);
        let ghost view = hook@;
        let ghost earlier = all.take(it.index());
        let ghost here = all.take(it.index() + 1);
        let matching = command_equals(&hook, command);
        proof {
            assert(view == all[it.index()]);
            assert(here.drop_last() == earlier);
            assert(here.last() == view);
            lemma_some_has_last(here, command@);
        }
        if !matching || !(seen || had) {
            kept.push(hook);
            assert(items_view(kept@) == before.push(view));
        }
        had = had || matching;
        assert(items_view(kept@) == hooks_once(here, command@, seen));
    }
    assert(all.take(all.len() as int) == all);
    kept
}

/// Some hook has a command if the last one does or an earlier one.
proof fn lemma_some_has_last(hooks: Seq<JsonView>, command: Seq<char>)
    requires
        hooks.len() > 0,
    ensures
        some_has(hooks, command) <==> some_has(hooks.drop_last(), command) || command_of(
            hooks.last(),
        ) == Some(command),
{
    let fewer = hooks.drop_last();
    if some_has(fewer, command) {
        let i = choose|i: int|
            0 <= i < fewer.len() && #[trigger] command_of(fewer[i]) == Some(command);
        assert(command_of(hooks[i]) == Some(command));
    }
    if command_of(hooks.last()) == Some(command) {
        assert(command_of(hooks[hooks.len() - 1]) == Some(command));
    }
    if some_has(hooks, command) {
        let i = choose|i: int|
            0 <= i < hooks.len() && #[trigger] command_of(hooks[i]) == Some(command);
        if i < fewer.len() {
            assert(command_of(fewer[i]) == Some(command));
        }
    }
}

/// Some entry runs a command if the last one does or an earlier one.
proof fn lemma_some_runs_last(entries: Seq<JsonView>, command: Seq<char>)
    requires
        entries.len() > 0,
    ensures
        some_runs(entries, command) <==> some_runs(entries.drop_last(), command) || runs(
            entries.last(),
            command,
        ),
{
    let fewer = entries.drop_last();
    if some_runs(fewer, command) {
        let i = choose|i: int| 0 <= i < fewer.len() && runs(#[trigger] fewer[i], command);
        assert(runs(entries[i], command));
    }
    if runs(entries.last(), command) {
        assert(runs(entries[entries.len() - 1], command));
    }
    if some_runs(entries, command) {
        let i = choose|i: int| 0 <= i < entries.len() && runs(#[trigger] entries[i], command);
        if i < fewer.len() {
            assert(runs(fewer[i], command));
        }
    }
}

/// Removes the hooks of an entry that repeat this command.
fn remove_repeats(entry: &mut Json, command: &str, seen: bool)
    ensures
        final(entry)@ == entry_once(old(entry)@, command@, seen),
{
    if let Some(hooks) = take_hooks(entry) {
        put_hooks(entry, keep_once(hooks, command, seen));
    }
}

/// Whether an entry has no hooks, or no list of them at all.
pub fn entry_hooks_is_empty(entry: &Json) -> (empty: bool)
    ensures
        empty == !has_hooks(entry@),
{
    match entry.get("hooks") {
        Some(value) => match value.as_array() {
            Some(inner) => inner.len() == 0,
            None => true,
        },
        None => true,
    }
}

/// The entry that berger adds.
fn new_entry(berger_cmd: &str) -> (entry: Json)
    ensures
        entry@ == berger_entry(berger_cmd@),
{
    let hook = Json::Object(
        vec![
            ("type".to_owned(), Json::Text("command".to_owned())),
            ("command".to_owned(), Json::Text(berger_cmd.to_owned())),
        ],
    );
    let hooks = Json::Array(vec![hook]);
    let entry = Json::Object(vec![("hooks".to_owned(), hooks)]);
    proof {
        lemma_json_view(hook);
        lemma_json_view(hooks);
        lemma_json_view(entry);
        let hook_members = members_view(hook->Object_0@);
        let members = members_view(entry->Object_0@);
        let empty = Seq::<(Seq<char>, JsonView)>::empty();
        assert(hook_members.drop_last().drop_last() == empty);
        assert(members.drop_last() == empty);
        reveal_with_fuel(object_of, 3);
        let added = berger_entry(berger_cmd@);
        let list = added->Object_0["hooks"@];
        assert(hook@->Object_0 == list->Array_0[0]->Object_0);
        assert(hooks@->Array_0 == list->Array_0);
        assert(entry@->Object_0 == added->Object_0);
    }
    entry
}

/// The entries without their stale hooks, but for those that this emptied.
fn keep_entries(entries: Vec<Json>, berger_cmd: &str) -> (kept: Vec<Json>)
    ensures
        items_view(kept@) == kept_entries(items_view(entries@), berger_cmd@),
{
    let ghost all = items_view(entries@);
    let ghost keep = |entry: JsonView|
        unless_emptied(entry, without_stale(entry, berger_cmd@));
    let mut kept: Vec<Json> = Vec::new();
    assert(items_view(kept@) == all.take(0).filter_map(keep));
    for entry in it: entries
        invariant
            it.seq() == entries@,
            all == items_view(entries@),
            keep == (|entry: JsonView| unless_emptied(entry, without_stale(entry, berger_cmd@))),
            items_view(kept@) == all.take(it.index()).filter_map(keep),
    {
        let ghost before = items_view(kept@);
        proof {
            assert(entry@ == all[it.index()]);
            all.lemma_filter_map_take_succ(keep, it.index());
        }
        let mut entry = entry;
        let was_empty = entry_hooks_is_empty(&entry);
        remove_stale_berger_commands(&mut entry, berger_cmd);
        let ghost cleaned = entry@;
        if was_empty || !entry_hooks_is_empty(&entry) {
            kept.push(entry);
            assert(items_view(kept@) == before.push(cleaned));
        }
        assert(items_view(kept@) == all.take(it.index() + 1).filter_map(keep));
    }
    assert(all.take(all.len() as int) == all);
    kept
}

/// The entries of one event after berger's hook has been merged in.
fn merge_entries(entries: Vec<Json>, berger_cmd: &str) -> (after: Vec<Json>)
    ensures
        items_view(after@) == merged_entries(items_view(entries@), berger_cmd@),
{
    let kept = keep_entries(entries, berger_cmd);
    let ghost all = items_view(kept@);
    let mut after: Vec<Json> = Vec::new();
    let mut present = false;
    assert(items_view(after@) == entries_once(all.take(0), berger_cmd@));
    for entry in it: kept
        invariant
            it.seq() == kept@,
            all == items_view(kept@),
            present == some_runs(all.take(it.index()), berger_cmd@),
            items_view(after@) == entries_once(all.take(it.index()), berger_cmd@),
    {
        let ghost before = items_view(after@);
        let ghost here = all.take(it.index() + 1);
        proof {
            assert(entry@ == all[it.index()]);
            assert(here.drop_last() == all.take(it.index()));
            assert(here.last() == entry@);
            lemma_some_runs_last(here, berger_cmd@);
        }
        let mut entry = entry;
        let runs_it = entry_command_equals(&entry, berger_cmd);
        let was_empty = entry_hooks_is_empty(&entry);
        remove_repeats(&mut entry, berger_cmd, present);
        let ghost cleaned = entry@;
        if was_empty || !entry_hooks_is_empty(&entry) {
            after.push(entry);
            assert(items_view(after@) == before.push(cleaned));
        }
        present = present || runs_it;
        assert(items_view(after@) == entries_once(here, berger_cmd@));
    }
    assert(all.take(all.len() as int) == all);
    let ghost before = items_view(after@);
    if !present {
        after.push(new_entry(berger_cmd));
        assert(items_view(after@) == before.push(berger_entry(berger_cmd@)));
    }
    after
}

/// Merges berger's hook into those of one event; false if they are not a list.
fn merge_event(hooks: &mut Vec<(String, Json)>, event: &str, berger_cmd: &str) -> (merged: bool)
    ensures
        merged == (entries_of(object_of(members_view(old(hooks)@)), event@) is Some),
        object_of(members_view(final(hooks)@)) == if merged {
            with_event_merged(object_of(members_view(old(hooks)@)), event@, berger_cmd@)
        } else {
            object_of(members_view(old(hooks)@))
        },
{
    let ghost before = object_of(members_view(hooks@));
    let entries = match take_member(hooks, event) {
        Some(value) => {
            proof {
                lemma_json_view(value);
            }
            match value {
                Json::Array(entries) => entries,
                other => {
                    set_member(hooks, event, other);
                    assert(object_of(members_view(hooks@)) =~= before);
                    return false;
                },
            }
        },
        None => {
            let none: Vec<Json> = Vec::new();
            assert(items_view(none@) == Seq::<JsonView>::empty());
            none
        },
    };
    let value = Json::Array(merge_entries(entries, berger_cmd));
    proof {
        lemma_json_view(value);
    }
    set_member(hooks, event, value);
    assert(object_of(members_view(hooks@)) =~= with_event_merged(before, event@, berger_cmd@));
    true
}

/// Merges berger's hook into those of every event; gives the event whose hooks are not a
/// list, if there is one.
fn merge_events(hooks: &mut Vec<(String, Json)>, berger_cmd: &str) -> (bad_event: Option<
    &'static str,
>)
    ensures
        (
            object_of(members_view(final(hooks)@)),
            match bad_event {
                Some(event) => Some(event@),
                None => None,
            },
        ) == with_events_merged(
            object_of(members_view(old(hooks)@)),
            hook_event_names(),
            berger_cmd@,
        ),
{
    let ghost before = object_of(members_view(hooks@));
    let ghost names = hook_event_names();
    let events = hook_events();
    assert(names.skip(0) == names);
    for i in 0..events.len()
        invariant
            names == hook_event_names(),
            before == object_of(members_view(old(hooks)@)),
            events@.map_values(|event: &'static str| event@) == names,
            with_events_merged(
                object_of(members_view(hooks@)),
                names.skip(i as int),
                berger_cmd@,
            ) == with_events_merged(before, names, berger_cmd@),
    {
        assert(names.len() == events@.len());
        assert(names.skip(i as int)[0] == events@[i as int]@);
        assert(names.skip(i as int).drop_first() == names.skip(i + 1));
        if !merge_event(hooks, events[i], berger_cmd) {
            return Some(events[i]);
        }
    }
    None
}

/// Rewrites `hooks[event]` in-place: drops previously-generated berger hooks (any old
/// `berger_cmd` shape, so a reinstalled binary replaces rather than duplicates its hook),
/// and ensures exactly one entry with `command == berger_cmd`. Unrelated entries are left
/// untouched.
///
/// `settings` is hand-editable, so a shape mismatch is reported as an error rather than a
/// panic. The events before the one that does not fit have then been merged.
pub fn merge_hooks(settings: &mut Json, berger_cmd: &str) -> (outcome: Result<(), String>)
    ensures
        (
            final(settings)@,
            match outcome {
                Ok(()) => None,
                Err(message) => Some(message@),
            },
        ) == merged(old(settings)@, berger_cmd@),
{
    proof {
        lemma_json_view(*old(settings));
    }
    let ghost before = settings@;
    let mut problem: Option<String> = None;
    match settings {
        Json::Object(root) => {
            let mut hooks: Vec<(String, Json)> = Vec::new();
            let ghost members = object_of(members_view(root@));
            let mut put_back: Option<Json> = None;
            match take_member(root, "hooks") {
                Some(value) => {
                    proof {
                        lemma_json_view(value);
                    }
                    match value {
                        Json::Object(found) => {
                            hooks = found;
                        },
                        other => {
                            put_back = Some(other);
                        },
                    }
                },
                None => {
                    assert(object_of(members_view(hooks@)) == Map::<Seq<char>, JsonView>::empty());
                },
            }
            if let Some(other) = put_back {
                set_member(root, "hooks", other);
                assert(object_of(members_view(root@)) =~= members);
                problem = Some("\"hooks\" must be an object".to_owned());
            } else {
                assert(Some(object_of(members_view(hooks@))) == hooks_object(before));
                if let Some(event) = merge_events(&mut hooks, berger_cmd) {
                    let mut message = "\"hooks.".to_owned();
                    message.append(event);
                    message.append("\" must be an array");
                    problem = Some(message);
                }
                let value = Json::Object(hooks);
                proof {
                    lemma_json_view(value);
                }
                let ghost set = value@;
                set_member(root, "hooks", value);
                assert(object_of(members_view(root@)) =~= members.insert("hooks"@, set));
            }
        },
        _ => {
            problem = Some("settings.json root must be an object".to_owned());
        },
    }
    proof {
        lemma_json_view(*settings);
    }
    match problem {
        Some(message) => Err(message),
        None => Ok(()),
    }
}

/// The command of the hook for the binary at `berger_bin`.
pub open spec fn hook_command_for(berger_bin: Seq<char>) -> Seq<char> {
    quoted(berger_bin) + " event"@
}

/// The command of the hook for the binary at `berger_bin`.
pub fn hook_command(berger_bin: &str) -> (command: String)
    ensures
        command@ == hook_command_for(berger_bin@),
{
    let mut command = shell_quote(berger_bin);
    command.append(" event");
    command
}

/// The command of a hook is recognized as berger's exactly if the binary is called
/// `berger`, wherever it lies and whatever its path holds.
pub proof fn law_own_command_is_recognized(berger_bin: Seq<char>)
    ensures
        is_generated(hook_command_for(berger_bin)) <==> file_name_of(encode_utf8(berger_bin))
            == Some(encode_utf8("berger"@)),
{
    let command = hook_command_for(berger_bin);
    let rest = quoted(berger_bin);
    let body = quote_body(berger_bin);
    let opened = body.push('\'');
    assert(" event"@.is_suffix_of(command)) by {
        assert(command.subrange(command.len() - " event"@.len(), command.len() as int)
            == " event"@);
    }
    assert(command.take(command.len() - " event"@.len()) == rest);
    assert(seq!['\''].is_prefix_of(rest)) by {
        assert(rest.subrange(0, 1) == seq!['\'']);
    }
    assert(rest.skip(1) == opened);
    assert(seq!['\''].is_suffix_of(opened)) by {
        assert(opened.subrange(opened.len() - 1, opened.len() as int) == seq!['\'']);
    }
    assert(opened.take(opened.len() - 1) == body);
    law_unquote_inverts_quote(berger_bin);
    assert(quoted(unquoted_body(body)) == rest);
}

/// Whether an entry holds no stale hook.
pub open spec fn is_settled(entry: JsonView, berger_cmd: Seq<char>) -> bool {
    hooks_of(entry) matches Some(hooks) ==> forall|i: int|
        0 <= i < hooks.len() ==> !is_stale(#[trigger] hooks[i], berger_cmd)
}

/// The entries of an event in settings.
pub open spec fn event_entries(settings: JsonView, event: Seq<char>) -> Seq<JsonView> {
    entries_of(hooks_object(settings)->0, event)->0
}

/// How many of `hooks` have this command.
pub open spec fn hooks_count(hooks: Seq<JsonView>, command: Seq<char>) -> nat
    decreases hooks.len(),
{
    if hooks.len() == 0 {
        0
    } else {
        hooks_count(hooks.drop_last(), command) + if command_of(hooks.last()) == Some(command) {
            1nat
        } else {
            0nat
        }
    }
}

/// How many hooks of `entry` have this command.
pub open spec fn entry_count(entry: JsonView, command: Seq<char>) -> nat {
    match hooks_of(entry) {
        Some(hooks) => hooks_count(hooks, command),
        None => 0,
    }
}

/// How many hooks of all `entries` have this command.
pub open spec fn command_count(entries: Seq<JsonView>, command: Seq<char>) -> nat
    decreases entries.len(),
{
    if entries.len() == 0 {
        0
    } else {
        command_count(entries.drop_last(), command) + entry_count(entries.last(), command)
    }
}

/// A list of which every item passes is what it is filtered to.
proof fn lemma_filter_all(hooks: Seq<JsonView>, pred: spec_fn(JsonView) -> bool)
    requires
        forall|i: int| 0 <= i < hooks.len() ==> pred(#[trigger] hooks[i]),
    ensures
        hooks.filter(pred) == hooks,
    decreases hooks.len(),
{
    reveal(Seq::filter);
    if hooks.len() > 0 {
        let fewer = hooks.drop_last();
        assert forall|i: int| 0 <= i < fewer.len() implies pred(#[trigger] fewer[i]) by {
            assert(fewer[i] == hooks[i]);
        }
        lemma_filter_all(fewer, pred);
        assert(pred(hooks[hooks.len() - 1]));
        assert(fewer.push(hooks.last()) == hooks);
    }
}

/// An entry that is given the hooks it has stays as it is.
proof fn lemma_same_hooks(entry: JsonView)
    requires
        hooks_of(entry) is Some,
    ensures
        with_hooks(entry, hooks_of(entry)->0) == entry,
{
    assert(with_hooks(entry, hooks_of(entry)->0)->Object_0 =~= entry->Object_0);
}

/// A settled entry is kept as it is.
proof fn lemma_settled_is_kept(entry: JsonView, berger_cmd: Seq<char>)
    requires
        is_settled(entry, berger_cmd),
    ensures
        without_stale(entry, berger_cmd) == entry,
{
    if let Some(hooks) = hooks_of(entry) {
        lemma_filter_all(hooks, |hook: JsonView| !is_stale(hook, berger_cmd));
        lemma_same_hooks(entry);
    }
}

/// Dropping stale hooks drops none that runs this very command.
proof fn lemma_fresh_count(hooks: Seq<JsonView>, berger_cmd: Seq<char>)
    ensures
        hooks_count(fresh(hooks, berger_cmd), berger_cmd) == hooks_count(hooks, berger_cmd),
    decreases hooks.len(),
{
    reveal(Seq::filter);
    if hooks.len() > 0 {
        let fewer = hooks.drop_last();
        let left = fresh(fewer, berger_cmd);
        lemma_fresh_count(fewer, berger_cmd);
        assert(left.push(hooks.last()).drop_last() == left);
    }
}

/// An entry without its stale hooks is settled, and runs this very command as often as it
/// did.
proof fn lemma_cleaned_is_settled(entry: JsonView, berger_cmd: Seq<char>)
    ensures
        is_settled(without_stale(entry, berger_cmd), berger_cmd),
        entry_count(without_stale(entry, berger_cmd), berger_cmd) == entry_count(
            entry,
            berger_cmd,
        ),
{
    if let Some(hooks) = hooks_of(entry) {
        let pred = |hook: JsonView| !is_stale(hook, berger_cmd);
        let left = fresh(hooks, berger_cmd);
        lemma_fresh_count(hooks, berger_cmd);
        assert forall|i: int| 0 <= i < left.len() implies !is_stale(
            #[trigger] left[i],
            berger_cmd,
        ) by {
            hooks.lemma_filter_pred(pred, i);
        }
    }
}

/// A command is counted exactly if some hook has it.
proof fn lemma_hooks_counted(hooks: Seq<JsonView>, command: Seq<char>)
    ensures
        hooks_count(hooks, command) > 0 <==> some_has(hooks, command),
    decreases hooks.len(),
{
    if hooks.len() > 0 {
        lemma_hooks_counted(hooks.drop_last(), command);
        lemma_some_has_last(hooks, command);
    }
}

/// A command is counted exactly if some entry runs it.
proof fn lemma_entries_counted(entries: Seq<JsonView>, command: Seq<char>)
    ensures
        command_count(entries, command) > 0 <==> some_runs(entries, command),
    decreases entries.len(),
{
    if entries.len() > 0 {
        lemma_entries_counted(entries.drop_last(), command);
        lemma_some_runs_last(entries, command);
        if let Some(hooks) = hooks_of(entries.last()) {
            lemma_hooks_counted(hooks, command);
        }
    }
}

/// Hooks that do not repeat a command have it once if they had it at all and it was not
/// seen before; where it is not repeated they stay as they are; and nothing is added.
proof fn lemma_hooks_once(hooks: Seq<JsonView>, command: Seq<char>, seen: bool)
    ensures
        hooks_count(hooks_once(hooks, command, seen), command) == if seen || hooks_count(
            hooks,
            command,
        ) == 0 {
            0nat
        } else {
            1nat
        },
        hooks_count(hooks, command) == 0 || (!seen && hooks_count(hooks, command) == 1)
            ==> hooks_once(hooks, command, seen) == hooks,
        forall|i: int|
            0 <= i < hooks_once(hooks, command, seen).len() ==> hooks.contains(
                #[trigger] hooks_once(hooks, command, seen)[i],
            ),
    decreases hooks.len(),
{
    if hooks.len() > 0 {
        let fewer = hooks.drop_last();
        let last = hooks.last();
        let earlier = hooks_once(fewer, command, seen);
        let once = hooks_once(hooks, command, seen);
        lemma_hooks_once(fewer, command, seen);
        lemma_hooks_counted(fewer, command);
        assert(earlier.push(last).drop_last() == earlier);
        assert(fewer.push(last) == hooks);
        assert forall|i: int| 0 <= i < once.len() implies hooks.contains(#[trigger] once[i]) by {
            if i < earlier.len() {
                assert(once[i] == earlier[i]);
                let at = choose|at: int| 0 <= at < fewer.len() && fewer[at] == earlier[i];
                assert(hooks[at] == once[i]);
            } else {
                assert(hooks[hooks.len() - 1] == once[i]);
            }
        }
    }
}

/// What `hooks_once` does to the hooks of one entry.
proof fn lemma_entry_once(entry: JsonView, berger_cmd: Seq<char>, seen: bool)
    ensures
        entry_count(entry_once(entry, berger_cmd, seen), berger_cmd) == if seen || entry_count(
            entry,
            berger_cmd,
        ) == 0 {
            0nat
        } else {
            1nat
        },
        entry_count(entry, berger_cmd) == 0 || (!seen && entry_count(entry, berger_cmd) == 1)
            ==> entry_once(entry, berger_cmd, seen) == entry,
        is_settled(entry, berger_cmd) ==> is_settled(
            entry_once(entry, berger_cmd, seen),
            berger_cmd,
        ),
{
    if let Some(hooks) = hooks_of(entry) {
        let once = hooks_once(hooks, berger_cmd, seen);
        lemma_hooks_once(hooks, berger_cmd, seen);
        lemma_same_hooks(entry);
        if is_settled(entry, berger_cmd) {
            assert forall|i: int| 0 <= i < once.len() implies !is_stale(
                #[trigger] once[i],
                berger_cmd,
            ) by {
                let at = choose|at: int| 0 <= at < hooks.len() && hooks[at] == once[i];
                assert(!is_stale(hooks[at], berger_cmd));
            }
        }
    }
}

/// Whether an entry holds no stale hook, and none that repeats this command.
pub open spec fn is_unaffected(entries: Seq<JsonView>, i: int, berger_cmd: Seq<char>) -> bool {
    &&& is_settled(entries[i], berger_cmd)
    &&& entry_count(entries[i], berger_cmd) == 0 || command_count(
        entries.take(i + 1),
        berger_cmd,
    ) <= 1
}

/// Whether a hook is none of berger's.
pub open spec fn is_foreign(hook: JsonView, berger_cmd: Seq<char>) -> bool {
    !is_stale(hook, berger_cmd) && command_of(hook) != Some(berger_cmd)
}

/// The hooks that are none of berger's, in order.
pub open spec fn foreign_hooks(hooks: Seq<JsonView>, berger_cmd: Seq<char>) -> Seq<JsonView> {
    hooks.filter(|hook: JsonView| is_foreign(hook, berger_cmd))
}

/// What of an entry is not berger's: the entry with no hooks but the foreign ones, unless
/// all the hooks it has are berger's.
pub open spec fn foreign_part(entry: JsonView, berger_cmd: Seq<char>) -> Option<JsonView> {
    match hooks_of(entry) {
        Some(hooks) => if hooks.len() > 0 && foreign_hooks(hooks, berger_cmd).len() == 0 {
            None
        } else {
            Some(with_hooks(entry, foreign_hooks(hooks, berger_cmd)))
        },
        None => Some(entry),
    }
}

/// What of the entries is not berger's, in order.
pub open spec fn foreign_parts(entries: Seq<JsonView>, berger_cmd: Seq<char>) -> Seq<JsonView> {
    entries.filter_map(|entry: JsonView| foreign_part(entry, berger_cmd))
}

/// What keeping entries does: all that is left is settled, this very command is run as
/// often as it was, and settled entries stay as they are.
proof fn lemma_kept_entries(entries: Seq<JsonView>, berger_cmd: Seq<char>)
    ensures
        forall|i: int|
            0 <= i < kept_entries(entries, berger_cmd).len() ==> is_settled(
                #[trigger] kept_entries(entries, berger_cmd)[i],
                berger_cmd,
            ),
        command_count(kept_entries(entries, berger_cmd), berger_cmd) == command_count(
            entries,
            berger_cmd,
        ),
        (forall|i: int| 0 <= i < entries.len() ==> is_settled(#[trigger] entries[i], berger_cmd))
            ==> kept_entries(entries, berger_cmd) == entries,
    decreases entries.len(),
{
    if entries.len() > 0 {
        let fewer = entries.drop_last();
        let last = entries.last();
        let kept_fewer = kept_entries(fewer, berger_cmd);
        let kept = kept_entries(entries, berger_cmd);
        lemma_kept_entries(fewer, berger_cmd);
        lemma_cleaned_is_settled(last, berger_cmd);
        lemma_kept_last(entries, berger_cmd);
        assert(entries == fewer.push(last));
        if let Some(entry) = unless_emptied(last, without_stale(last, berger_cmd)) {
            assert(kept.drop_last() == kept_fewer);
        }
        if forall|i: int| 0 <= i < entries.len() ==> is_settled(#[trigger] entries[i], berger_cmd) {
            assert forall|i: int| 0 <= i < fewer.len() implies is_settled(
                #[trigger] fewer[i],
                berger_cmd,
            ) by {
                assert(fewer[i] == entries[i]);
            }
            assert(is_settled(entries[entries.len() - 1], berger_cmd));
            lemma_settled_is_kept(last, berger_cmd);
        }
    }
}

/// Keeping entries keeps what is left of the last one behind what is left of the others.
proof fn lemma_kept_last(entries: Seq<JsonView>, berger_cmd: Seq<char>)
    requires
        entries.len() > 0,
    ensures
        kept_entries(entries, berger_cmd) == match unless_emptied(
            entries.last(),
            without_stale(entries.last(), berger_cmd),
        ) {
            Some(entry) => kept_entries(entries.drop_last(), berger_cmd).push(entry),
            None => kept_entries(entries.drop_last(), berger_cmd),
        },
{
    let keep = |entry: JsonView| unless_emptied(entry, without_stale(entry, berger_cmd));
    entries.lemma_filter_map_take_succ(keep, entries.len() - 1);
    assert(entries.take(entries.len() as int) == entries);
    assert(entries.take(entries.len() - 1) == entries.drop_last());
}

/// What leaving repeats out does: this command is run once if it was run at all, settled
/// entries stay settled, and where nothing is repeated all stays as it is.
proof fn lemma_entries_once(entries: Seq<JsonView>, berger_cmd: Seq<char>)
    ensures
        command_count(entries_once(entries, berger_cmd), berger_cmd) == if command_count(
            entries,
            berger_cmd,
        ) == 0 {
            0nat
        } else {
            1nat
        },
        (forall|i: int| 0 <= i < entries.len() ==> is_settled(#[trigger] entries[i], berger_cmd))
            ==> forall|i: int|
            0 <= i < entries_once(entries, berger_cmd).len() ==> is_settled(
                #[trigger] entries_once(entries, berger_cmd)[i],
                berger_cmd,
            ),
        command_count(entries, berger_cmd) <= 1 ==> entries_once(entries, berger_cmd) == entries,
    decreases entries.len(),
{
    if entries.len() > 0 {
        let fewer = entries.drop_last();
        let last = entries.last();
        let seen = some_runs(fewer, berger_cmd);
        let earlier = entries_once(fewer, berger_cmd);
        let once = entries_once(entries, berger_cmd);
        lemma_entries_once(fewer, berger_cmd);
        lemma_entries_counted(fewer, berger_cmd);
        lemma_entry_once(last, berger_cmd, seen);
        assert(entries == fewer.push(last));
        let left = entry_once(last, berger_cmd, seen);
        if let Some(entry) = unless_emptied(last, left) {
            assert(once.drop_last() == earlier);
        } else {
            assert(entry_count(left, berger_cmd) == 0);
        }
        if forall|i: int| 0 <= i < entries.len() ==> is_settled(#[trigger] entries[i], berger_cmd) {
            assert forall|i: int| 0 <= i < fewer.len() implies is_settled(
                #[trigger] fewer[i],
                berger_cmd,
            ) by {
                assert(fewer[i] == entries[i]);
            }
            assert(is_settled(entries[entries.len() - 1], berger_cmd));
            assert forall|i: int| 0 <= i < once.len() implies is_settled(
                #[trigger] once[i],
                berger_cmd,
            ) by {
                if i < earlier.len() {
                    assert(once[i] == earlier[i]);
                }
            }
        }
    }
}

/// The entry that berger adds is settled and runs its command once.
proof fn lemma_berger_entry(berger_cmd: Seq<char>)
    ensures
        is_settled(berger_entry(berger_cmd), berger_cmd),
        entry_count(berger_entry(berger_cmd), berger_cmd) == 1,
{
    let entry = berger_entry(berger_cmd);
    let hooks = hooks_of(entry)->0;
    assert(hooks.len() == 1);
    assert(command_of(hooks[0]) == Some(berger_cmd));
    assert(hooks.drop_last() == Seq::<JsonView>::empty());
    assert(hooks_count(hooks.drop_last(), berger_cmd) == 0);
}

/// What merging does to the entries of one event: all that is left is settled, this very
/// command is run exactly once, and a second merge changes nothing.
proof fn lemma_merged_entries(entries: Seq<JsonView>, berger_cmd: Seq<char>)
    ensures
        forall|i: int|
            0 <= i < merged_entries(entries, berger_cmd).len() ==> is_settled(
                #[trigger] merged_entries(entries, berger_cmd)[i],
                berger_cmd,
            ),
        command_count(merged_entries(entries, berger_cmd), berger_cmd) == 1,
        merged_entries(merged_entries(entries, berger_cmd), berger_cmd) == merged_entries(
            entries,
            berger_cmd,
        ),
{
    let kept = kept_entries(entries, berger_cmd);
    let once = entries_once(kept, berger_cmd);
    let after = merged_entries(entries, berger_cmd);
    lemma_kept_entries(entries, berger_cmd);
    lemma_entries_once(kept, berger_cmd);
    lemma_entries_counted(kept, berger_cmd);
    lemma_berger_entry(berger_cmd);
    if !some_runs(kept, berger_cmd) {
        assert(after.drop_last() == once);
    }
    assert forall|i: int| 0 <= i < after.len() implies is_settled(
        #[trigger] after[i],
        berger_cmd,
    ) by {
        if i < once.len() {
            assert(after[i] == once[i]);
        }
    }
    lemma_kept_entries(after, berger_cmd);
    lemma_entries_once(after, berger_cmd);
    lemma_entries_counted(after, berger_cmd);
}

/// Merging keeps the entries that it does not affect.
proof fn lemma_unaffected_entries(entries: Seq<JsonView>, berger_cmd: Seq<char>)
    ensures
        forall|i: int|
            0 <= i < entries.len() && #[trigger] is_unaffected(entries, i, berger_cmd)
                ==> entries_once(kept_entries(entries, berger_cmd), berger_cmd).contains(
                entries[i],
            ),
    decreases entries.len(),
{
    if entries.len() > 0 {
        let fewer = entries.drop_last();
        let last = entries.last();
        let kept_fewer = kept_entries(fewer, berger_cmd);
        let kept = kept_entries(entries, berger_cmd);
        let earlier = entries_once(kept_fewer, berger_cmd);
        let after = entries_once(kept, berger_cmd);
        let cleaned = without_stale(last, berger_cmd);
        let seen = some_runs(kept_fewer, berger_cmd);
        lemma_unaffected_entries(fewer, berger_cmd);
        lemma_kept_last(entries, berger_cmd);
        lemma_kept_entries(fewer, berger_cmd);
        lemma_entries_counted(kept_fewer, berger_cmd);
        lemma_entry_once(cleaned, berger_cmd, seen);
        assert(entries == fewer.push(last));
        if unless_emptied(last, cleaned) is Some {
            assert(kept.drop_last() == kept_fewer);
            assert(kept.last() == cleaned);
        }
        assert(earlier.is_prefix_of(after));
        assert forall|i: int|
            0 <= i < entries.len() && #[trigger] is_unaffected(
                entries,
                i,
                berger_cmd,
            ) implies after.contains(entries[i]) by {
            if i < fewer.len() {
                assert(entries.take(i + 1) == fewer.take(i + 1));
                assert(is_unaffected(fewer, i, berger_cmd));
                let at = choose|at: int| 0 <= at < earlier.len() && earlier[at] == fewer[i];
                assert(after[at] == entries[i]);
            } else {
                assert(entries.take(i + 1) == entries);
                lemma_settled_is_kept(last, berger_cmd);
                assert(entry_once(cleaned, berger_cmd, seen) == last);
                assert(after[after.len() - 1] == last);
            }
        }
    }
}

/// Foreign hooks are neither stale nor repeats, so neither step drops one.
proof fn lemma_foreign_hooks(hooks: Seq<JsonView>, berger_cmd: Seq<char>, seen: bool)
    ensures
        foreign_hooks(fresh(hooks, berger_cmd), berger_cmd) == foreign_hooks(hooks, berger_cmd),
        foreign_hooks(hooks_once(hooks, berger_cmd, seen), berger_cmd) == foreign_hooks(
            hooks,
            berger_cmd,
        ),
    decreases hooks.len(),
{
    reveal(Seq::filter);
    if hooks.len() > 0 {
        let fewer = hooks.drop_last();
        let last = hooks.last();
        let fresh_fewer = fresh(fewer, berger_cmd);
        let once_fewer = hooks_once(fewer, berger_cmd, seen);
        lemma_foreign_hooks(fewer, berger_cmd, seen);
        assert(fresh_fewer.push(last).drop_last() == fresh_fewer);
        assert(once_fewer.push(last).drop_last() == once_fewer);
    }
}

/// An entry that keeps its foreign hooks keeps what of it is not berger's.
proof fn lemma_foreign_part(entry: JsonView, left: Seq<JsonView>, berger_cmd: Seq<char>)
    requires
        hooks_of(entry) is Some,
        hooks_of(entry)->0.len() == 0 ==> left.len() == 0,
        foreign_hooks(left, berger_cmd) == foreign_hooks(hooks_of(entry)->0, berger_cmd),
    ensures
        match unless_emptied(entry, with_hooks(entry, left)) {
            Some(after) => foreign_part(after, berger_cmd) == foreign_part(entry, berger_cmd),
            None => foreign_part(entry, berger_cmd) is None,
        },
{
    reveal(Seq::filter);
    let after = with_hooks(entry, left);
    let foreign = foreign_hooks(left, berger_cmd);
    assert(with_hooks(after, foreign)->Object_0 =~= with_hooks(entry, foreign)->Object_0);
}

/// What of the last entry is not berger's stands behind what of the others is not.
proof fn lemma_foreign_last(entries: Seq<JsonView>, berger_cmd: Seq<char>)
    requires
        entries.len() > 0,
    ensures
        foreign_parts(entries, berger_cmd) == match foreign_part(entries.last(), berger_cmd) {
            Some(part) => foreign_parts(entries.drop_last(), berger_cmd).push(part),
            None => foreign_parts(entries.drop_last(), berger_cmd),
        },
{
    let part = |entry: JsonView| foreign_part(entry, berger_cmd);
    entries.lemma_filter_map_take_succ(part, entries.len() - 1);
    assert(entries.take(entries.len() as int) == entries);
    assert(entries.take(entries.len() - 1) == entries.drop_last());
}

/// Neither step of a merge changes what of the entries is not berger's.
proof fn lemma_foreign_parts(entries: Seq<JsonView>, berger_cmd: Seq<char>)
    ensures
        foreign_parts(kept_entries(entries, berger_cmd), berger_cmd) == foreign_parts(
            entries,
            berger_cmd,
        ),
        foreign_parts(entries_once(entries, berger_cmd), berger_cmd) == foreign_parts(
            entries,
            berger_cmd,
        ),
    decreases entries.len(),
{
    if entries.len() > 0 {
        let fewer = entries.drop_last();
        let last = entries.last();
        let seen = some_runs(fewer, berger_cmd);
        let kept = kept_entries(entries, berger_cmd);
        let once = entries_once(entries, berger_cmd);
        let cleaned = unless_emptied(last, without_stale(last, berger_cmd));
        let single = unless_emptied(last, entry_once(last, berger_cmd, seen));
        lemma_foreign_parts(fewer, berger_cmd);
        lemma_foreign_last(entries, berger_cmd);
        lemma_kept_last(entries, berger_cmd);
        if let Some(hooks) = hooks_of(last) {
            lemma_foreign_hooks(hooks, berger_cmd, seen);
            reveal(Seq::filter);
            lemma_foreign_part(last, fresh(hooks, berger_cmd), berger_cmd);
            lemma_foreign_part(last, hooks_once(hooks, berger_cmd, seen), berger_cmd);
        }
        if cleaned is Some {
            assert(kept.drop_last() == kept_entries(fewer, berger_cmd));
            lemma_foreign_last(kept, berger_cmd);
        }
        if single is Some {
            assert(once.drop_last() == entries_once(fewer, berger_cmd));
            lemma_foreign_last(once, berger_cmd);
        }
    }
}

/// What a merge leaves of the entries of one event: those that it does not affect, and
/// all of them that is not berger's.
proof fn lemma_merged_leaves(entries: Seq<JsonView>, berger_cmd: Seq<char>)
    ensures
        forall|i: int|
            0 <= i < entries.len() && #[trigger] is_unaffected(entries, i, berger_cmd)
                ==> merged_entries(entries, berger_cmd).contains(entries[i]),
        foreign_parts(merged_entries(entries, berger_cmd), berger_cmd) == foreign_parts(
            entries,
            berger_cmd,
        ),
{
    let kept = kept_entries(entries, berger_cmd);
    let once = entries_once(kept, berger_cmd);
    let after = merged_entries(entries, berger_cmd);
    lemma_unaffected_entries(entries, berger_cmd);
    assert forall|i: int|
        0 <= i < entries.len() && #[trigger] is_unaffected(entries, i, berger_cmd) implies
        after.contains(entries[i]) by {
        let at = choose|at: int| 0 <= at < once.len() && once[at] == entries[i];
        assert(after[at] == entries[i]);
    }
    lemma_foreign_parts(entries, berger_cmd);
    lemma_foreign_parts(kept, berger_cmd);
    if !some_runs(kept, berger_cmd) {
        let added = berger_entry(berger_cmd);
        let hooks = hooks_of(added)->0;
        assert(after.drop_last() == once);
        lemma_foreign_last(after, berger_cmd);
        assert(hooks.len() == 1);
        assert(command_of(hooks[0]) == Some(berger_cmd));
        assert(foreign_part(added, berger_cmd) is None) by {
            reveal(Seq::filter);
            assert(hooks.drop_last() == Seq::<JsonView>::empty());
            assert(foreign_hooks(hooks.drop_last(), berger_cmd).len() == 0);
        }
    }
}

/// The events have different names.
proof fn lemma_event_names_distinct()
    ensures
        hook_event_names().no_duplicates(),
{
    reveal_strlit("SessionStart");
    reveal_strlit("UserPromptSubmit");
    reveal_strlit("PreToolUse");
    reveal_strlit("PermissionRequest");
    reveal_strlit("PostToolUseFailure");
    reveal_strlit("Stop");
    reveal_strlit("StopFailure");
    reveal_strlit("SessionEnd");
    let names = hook_event_names();
    assert(names[0].len() == 12);
    assert(names[1].len() == 16);
    assert(names[2].len() == 10);
    assert(names[3].len() == 17);
    assert(names[4].len() == 18);
    assert(names[5].len() == 4);
    assert(names[6].len() == 11);
    assert(names[7].len() == 10);
    assert(names[2][0] == 'P');
    assert(names[7][0] == 'S');
    assert forall|i: int, j: int| 0 <= i < names.len() && 0 <= j < names.len() && i != j implies
        names[i] != names[j] by {
        assert(names[i].len() != names[j].len() || names[i][0] != names[j][0]);
    }
}

/// Whether `event` was merged on the way from `hooks` to `after`.
spec fn was_merged(
    hooks: Map<Seq<char>, JsonView>,
    after: Map<Seq<char>, JsonView>,
    event: Seq<char>,
    berger_cmd: Seq<char>,
) -> bool {
    &&& entries_of(hooks, event) is Some
    &&& member_of(after, event) == Some(
        JsonView::Array(merged_entries(entries_of(hooks, event)->0, berger_cmd)),
    )
}

/// Merging events merges each of them, but for those it does not come to, and touches
/// nothing else.
proof fn lemma_events_merged(
    hooks: Map<Seq<char>, JsonView>,
    events: Seq<Seq<char>>,
    berger_cmd: Seq<char>,
)
    requires
        events.no_duplicates(),
    ensures
        ({
            let (after, bad_event) = with_events_merged(hooks, events, berger_cmd);
            &&& forall|n: int|
                0 <= n < events.len() ==> was_merged(hooks, after, #[trigger] events[n], berger_cmd)
                    || (bad_event is Some && member_of(after, events[n]) == member_of(
                    hooks,
                    events[n],
                ))
            &&& forall|other: Seq<char>|
                !events.contains(other) ==> #[trigger] member_of(after, other) == member_of(
                    hooks,
                    other,
                )
        }),
    decreases events.len(),
{
    if events.len() > 0 && entries_of(hooks, events[0]) is Some {
        let event = events[0];
        let next = with_event_merged(hooks, event, berger_cmd);
        let rest = events.drop_first();
        let (after, bad_event) = with_events_merged(hooks, events, berger_cmd);
        lemma_rest_distinct(events);
        lemma_events_merged(next, rest, berger_cmd);
        assert(was_merged(hooks, after, event, berger_cmd));
        assert forall|n: int| 0 <= n < events.len() implies was_merged(
            hooks,
            after,
            #[trigger] events[n],
            berger_cmd,
        ) || (bad_event is Some && member_of(after, events[n]) == member_of(hooks, events[n])) by {
            if n > 0 {
                assert(events[n] == rest[n - 1]);
                assert(events[n] != event);
                assert(member_of(next, events[n]) == member_of(hooks, events[n]));
            }
        }
        assert forall|other: Seq<char>| !events.contains(other) implies #[trigger] member_of(
            after,
            other,
        ) == member_of(hooks, other) by {
            assert(events.contains(event));
            if rest.contains(other) {
                let i = choose|i: int| 0 <= i < rest.len() && rest[i] == other;
                assert(events[i + 1] == other);
            }
            assert(member_of(next, other) == member_of(hooks, other));
        }
    }
}

/// Of different events the first is not among the rest, and those are different too.
proof fn lemma_rest_distinct(events: Seq<Seq<char>>)
    requires
        events.no_duplicates(),
        events.len() > 0,
    ensures
        events.drop_first().no_duplicates(),
        !events.drop_first().contains(events[0]),
{
    let rest = events.drop_first();
    assert forall|i: int, j: int| 0 <= i < rest.len() && 0 <= j < rest.len() && i != j implies
        rest[i] != rest[j] by {
        assert(rest[i] == events[i + 1]);
        assert(rest[j] == events[j + 1]);
    }
    if rest.contains(events[0]) {
        let i = choose|i: int| 0 <= i < rest.len() && rest[i] == events[0];
        assert(events[i + 1] == events[0]);
    }
}

/// Merging events a second time changes nothing, and stops where the first time did.
proof fn lemma_events_merged_again(
    hooks: Map<Seq<char>, JsonView>,
    events: Seq<Seq<char>>,
    berger_cmd: Seq<char>,
)
    requires
        events.no_duplicates(),
    ensures
        with_events_merged(
            with_events_merged(hooks, events, berger_cmd).0,
            events,
            berger_cmd,
        ) == with_events_merged(hooks, events, berger_cmd),
    decreases events.len(),
{
    if events.len() > 0 && entries_of(hooks, events[0]) is Some {
        let event = events[0];
        let next = with_event_merged(hooks, event, berger_cmd);
        let rest = events.drop_first();
        let after = with_events_merged(hooks, events, berger_cmd).0;
        let entries = merged_entries(entries_of(hooks, event)->0, berger_cmd);
        lemma_rest_distinct(events);
        lemma_events_merged(next, rest, berger_cmd);
        assert(member_of(after, event) == Some(JsonView::Array(entries)));
        lemma_merged_entries(entries_of(hooks, event)->0, berger_cmd);
        assert(with_event_merged(after, event, berger_cmd) == after);
        lemma_events_merged_again(next, rest, berger_cmd);
    }
}

/// The entries of every event after a merge are the merged entries from before it.
proof fn lemma_merged_settings(settings: JsonView, berger_cmd: Seq<char>)
    requires
        merged(settings, berger_cmd).1 is None,
    ensures
        hooks_object(settings) is Some,
        hooks_object(merged(settings, berger_cmd).0) == Some(
            with_events_merged(
                hooks_object(settings)->0,
                hook_event_names(),
                berger_cmd,
            ).0,
        ),
        with_events_merged(
            hooks_object(settings)->0,
            hook_event_names(),
            berger_cmd,
        ).1 is None,
        forall|event: Seq<char>|
            hook_event_names().contains(event) ==> #[trigger] event_entries(
                merged(settings, berger_cmd).0,
                event,
            ) == merged_entries(event_entries(settings, event), berger_cmd),
{
    let names = hook_event_names();
    let hooks = hooks_object(settings)->0;
    let (after_hooks, bad) = with_events_merged(hooks, names, berger_cmd);
    lemma_event_names_distinct();
    lemma_events_merged(hooks, names, berger_cmd);
    assert forall|event: Seq<char>| names.contains(event) implies #[trigger] event_entries(
        merged(settings, berger_cmd).0,
        event,
    ) == merged_entries(event_entries(settings, event), berger_cmd) by {
        let n = choose|n: int| 0 <= n < names.len() && names[n] == event;
        assert(was_merged(hooks, after_hooks, names[n], berger_cmd));
    }
}

/// Merging a second time changes nothing, and has the same outcome.
pub proof fn law_merge_is_idempotent(settings: JsonView, berger_cmd: Seq<char>)
    ensures
        merged(merged(settings, berger_cmd).0, berger_cmd) == merged(settings, berger_cmd),
{
    if settings is Object && hooks_object(settings) is Some {
        let names = hook_event_names();
        let hooks = hooks_object(settings)->0;
        let after_hooks = with_events_merged(hooks, names, berger_cmd).0;
        let after = merged(settings, berger_cmd).0;
        lemma_event_names_distinct();
        lemma_events_merged_again(hooks, names, berger_cmd);
        assert(hooks_object(after) == Some(after_hooks));
        assert(after->Object_0.insert("hooks"@, JsonView::Object(after_hooks))
            =~= after->Object_0);
    }
}

/// After a merge every event runs berger's command exactly once, whatever was there.
pub proof fn law_every_event_runs_berger(
    settings: JsonView,
    berger_cmd: Seq<char>,
    event: Seq<char>,
)
    requires
        merged(settings, berger_cmd).1 is None,
        hook_event_names().contains(event),
    ensures
        command_count(event_entries(merged(settings, berger_cmd).0, event), berger_cmd) == 1,
        some_runs(event_entries(merged(settings, berger_cmd).0, event), berger_cmd),
{
    lemma_merged_settings(settings, berger_cmd);
    let entries = event_entries(settings, event);
    lemma_merged_entries(entries, berger_cmd);
    lemma_entries_counted(merged_entries(entries, berger_cmd), berger_cmd);
}

/// After a merge no event runs another of berger's commands: a binary that has moved
/// replaces its old hook instead of adding to it.
pub proof fn law_moved_binary_replaces_its_hook(
    settings: JsonView,
    berger_cmd: Seq<char>,
    event: Seq<char>,
    old_cmd: Seq<char>,
)
    requires
        merged(settings, berger_cmd).1 is None,
        hook_event_names().contains(event),
        is_generated(old_cmd),
        old_cmd != berger_cmd,
    ensures
        !some_runs(event_entries(merged(settings, berger_cmd).0, event), old_cmd),
{
    lemma_merged_settings(settings, berger_cmd);
    let entries = event_entries(settings, event);
    let after = merged_entries(entries, berger_cmd);
    lemma_merged_entries(entries, berger_cmd);
    assert forall|i: int| 0 <= i < after.len() implies !runs(#[trigger] after[i], old_cmd) by {
        assert(is_settled(after[i], berger_cmd));
        if let Some(hooks) = hooks_of(after[i]) {
            assert forall|j: int| 0 <= j < hooks.len() implies #[trigger] command_of(
                hooks[j],
            ) != Some(old_cmd) by {
                assert(!is_stale(hooks[j], berger_cmd));
            }
        }
    }
}

/// A merge, even one that fails, leaves everything else alone: the other members of the
/// settings, the hooks of other events, and every entry that holds neither an old hook of
/// berger's nor one that repeats its command. Of the other entries it leaves all that is
/// not berger's: their foreign hooks in order, each in its entry, and the other members of
/// those entries.
pub proof fn law_unrelated_settings_survive(settings: JsonView, berger_cmd: Seq<char>)
    ensures
        forall|key: Seq<char>|
            key != "hooks"@ ==> #[trigger] merged(settings, berger_cmd).0.member(key)
                == settings.member(key),
        forall|event: Seq<char>|
            !hook_event_names().contains(event) ==> #[trigger] member_of(
                hooks_object(merged(settings, berger_cmd).0)->0,
                event,
            ) == member_of(hooks_object(settings)->0, event),
        forall|event: Seq<char>, i: int|
            hook_event_names().contains(event) && 0 <= i < event_entries(settings, event).len()
                && #[trigger] is_unaffected(event_entries(settings, event), i, berger_cmd)
                ==> event_entries(merged(settings, berger_cmd).0, event).contains(
                event_entries(settings, event)[i],
            ),
        forall|event: Seq<char>|
            hook_event_names().contains(event) ==> foreign_parts(
                #[trigger] event_entries(merged(settings, berger_cmd).0, event),
                berger_cmd,
            ) == foreign_parts(event_entries(settings, event), berger_cmd),
{
    if settings is Object && hooks_object(settings) is Some {
        let names = hook_event_names();
        let hooks = hooks_object(settings)->0;
        let after_hooks = with_events_merged(hooks, names, berger_cmd).0;
        let after = merged(settings, berger_cmd).0;
        lemma_event_names_distinct();
        lemma_events_merged(hooks, names, berger_cmd);
        assert(hooks_object(after) == Some(after_hooks));
        assert forall|event: Seq<char>, i: int|
            names.contains(event) && 0 <= i < event_entries(settings, event).len()
                && #[trigger] is_unaffected(
                event_entries(settings, event),
                i,
                berger_cmd,
            ) implies event_entries(after, event).contains(event_entries(settings, event)[i]) by {
            let n = choose|n: int| 0 <= n < names.len() && names[n] == event;
            if was_merged(hooks, after_hooks, names[n], berger_cmd) {
                lemma_merged_leaves(event_entries(settings, event), berger_cmd);
            }
        }
        assert forall|event: Seq<char>| names.contains(event) implies foreign_parts(
            #[trigger] event_entries(after, event),
            berger_cmd,
        ) == foreign_parts(event_entries(settings, event), berger_cmd) by {
            let n = choose|n: int| 0 <= n < names.len() && names[n] == event;
            if was_merged(hooks, after_hooks, names[n], berger_cmd) {
                lemma_merged_leaves(event_entries(settings, event), berger_cmd);
            }
        }
    }
}

/// Merging events succeeds exactly if the entries of each are a list.
proof fn lemma_events_fit(
    hooks: Map<Seq<char>, JsonView>,
    events: Seq<Seq<char>>,
    berger_cmd: Seq<char>,
)
    requires
        events.no_duplicates(),
    ensures
        with_events_merged(hooks, events, berger_cmd).1 is None <==> forall|n: int|
            0 <= n < events.len() ==> entries_of(hooks, #[trigger] events[n]) is Some,
    decreases events.len(),
{
    if events.len() > 0 && entries_of(hooks, events[0]) is Some {
        let event = events[0];
        let rest = events.drop_first();
        let next = with_event_merged(hooks, event, berger_cmd);
        lemma_rest_distinct(events);
        lemma_events_fit(next, rest, berger_cmd);
        assert forall|n: int| 0 <= n < rest.len() implies entries_of(next, #[trigger] rest[n])
            == entries_of(hooks, events[n + 1]) by {
            assert(rest[n] == events[n + 1]);
            assert(events[n + 1] != event);
            assert(member_of(next, rest[n]) == member_of(hooks, rest[n]));
        }
        if forall|n: int| 0 <= n < rest.len() ==> entries_of(next, #[trigger] rest[n]) is Some {
            assert forall|n: int| 0 <= n < events.len() implies entries_of(
                hooks,
                #[trigger] events[n],
            ) is Some by {
                if n > 0 {
                    assert(entries_of(next, rest[n - 1]) is Some);
                }
            }
        }
    } else if events.len() > 0 {
        assert(entries_of(hooks, events[0]) is None);
    }
}

/// Merging succeeds exactly on settings of the right shape: they are an object, their
/// hooks are one if there are any, and the hooks of each event are a list if there are
/// any. Where it is their root or their hooks that do not fit, they are left as they are.
pub proof fn law_merge_succeeds_on_the_right_shape(settings: JsonView, berger_cmd: Seq<char>)
    ensures
        merged(settings, berger_cmd).1 is None <==> settings is Object && hooks_object(
            settings,
        ) is Some && forall|n: int|
            0 <= n < hook_event_names().len() ==> entries_of(
                hooks_object(settings)->0,
                #[trigger] hook_event_names()[n],
            ) is Some,
        settings !is Object || hooks_object(settings) is None ==> merged(
            settings,
            berger_cmd,
        ).0 == settings,
{
    lemma_event_names_distinct();
    lemma_events_fit(hooks_object(settings)->0, hook_event_names(), berger_cmd);
}

/// Whether the settings run this command exactly once when this event comes.
pub open spec fn runs_once_on(settings: JsonView, command: Seq<char>, event: Seq<char>) -> bool {
    settings.member("hooks"@) matches Some(JsonView::Object(hooks)) && hooks.contains_key(event)
        && (hooks[event] matches JsonView::Array(entries) && command_count(entries, command) == 1)
}

/// Berger hears of every event that puts an agent in a state, and of the one that ends a
/// session, and of no other.
pub proof fn law_every_state_event_is_hooked(event: Seq<char>)
    ensures
        hook_event_names().contains(event) <==> event_state(event) is Some || event
            == "SessionEnd"@,
{
    let names = hook_event_names();
    law_events_of_each_state(event);
    assert(names[0] == "SessionStart"@ && names[1] == "UserPromptSubmit"@ && names[2]
        == "PreToolUse"@ && names[3] == "PermissionRequest"@ && names[4] == "PostToolUseFailure"@
        && names[5] == "Stop"@ && names[6] == "StopFailure"@ && names[7] == "SessionEnd"@);
}

/// After a successful merge the settings run berger's command exactly once on each of the
/// eight events that it is told of.
pub proof fn law_merge_hooks_every_event_by_name(settings: JsonView, berger_cmd: Seq<char>)
    requires
        merged(settings, berger_cmd).1 is None,
    ensures
        runs_once_on(merged(settings, berger_cmd).0, berger_cmd, "SessionStart"@),
        runs_once_on(merged(settings, berger_cmd).0, berger_cmd, "UserPromptSubmit"@),
        runs_once_on(merged(settings, berger_cmd).0, berger_cmd, "PreToolUse"@),
        runs_once_on(merged(settings, berger_cmd).0, berger_cmd, "PermissionRequest"@),
        runs_once_on(merged(settings, berger_cmd).0, berger_cmd, "PostToolUseFailure"@),
        runs_once_on(merged(settings, berger_cmd).0, berger_cmd, "Stop"@),
        runs_once_on(merged(settings, berger_cmd).0, berger_cmd, "StopFailure"@),
        runs_once_on(merged(settings, berger_cmd).0, berger_cmd, "SessionEnd"@),
        forall|event: Seq<char>|
            event_state(event) is Some ==> #[trigger] runs_once_on(
                merged(settings, berger_cmd).0,
                berger_cmd,
                event,
            ),
{
    let names = hook_event_names();
    let after = merged(settings, berger_cmd).0;
    assert forall|event: Seq<char>|
        event_state(event) is Some || event == "SessionEnd"@ implies #[trigger] runs_once_on(
        after,
        berger_cmd,
        event,
    ) by {
        law_every_state_event_is_hooked(event);
        let n = choose|n: int| 0 <= n < names.len() && names[n] == event;
        let hooks = hooks_object(settings)->0;
        lemma_merged_settings(settings, berger_cmd);
        lemma_event_names_distinct();
        lemma_events_merged(hooks, names, berger_cmd);
        assert(was_merged(hooks, hooks_object(after)->0, names[n], berger_cmd));
        lemma_merged_entries(entries_of(hooks, event)->0, berger_cmd);
    }
}

/// The command of a hook is the text under `command`, and the hooks of an entry are the list
/// under `hooks`; a hook is stale if its command is one of berger's but not this one.
pub proof fn law_shape_of_hooks(value: JsonView, text: Seq<char>, list: Seq<JsonView>)
    ensures
        command_of(value) == Some(text) <==> value is Object && value->Object_0.contains_key(
            "command"@,
        ) && value->Object_0["command"@] == JsonView::Text(text),
        hooks_of(value) == Some(list) <==> value is Object && value->Object_0.contains_key(
            "hooks"@,
        ) && value->Object_0["hooks"@] == JsonView::Array(list),
        command_of(value) is None ==> !is_stale(value, text),
        forall|command: Seq<char>|
            command_of(value) == Some(command) ==> (#[trigger] is_stale(value, text) <==> (
            command != text && is_generated(command))),
        hooks_of(value) == Some(list) ==> (has_hooks(value) <==> list.len() > 0),
        hooks_of(value) is None ==> !has_hooks(value),
{
}

/// A command is one of berger's only if it ends in ` event`. What stands before that is
/// read as a shell would if it is a single quoted word, and as it is if not; either way the
/// path that it names must end in `berger`.
pub proof fn law_generated_commands(rest: Seq<char>, command: Seq<char>, path: Seq<char>)
    ensures
        !" event"@.is_suffix_of(command) ==> !is_generated(command),
        is_generated(quoted(path) + " event"@) <==> file_name_of(encode_utf8(path)) == Some(
            encode_utf8("berger"@),
        ),
        (forall|p: Seq<char>| rest != #[trigger] quoted(p)) ==> (is_generated(rest + " event"@)
            <==> file_name_of(encode_utf8(rest)) == Some(encode_utf8("berger"@))),
{
    law_own_command_is_recognized(path);
    let whole = rest + " event"@;
    assert(whole.subrange(whole.len() - " event"@.len(), whole.len() as int) == " event"@);
    assert(whole.take(whole.len() - " event"@.len()) == rest);
    if forall|p: Seq<char>| rest != #[trigger] quoted(p) {
        if let Some(opened) = after_prefix(rest, seq!['\'']) {
            if let Some(body) = before_suffix(opened, seq!['\'']) {
                assert(rest != quoted(unquoted_body(body)));
            }
        }
        assert(command_path(rest) == rest);
    }
}

/// The command that is installed is a word that a shell reads as the binary's path, and the
/// word `event`.
pub proof fn law_installed_command_runs_the_binary(berger_bin: Seq<char>)
    ensures
        after_prefix(hook_command_for(berger_bin), quoted(berger_bin)) == Some(" event"@),
        shell_word(quoted(berger_bin), false) == Some(berger_bin),
{
    law_quoted_is_one_shell_word(berger_bin);
    law_affixes(hook_command_for(berger_bin), quoted(berger_bin), " event"@);
}

/// The entry that berger adds holds one command hook, which runs its command, and nothing
/// else.
pub proof fn law_added_entry(berger_cmd: Seq<char>, key: Seq<char>)
    ensures
        ({
            let entry = berger_entry(berger_cmd);
            &&& hooks_of(entry) matches Some(hooks)
            &&& hooks.len() == 1
            &&& hooks[0].member("type"@) == Some(JsonView::Text("command"@))
            &&& hooks[0].member("command"@) == Some(JsonView::Text(berger_cmd))
            &&& key != "type"@ && key != "command"@ ==> hooks[0].member(key) is None
            &&& key != "hooks"@ ==> entry.member(key) is None
        }),
{
    reveal_strlit("type");
    reveal_strlit("command");
    assert("type"@.len() != "command"@.len());
}

/// An event that did not run berger's command is given the entry that does behind all that
/// it keeps; an event that did keeps no entry more than it had.
pub proof fn law_entry_is_added_at_the_end(entries: Seq<JsonView>, berger_cmd: Seq<char>)
    ensures
        command_count(entries, berger_cmd) == 0 ==> merged_entries(entries, berger_cmd).len() > 0
            && merged_entries(entries, berger_cmd).last() == berger_entry(berger_cmd)
            && merged_entries(entries, berger_cmd).len() <= entries.len() + 1,
        command_count(entries, berger_cmd) > 0 ==> merged_entries(entries, berger_cmd).len()
            <= entries.len(),
{
    let kept = kept_entries(entries, berger_cmd);
    lemma_kept_entries(entries, berger_cmd);
    lemma_entries_counted(kept, berger_cmd);
    lemma_kept_len(entries, berger_cmd);
    lemma_once_len(kept, berger_cmd);
}

proof fn lemma_kept_len(entries: Seq<JsonView>, berger_cmd: Seq<char>)
    ensures
        kept_entries(entries, berger_cmd).len() <= entries.len(),
    decreases entries.len(),
{
    if entries.len() > 0 {
        lemma_kept_last(entries, berger_cmd);
        lemma_kept_len(entries.drop_last(), berger_cmd);
    } else {
        assert(kept_entries(entries, berger_cmd) == Seq::<JsonView>::empty());
    }
}

proof fn lemma_once_len(entries: Seq<JsonView>, berger_cmd: Seq<char>)
    ensures
        entries_once(entries, berger_cmd).len() <= entries.len(),
    decreases entries.len(),
{
    if entries.len() > 0 {
        lemma_once_len(entries.drop_last(), berger_cmd);
    }
}

/// Removing stale hooks keeps the others in their order and the other members of the entry.
pub proof fn law_only_stale_hooks_are_removed(
    entry: JsonView,
    hooks: Seq<JsonView>,
    hook: JsonView,
    berger_cmd: Seq<char>,
    key: Seq<char>,
)
    ensures
        fresh(hooks.push(hook), berger_cmd) == if is_stale(hook, berger_cmd) {
            fresh(hooks, berger_cmd)
        } else {
            fresh(hooks, berger_cmd).push(hook)
        },
        fresh(Seq::empty(), berger_cmd).len() == 0,
        hooks_of(entry) == Some(hooks) ==> hooks_of(without_stale(entry, berger_cmd)) == Some(
            fresh(hooks, berger_cmd),
        ),
        hooks_of(entry) is None ==> without_stale(entry, berger_cmd) == entry,
        key != "hooks"@ ==> without_stale(entry, berger_cmd).member(key) == entry.member(key),
{
    reveal(Seq::filter);
    assert(hooks.push(hook).drop_last() == hooks);
}

/// What is wrong with settings that cannot be merged: they are no object, or their hooks are
/// none, or the hooks of an event are no list. Then the first such event is named, and those
/// before it have been merged while it and those behind it are as they were.
pub proof fn law_refused_settings_are_told_why(settings: JsonView, berger_cmd: Seq<char>, n: int)
    ensures
        settings !is Object ==> merged(settings, berger_cmd) == (
            settings,
            Some("settings.json root must be an object"@),
        ),
        settings is Object && settings.member("hooks"@) is Some && settings.member("hooks"@)->0
            !is Object ==> merged(settings, berger_cmd) == (
            settings,
            Some("\"hooks\" must be an object"@),
        ),
        settings is Object && (settings.member("hooks"@) matches Some(JsonView::Object(hooks)) && 0
            <= n < hook_event_names().len() && hooks.contains_key(hook_event_names()[n])
            && hooks[hook_event_names()[n]] !is Array && (forall|m: int|
            0 <= m < n && hooks.contains_key(#[trigger] hook_event_names()[m])
                ==> hooks[hook_event_names()[m]] is Array)) ==> merged(settings, berger_cmd).1
            == Some("\"hooks."@ + hook_event_names()[n] + "\" must be an array"@),
{
    let names = hook_event_names();
    if settings is Object && 0 <= n < names.len() {
        if let Some(JsonView::Object(hooks)) = settings.member("hooks"@) {
            if hooks.contains_key(names[n]) && hooks[names[n]] !is Array && (forall|m: int|
                0 <= m < n && hooks.contains_key(#[trigger] names[m]) ==> hooks[names[m]]
                    is Array) {
                lemma_event_names_distinct();
                lemma_first_bad_event(hooks, names, berger_cmd, n);
            }
        }
    }
}

/// Merging stops at the first event whose entries are no list.
proof fn lemma_first_bad_event(
    hooks: Map<Seq<char>, JsonView>,
    events: Seq<Seq<char>>,
    berger_cmd: Seq<char>,
    n: int,
)
    requires
        events.no_duplicates(),
        0 <= n < events.len(),
        entries_of(hooks, events[n]) is None,
        forall|m: int| 0 <= m < n ==> entries_of(hooks, #[trigger] events[m]) is Some,
    ensures
        with_events_merged(hooks, events, berger_cmd).1 == Some(events[n]),
    decreases n,
{
    if n > 0 {
        let rest = events.drop_first();
        let next = with_event_merged(hooks, events[0], berger_cmd);
        lemma_rest_distinct(events);
        assert(rest[n - 1] == events[n]);
        assert(entries_of(next, rest[n - 1]) is None);
        assert forall|m: int| 0 <= m < n - 1 implies entries_of(next, #[trigger] rest[m])
            is Some by {
            assert(rest[m] == events[m + 1]);
            assert(events[m + 1] != events[0]);
        }
        lemma_first_bad_event(next, rest, berger_cmd, n - 1);
    }
}

/// An entry runs a command exactly if one of its hooks has it.
pub proof fn law_entry_runs_what_its_hooks_do(
    entry: JsonView,
    hooks: Seq<JsonView>,
    hook: JsonView,
    command: Seq<char>,
)
    requires
        entry is Object,
    ensures
        runs(with_hooks(entry, hooks.push(hook)), command) <==> runs(
            with_hooks(entry, hooks),
            command,
        ) || command_of(hook) == Some(command),
        !runs(with_hooks(entry, Seq::empty()), command),
        hooks_of(entry) is None ==> !runs(entry, command),
{
    let more = hooks.push(hook);
    assert(more.drop_last() == hooks);
    lemma_some_has_last(more, command);
    assert(hooks_of(with_hooks(entry, more)) == Some(more));
    assert(hooks_of(with_hooks(entry, hooks)) == Some(hooks));
}

/// What `is_generated_berger_command` returns for the command that `hook_command` made: it
/// is berger's exactly if the binary is called so, and nothing that does not end in
/// ` event` is.
pub proof fn law_made_command_is_recognized(
    berger_bin: &str,
    made: String,
    command: &str,
    generated: bool,
)
    requires
        call_ensures(hook_command, (berger_bin,), made),
        call_ensures(is_generated_berger_command, (command,), generated),
    ensures
        command@ == made@ ==> (generated <==> file_name_of(encode_utf8(berger_bin@)) == Some(
            encode_utf8("berger"@),
        )),
        generated ==> " event"@.is_suffix_of(command@),
        shell_word(made@.take(made@.len() - " event"@.len()), false) == Some(berger_bin@),
{
    law_own_command_is_recognized(berger_bin@);
    law_generated_commands(command@, command@, berger_bin@);
    law_quoted_is_one_shell_word(berger_bin@);
    assert(made@.take(made@.len() - " event"@.len()) == quoted(berger_bin@));
}

/// The events that `hook_events` lists are those that put an agent in a state and the one
/// that ends a session, each once.
pub proof fn law_listed_events(events: Vec<&'static str>, event: Seq<char>)
    requires
        call_ensures(hook_events, (), events),
    ensures
        events@.map_values(|event: &'static str| event@).contains(event) <==> event_state(
            event,
        ) is Some || event == "SessionEnd"@,
        events@.len() == 8,
        events@.map_values(|event: &'static str| event@).no_duplicates(),
        events@[0]@ == "SessionStart"@ && events@[1]@ == "UserPromptSubmit"@ && events@[2]@
            == "PreToolUse"@ && events@[3]@ == "PermissionRequest"@,
        events@[4]@ == "PostToolUseFailure"@ && events@[5]@ == "Stop"@ && events@[6]@
            == "StopFailure"@ && events@[7]@ == "SessionEnd"@,
{
    let names = events@.map_values(|event: &'static str| event@);
    law_every_state_event_is_hooked(event);
    lemma_event_names_distinct();
    assert(events@.len() == names.len());
    assert(names[0] == events@[0]@ && names[1] == events@[1]@ && names[2] == events@[2]@ && names[3]
        == events@[3]@ && names[4] == events@[4]@ && names[5] == events@[5]@ && names[6]
        == events@[6]@ && names[7] == events@[7]@);
}

} // verus!
