//! The command line.

use crate::text::{optional_text, same_text};
use vstd::prelude::*;

verus! {

/// What the command line asks for, or what is wrong with it.
#[derive(Debug, PartialEq, Eq)]
pub enum Command {
    Init,
    Event,
    Reset,
    Sync { session: String },
    NoCommand,
    UnknownCommand(String),
    UnknownSyncArgument(String),
    SyncWithoutSession,
}

/// A `Command` with its texts as sequences of characters.
pub enum CommandView {
    Init,
    Event,
    Reset,
    Sync { session: Seq<char> },
    NoCommand,
    UnknownCommand(Seq<char>),
    UnknownSyncArgument(Seq<char>),
    SyncWithoutSession,
}

impl View for Command {
    type V = CommandView;

    open spec fn view(&self) -> CommandView {
        match self {
            Command::Init => CommandView::Init,
            Command::Event => CommandView::Event,
            Command::Reset => CommandView::Reset,
            Command::Sync { session } => CommandView::Sync { session: session@ },
            Command::NoCommand => CommandView::NoCommand,
            Command::UnknownCommand(name) => CommandView::UnknownCommand(name@),
            Command::UnknownSyncArgument(arg) => CommandView::UnknownSyncArgument(arg@),
            Command::SyncWithoutSession => CommandView::SyncWithoutSession,
        }
    }
}

/// What the arguments of `sync` ask for, given the session that earlier ones named: the
/// last `--session` counts, and it takes the argument after it, if there is one.
pub open spec fn sync_command_of(
    args: Seq<Seq<char>>,
    session: Option<Seq<char>>,
) -> CommandView
    decreases args.len(),
{
    if args.len() == 0 {
        match session {
            Some(session) => CommandView::Sync { session },
            None => CommandView::SyncWithoutSession,
        }
    } else if args[0] != "--session"@ {
        CommandView::UnknownSyncArgument(args[0])
    } else if args.len() == 1 {
        CommandView::SyncWithoutSession
    } else {
        sync_command_of(args.skip(2), Some(args[1]))
    }
}

/// What the arguments ask for.
pub open spec fn command_of(args: Seq<Seq<char>>) -> CommandView {
    if args.len() == 0 {
        CommandView::NoCommand
    } else if args[0] == "init"@ {
        CommandView::Init
    } else if args[0] == "event"@ {
        CommandView::Event
    } else if args[0] == "reset"@ {
        CommandView::Reset
    } else if args[0] == "sync"@ {
        sync_command_of(args.skip(1), None)
    } else {
        CommandView::UnknownCommand(args[0])
    }
}

/// Reads the arguments of `sync`, which start at `from`.
fn parse_sync(args: &[String], from: usize) -> (command: Command)
    requires
        from <= args@.len(),
    ensures
        command@ == sync_command_of(args.deep_view().skip(from as int), None),
{
    let ghost all = args.deep_view();
    let mut session: Option<String> = None;
    let mut at: usize = from;
    while at < args.len()
        invariant
            at <= args@.len(),
            all == args.deep_view(),
            sync_command_of(all.skip(at as int), optional_text(session))
                == sync_command_of(all.skip(from as int), None),
        decreases args@.len() - at,
    {
        assert(all.skip(at as int)[0] == args@[at as int]@);
        if !same_text(args[at].as_str(), "--session") {
            return Command::UnknownSyncArgument(args[at].clone());
        }
        if args.len() - at == 1 {
            return Command::SyncWithoutSession;
        }
        assert(all.skip(at as int)[1] == args@[at + 1]@);
        assert(all.skip(at as int).skip(2) == all.skip(at + 2));
        session = Some(args[at + 1].clone());
        at = at + 2;
    }
    match session {
        Some(session) => Command::Sync { session },
        None => Command::SyncWithoutSession,
    }
}

/// Reads the arguments after the program's name.
pub fn parse_args(args: &[String]) -> (command: Command)
    ensures
        command@ == command_of(args.deep_view()),
{
    if args.len() == 0 {
        return Command::NoCommand;
    }
    assert(args.deep_view()[0] == args@[0]@);
    let name = args[0].as_str();
    if same_text(name, "init") {
        Command::Init
    } else if same_text(name, "event") {
        Command::Event
    } else if same_text(name, "reset") {
        Command::Reset
    } else if same_text(name, "sync") {
        parse_sync(args, 1)
    } else {
        Command::UnknownCommand(args[0].clone())
    }
}

/// The first argument alone names the command, and whatever follows `init`, `event` and
/// `reset` does not count; anything else but `sync` is unknown, and no argument is none.
pub proof fn law_first_argument_names_the_command(name: Seq<char>, rest: Seq<Seq<char>>)
    ensures
        command_of(seq!["init"@] + rest) == CommandView::Init,
        command_of(seq!["event"@] + rest) == CommandView::Event,
        command_of(seq!["reset"@] + rest) == CommandView::Reset,
        !seq!["init"@, "event"@, "reset"@, "sync"@].contains(name) ==> command_of(seq![name] + rest)
            == CommandView::UnknownCommand(name),
        command_of(Seq::empty()) == CommandView::NoCommand,
{
    reveal_strlit("init");
    reveal_strlit("event");
    reveal_strlit("reset");
    reveal_strlit("sync");
    assert("init"@[0] == 'i' && "event"@[0] == 'e' && "reset"@[0] == 'r' && "sync"@[0] == 's');
    let known = seq!["init"@, "event"@, "reset"@, "sync"@];
    assert(known[0] == "init"@ && known[1] == "event"@ && known[2] == "reset"@ && known[3]
        == "sync"@);
    assert((seq!["init"@] + rest)[0] == "init"@);
    assert((seq!["event"@] + rest)[0] == "event"@);
    assert((seq!["reset"@] + rest)[0] == "reset"@);
    assert((seq![name] + rest)[0] == name);
}

/// The arguments that name these sessions one after the other.
pub open spec fn session_args(sessions: Seq<Seq<char>>) -> Seq<Seq<char>>
    decreases sessions.len(),
{
    if sessions.len() == 0 {
        seq![]
    } else {
        seq!["--session"@, sessions[0]] + session_args(sessions.drop_first())
    }
}

/// Of the sessions that `sync` is given the last counts, whatever they are called; without
/// one, or with a `--session` that names none, it lacks a session; and the first argument
/// that is neither `--session` nor what it names is unknown, whatever follows.
pub proof fn law_sync_takes_the_last_session(
    sessions: Seq<Seq<char>>,
    other: Seq<char>,
    rest: Seq<Seq<char>>,
)
    requires
        other != "--session"@,
    ensures
        sessions.len() > 0 ==> command_of(seq!["sync"@] + session_args(sessions))
            == (CommandView::Sync { session: sessions.last() }),
        command_of(seq!["sync"@]) == CommandView::SyncWithoutSession,
        command_of(seq!["sync"@] + session_args(sessions) + seq!["--session"@])
            == CommandView::SyncWithoutSession,
        command_of(seq!["sync"@] + session_args(sessions) + seq![other] + rest)
            == CommandView::UnknownSyncArgument(other),
{
    reveal_strlit("init");
    reveal_strlit("event");
    reveal_strlit("reset");
    reveal_strlit("sync");
    assert("init"@[0] == 'i' && "event"@[0] == 'e' && "reset"@[0] == 'r' && "sync"@[0] == 's');
    let nothing = Seq::<Seq<char>>::empty();
    let named = seq!["sync"@] + session_args(sessions);
    let bare = named + seq!["--session"@];
    let odd = named + seq![other] + rest;
    lemma_sync_args(sessions, nothing, None);
    lemma_sync_args(sessions, seq!["--session"@], None);
    lemma_sync_args(sessions, seq![other] + rest, None);
    assert(named.skip(1) == session_args(sessions) + nothing);
    assert(bare.skip(1) == session_args(sessions) + seq!["--session"@]);
    assert(odd.skip(1) == session_args(sessions) + (seq![other] + rest));
    assert(seq!["sync"@].skip(1) == nothing);
    assert(named[0] == "sync"@ && bare[0] == "sync"@ && odd[0] == "sync"@);
    assert((seq![other] + rest)[0] == other);
}

/// Sessions are read off one after the other, up to what follows them.
proof fn lemma_sync_args(
    sessions: Seq<Seq<char>>,
    rest: Seq<Seq<char>>,
    before: Option<Seq<char>>,
)
    ensures
        sync_command_of(session_args(sessions) + rest, before) == sync_command_of(
            rest,
            if sessions.len() > 0 {
                Some(sessions.last())
            } else {
                before
            },
        ),
    decreases sessions.len(),
{
    let args = session_args(sessions) + rest;
    if sessions.len() == 0 {
        assert(args == rest);
    } else {
        let fewer = sessions.drop_first();
        lemma_sync_args(fewer, rest, Some(sessions[0]));
        assert(args[0] == "--session"@);
        assert(args[1] == sessions[0]);
        assert(args.skip(2) == session_args(fewer) + rest);
    }
}

/// What `parse_args` returns for `sync` with sessions is the last of them, and for a first
/// argument that is no command that it is unknown.
pub proof fn law_parsed_command(
    args: &[String],
    name: Seq<char>,
    sessions: Seq<Seq<char>>,
    rest: Seq<Seq<char>>,
    command: Command,
)
    requires
        call_ensures(parse_args, (args,), command),
        sessions.len() > 0,
    ensures
        args.deep_view() == seq!["init"@] + rest ==> command@ == CommandView::Init,
        args.deep_view() == seq!["event"@] + rest ==> command@ == CommandView::Event,
        args.deep_view() == seq!["reset"@] + rest ==> command@ == CommandView::Reset,
        args.deep_view() == seq!["sync"@] + session_args(sessions) ==> command@ == (
        CommandView::Sync { session: sessions.last() }),
        args.deep_view() == seq![name] + rest && !seq!["init"@, "event"@, "reset"@, "sync"@].contains(
            name,
        ) ==> command@ == CommandView::UnknownCommand(name),
        args@.len() == 0 ==> command@ == CommandView::NoCommand,
{
    reveal_strlit("--session");
    reveal_strlit("sync");
    assert("--session"@.len() != "sync"@.len());
    law_first_argument_names_the_command(name, rest);
    law_sync_takes_the_last_session(sessions, "sync"@, rest);
    if args@.len() == 0 {
        assert(args.deep_view() == Seq::<Seq<char>>::empty());
    }
}

} // verus!
