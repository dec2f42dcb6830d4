# bergr

Agent status for tmux windows. A coding agent's hooks call `bergr event`, which records
what the agent is doing and shows it as a symbol behind the window's name: `!` while it
waits for approval, `✓` when it is done, `✗` after an error, nothing while it works.
`bergr sync --session <name>` brings the windows of a session in line with what is
recorded, `bergr init` installs the hooks and the key binding, and `bergr reset` forgets
everything.

- `src/` is the library: naming, state files, matching windows to records, planning
  renames, merging hooks into settings. It is verified with Verus, and the `law_`
  functions state what holds of it as a whole. What it calls outside itself is trusted:
  `serde_json`, which reads and writes the settings, and three functions on `String`, each
  behind an item whose comment says what is claimed of it.
- `app/` is the program: it runs tmux, and reads and writes files.
- `tests/` runs the library on concrete values.

The program reads `BERGR_HARNESS`, the name of the harness that runs the agents. It is
recorded with each state, and `bergr init` merges its hooks into
`~/.<harness>/settings.json`. `BERGR_AGENT` overrides the agent's name.
