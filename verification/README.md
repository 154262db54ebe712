# oby

A live, per-agent activity feed for a coding agent's CLI: a PreToolUse hook
rewrites each Bash command so that the bytes it would discard
(`2>/dev/null`, the input of `| grep`, `| head`, `| tail`, what `> FILE`
and `>> FILE` write), its stdout/stderr and its shell trace are teed to
`oby-tee`, which streams them into a per-agent
socket; the wrapper keeps per-agent ring buffers of feed entries and
toggles between the agent's screen and the feed.

## Layout

- `src/` — the verified library (Verus). Every function carries a
  `requires`/`ensures` contract proved by Verus:
  - `scanner`, `rewrite`, `shell`, `pre_filter` — the shell-command scanner
    (code spans, pipeline stages, file redirects) and the rewrite built on it;
  - `capturers`, `registry`, `hook`, `entry`, `wire`, `env_gate`,
    `composer`, `install`, `tee` — rendering hook payloads into feed entries,
    the wire types, and the decisions of the hook and the installer;
  - `ring`, `tui`, `key`, `metrics`, `probe` — the wrapper's per-agent ring
    buffers, feed navigation, key handling and status-bar text;
  - `text`, `clock` — UTF-8 and decimal helpers, and the clock readers.
  Public `law_*` proof functions state the properties that hold across
  calls (for instance that a pushed entry is found again, that rings never
  exceed their capacity, that a command with nothing to recover is only
  wrapped).
- `tests/` — tests of the library on concrete values.
- `app/` — the executables around the library (sockets, pty, terminal,
  JSON, process spawning). One binary serves as `oby`, `oby-hook` and
  `oby-tee`, chosen by the name it is invoked under.
