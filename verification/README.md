# Sirius Forester

A local-first foreman for AI coding agents: it claims issues from Ametrite
(`amt`), locks the code entities they touch in Hayvenhurst (`hayven`), runs
the agent, gates every completion on the affected tests, and files a two-way
receipt linking the change to the decision behind it. Its only write target is
its own ledger, `.sirius/sirius.db`.

## Layout

- `src/` — the library, verified with Verus. Every external command goes
  through a `Runner`, whose ghost call log the contracts speak of:
  - `shell` — `Runner`, the `MockRunner`, and the `ProcessRunner`, which keeps
    the log and supervises agents (heartbeat rounds, the kill at the timeout)
    over a `Process` the binary supplies.
  - `amt`, `hayven` — the two parent CLIs: argv built, output parsed.
  - `gate` — test selection, the plan under doubt, running the suite, and the
    verdict; fail-closed without a test command.
  - `bridge` — `link` (forward comment, reverse notes with retries, receipt)
    and `why`.
  - `run` — one iteration of the loop: claim, map, lock, brief, work and gate
    (retried within the budget), receipt, release; events and ledger rows.
  - `commands` — the decisions of the CLI: exit codes, worker names, fleet
    size, and the per-worker state machine between iterations.
  - `ledger`, `config`, `spine`, `workspace`, `doctor`, `gitrange`, `json`,
    `text` — rows and their invariant, policy defaults and backoff, event-line
    framing and ids, workspace discovery, health checks, git ranges, JSON
    values, and text helpers.
- `app/` — the `sirius` binary: argument parsing, SQLite storage of the
  ledger, real processes and git worktrees, the config file, the event spine
  files, and the worker threads.
- `tests/` — tests of the library through its public API, offline.
