# workspace_validator

A declarative workspace validator: a versioned configuration names tools,
checks, suites and groups; the validator plans which checks a target needs,
runs them once each, and renders a report.

Layout:

- `src/` is the verified library. Its executable functions carry contracts
  that Verus proves, save the two that hand an event's subject to a user's
  progress reporter, whose callbacks promise nothing; the subject itself is
  computed under contract. It covers configuration validation and parameter
  expansion, the suite dependency graph and its topological order, planning,
  check and suite execution as explicit state machines with the lifecycle
  events they publish, why a run ends and the results a finished run
  holds, aggregation of outcomes, worktree fingerprints, repository
  snapshots and their comparison, the bounded tail of command output, and
  the human report as styled segments. Calls into `semver` and `sha2`, and the std functions
  that vstd leaves unspecified (collecting chars into a `String`, `Debug`
  quoting, lossy UTF-8 decoding), stand behind small trusted wrappers whose
  contracts name what they compute.
- `app/` is the command-line front end around it: argument parsing, reading
  configuration files and walking the worktree, spawning processes, turning
  styled segments into terminal escapes, formatting durations, progress bars,
  signals, and JSON/schema output through `serde`.
- `tests/` runs the library on concrete values.
