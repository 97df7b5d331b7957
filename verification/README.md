# epicode

The decision logic of the Epicode memory service and of its host guard,
written in Verus with contracts proved by the verifier.

- `src/` — the verified library:
  - `security` — API-key authentication, per-client rate limiting, input
    validation, tenant quotas and the audit log;
  - `accounts` — users, plans, shared quotas, invite codes, sub-accounts,
    password hashing and engine slots;
  - `skills` — the skill catalogue with its review workflow;
  - `search` — tokenising, content hashing and the keyword filters;
  - `cache` — cache keys for queries and search filters;
  - `records` — archive rows, load reports and backup pruning;
  - `archive` — the plans that move archive membership from memory labels
    into the archive table and group loose documents under projects;
  - `guard`, `logscan`, `alerts` — the intrusion guard: scores, bans, log
    and listing parsers, and the notes it sends;
  - `strs`, `hashing`, `text` — string, FNV and HTML helpers.
- `tests/` — the test suite, run against the compiled library.
- `app/` — the guard daemon and the I/O around the library (environment,
  files, commands, JSON storage) and the floating-point checks.
