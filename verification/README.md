# sqlmig

Validates a set of SQL migration files (`VERSION_NAME.up.sql` /
`VERSION_NAME.down.sql`) and plans which of them to apply or roll back,
without touching a database. The library is written in Verus and every
function in `src/` carries a contract that Verus proves.

Layout:

- `src/text.rs`: character-level helpers (digit and name checks, decimal
  values, search, number formatting).
- `src/migration.rs`: `parse_filename`, `checksum` (FNV-1a), `Migration`.
- `src/registry.rs`: `Registry::build` and `Registry::get`, with the laws
  about building (order independence, the exact failure conditions).
- `src/plan.rs`: `plan_apply`, `plan_rollback`, `check_drift`, and laws about
  plans.
- `src/files.rs`: choosing `.sql` files of a directory listing and ordering
  them by name.
- `app/lib.rs`: reading a directory from disk (`load_dir`) and
  `std::error::Error` adapters for the library's errors.
- `tests/`: executable tests.
