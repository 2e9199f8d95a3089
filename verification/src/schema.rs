//! The schema migration ladder, keyed on SQLite's `PRAGMA user_version`.
//! A database created before versioning reports 0. Each step brings the
//! schema one version up; a database runs every step above its version, in
//! order, and ends at the current version.
use vstd::prelude::*;

verus! {

/// The schema version this library works with.
pub const SCHEMA_VERSION: i64 = 5;

/// The steps a database at `version` still needs: every step above it, up
/// to `SCHEMA_VERSION`, in ascending order.
pub open spec fn pending_steps(version: i64) -> Seq<i64> {
    let first: int = if version < 0 { 1 } else { version + 1 };
    if first > SCHEMA_VERSION {
        Seq::empty()
    } else {
        Seq::new((SCHEMA_VERSION - first + 1) as nat, |i: int| (first + i) as i64)
    }
}

/// The version a database at `version` ends at once its pending steps ran.
pub open spec fn version_after_migration(version: i64) -> i64 {
    if version < SCHEMA_VERSION {
        SCHEMA_VERSION
    } else {
        version
    }
}

/// The steps a database at `version` still needs.
pub fn pending_migrations(version: i64) -> (steps: Vec<i64>)
    ensures
        steps@ == pending_steps(version),
{
    let mut steps: Vec<i64> = Vec::new();
    let mut k: i64 = 1;
    while k <= SCHEMA_VERSION
        invariant
            1 <= k <= SCHEMA_VERSION + 1,
            steps@ =~= pending_steps(version).take(
                if version < k { (k - if version < 0 { 1 } else { version + 1 }) as int } else { 0 },
            ),
        decreases SCHEMA_VERSION + 1 - k,
    {
        if version < k {
            steps.push(k);
        }
        k = k + 1;
    }
    steps
}

/// The statements of migration step `step`.
pub open spec fn migration_text(step: i64) -> Seq<char> {
    if step == 1 {
        STEP_1@
    } else if step == 2 {
        STEP_2@
    } else if step == 3 {
        STEP_3@
    } else if step == 4 {
        STEP_4@
    } else {
        STEP_5@
    }
}

/// Version 1: the entries table. `idx_entries_title` was never usable by any
/// query (search matches with a leading wildcard), so upgraded databases
/// drop it.
pub const STEP_1: &'static str = "CREATE TABLE IF NOT EXISTS entries (
    id INTEGER PRIMARY KEY AUTOINCREMENT,
    title TEXT NOT NULL,
    body TEXT NOT NULL,
    created_at INTEGER NOT NULL DEFAULT (strftime('%s', 'now')),
    updated_at INTEGER NOT NULL DEFAULT (strftime('%s', 'now'))
);
DROP INDEX IF EXISTS idx_entries_title;";

/// Version 2: key/value settings ("hotkey", "backup_dir" and the backup
/// bookkeeping).
pub const STEP_2: &'static str = "CREATE TABLE IF NOT EXISTS settings (
    key TEXT PRIMARY KEY,
    value TEXT NOT NULL
);";

/// Version 3: per-entry version history.
pub const STEP_3: &'static str = "CREATE TABLE IF NOT EXISTS entry_versions (
    id INTEGER PRIMARY KEY AUTOINCREMENT,
    entry_id INTEGER NOT NULL,
    title TEXT NOT NULL,
    body TEXT NOT NULL,
    saved_at INTEGER NOT NULL
);
CREATE INDEX IF NOT EXISTS idx_entry_versions_entry
    ON entry_versions(entry_id, id);";

/// Version 4: soft deletion.
pub const STEP_4: &'static str = "ALTER TABLE entries ADD COLUMN deleted_at INTEGER;";

/// Version 5: the paste log behind the recents view.
pub const STEP_5: &'static str = "CREATE TABLE IF NOT EXISTS paste_history (
    id INTEGER PRIMARY KEY AUTOINCREMENT,
    entry_id INTEGER,
    text TEXT NOT NULL,
    pasted_at INTEGER NOT NULL DEFAULT (strftime('%s','now'))
);";

/// The statements of migration step `step` (1 to `SCHEMA_VERSION`).
pub fn migration_sql(step: i64) -> (sql: &'static str)
    requires
        1 <= step <= SCHEMA_VERSION,
    ensures
        sql@ == migration_text(step),
{
    if step == 1 {
        STEP_1
    } else if step == 2 {
        STEP_2
    } else if step == 3 {
        STEP_3
    } else if step == 4 {
        STEP_4
    } else {
        STEP_5
    }
}

/// Running the pending steps of any database, each followed by stamping its
/// number as the new version, leaves it at `version_after_migration`, with
/// nothing pending any more: opening a database twice migrates it once.
pub proof fn lemma_migration_converges(version: i64)
    ensures
        pending_steps(version).len() > 0 ==> pending_steps(version).last() == SCHEMA_VERSION,
        pending_steps(version).len() > 0 ==> version_after_migration(version) == SCHEMA_VERSION,
        pending_steps(version).len() == 0 ==> version_after_migration(version) == version,
        forall|i: int, j: int|
            0 <= i < j < pending_steps(version).len() ==> pending_steps(version)[i] < pending_steps(version)[j],
        forall|i: int| 0 <= i < pending_steps(version).len() ==> version < #[trigger] pending_steps(version)[i],
        pending_steps(version_after_migration(version)).len() == 0,
{
}

} // verus!
