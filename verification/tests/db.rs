use rusqlite::Connection;
use marie_lookup::schema::{migration_sql, pending_migrations, SCHEMA_VERSION};
use marie_lookup::store::{
    add_entry, delete_entry, list_entries, list_trash, list_versions, recent_topics,
    record_paste, restore_entry, restore_from_backup, search_entries, sweep_trash, update_entry,
    BackupSource, EntryRow, PasteRow, Store, VersionRow,
};

const NOW: i64 = 1_700_000_000;
const DAY: i64 = 86400;

fn fresh() -> Store {
    Store::new()
}

fn row(id: i64, title: &str, body: &str, deleted_at: Option<i64>) -> EntryRow {
    EntryRow {
        id,
        title: title.to_string(),
        body: body.to_string(),
        created_at: 1000,
        updated_at: 1000,
        deleted_at,
    }
}

fn ids(es: &[marie_lookup::store::Entry]) -> Vec<i64> {
    es.iter().map(|e| e.id).collect()
}

/// Runs the pending migration steps on `conn`, stamping each step's number.
fn migrate(conn: &Connection) {
    let v = user_version(conn);
    for step in pending_migrations(v) {
        conn.execute_batch(migration_sql(step)).unwrap();
        conn.pragma_update(None, "user_version", step).unwrap();
    }
}

fn user_version(conn: &Connection) -> i64 {
    conn.query_row("PRAGMA user_version", [], |r| r.get(0)).unwrap()
}

fn table_exists(conn: &Connection, name: &str) -> bool {
    conn.query_row(
        "SELECT count(*) FROM sqlite_master WHERE type='table' AND name=?1",
        [name],
        |r| r.get::<_, i64>(0),
    )
    .unwrap()
        > 0
}

fn column_exists(conn: &Connection, table: &str, col: &str) -> bool {
    conn.prepare(&format!("PRAGMA table_info({table})"))
        .unwrap()
        .query_map([], |r| r.get::<_, String>(1))
        .unwrap()
        .filter_map(Result::ok)
        .any(|c| c == col)
}

/// The entries of a migrated database, as the store holds them.
fn load_entries(conn: &Connection) -> Store {
    let rows: Vec<EntryRow> = conn
        .prepare("SELECT id, title, body, created_at, updated_at, deleted_at FROM entries ORDER BY id")
        .unwrap()
        .query_map([], |r| {
            Ok(EntryRow {
                id: r.get(0)?,
                title: r.get(1)?,
                body: r.get(2)?,
                created_at: r.get(3)?,
                updated_at: r.get(4)?,
                deleted_at: r.get(5)?,
            })
        })
        .unwrap()
        .filter_map(Result::ok)
        .collect();
    Store::load(rows, vec![], vec![], vec![], 0, 0, 0).unwrap_or_else(|e| panic!("{}", e.message()))
}

// ---- migration ladder --------------------------------------------------------

#[test]
fn fresh_db_is_current_version_with_all_tables() {
    let conn = Connection::open_in_memory().unwrap();
    migrate(&conn);
    assert_eq!(user_version(&conn), 5, "fresh DB must be at the current schema version");
    assert_eq!(SCHEMA_VERSION, 5);
    for t in ["entries", "settings", "entry_versions", "paste_history"] {
        assert!(table_exists(&conn, t), "missing table {t}");
    }
    assert!(column_exists(&conn, "entries", "deleted_at"));
    // Opening it again migrates nothing.
    assert!(pending_migrations(user_version(&conn)).is_empty());
}

#[test]
fn migrates_pre_versioning_db_to_current_preserving_data() {
    let conn = Connection::open_in_memory().unwrap();
    conn.execute_batch(
        "CREATE TABLE entries (
            id INTEGER PRIMARY KEY AUTOINCREMENT,
            title TEXT NOT NULL,
            body TEXT NOT NULL,
            created_at INTEGER NOT NULL DEFAULT (strftime('%s','now')),
            updated_at INTEGER NOT NULL DEFAULT (strftime('%s','now'))
        );
        INSERT INTO entries (title, body) VALUES ('legacy', 'kept');",
    )
    .unwrap();
    // user_version stays 0: a DB created before versioning.
    migrate(&conn);
    assert_eq!(user_version(&conn), 5);
    for t in ["settings", "entry_versions", "paste_history"] {
        assert!(table_exists(&conn, t), "migration should have created {t}");
    }
    assert!(column_exists(&conn, "entries", "deleted_at"));
    let (title, body): (String, String) = conn
        .query_row("SELECT title, body FROM entries WHERE id=1", [], |r| Ok((r.get(0)?, r.get(1)?)))
        .unwrap();
    assert_eq!((title.as_str(), body.as_str()), ("legacy", "kept"));
    let live = list_entries(&load_entries(&conn));
    assert_eq!(live.len(), 1);
    assert_eq!(live[0].title, "legacy");
}

#[test]
fn migrates_v3_db_adding_deleted_at_and_paste_history() {
    let conn = Connection::open_in_memory().unwrap();
    conn.execute_batch(
        "CREATE TABLE entries (id INTEGER PRIMARY KEY AUTOINCREMENT,
            title TEXT NOT NULL, body TEXT NOT NULL,
            created_at INTEGER NOT NULL, updated_at INTEGER NOT NULL);
         CREATE TABLE settings (key TEXT PRIMARY KEY, value TEXT NOT NULL);
         CREATE TABLE entry_versions (id INTEGER PRIMARY KEY AUTOINCREMENT,
            entry_id INTEGER NOT NULL, title TEXT NOT NULL,
            body TEXT NOT NULL, saved_at INTEGER NOT NULL);
         INSERT INTO entries (title, body, created_at, updated_at)
            VALUES ('v3', 'survives', 1000, 1000);
         PRAGMA user_version = 3;",
    )
    .unwrap();
    assert_eq!(pending_migrations(3), vec![4, 5]);
    migrate(&conn);
    assert_eq!(user_version(&conn), 5);
    assert!(column_exists(&conn, "entries", "deleted_at"));
    assert!(table_exists(&conn, "paste_history"));
    let deleted_at: Option<i64> = conn
        .query_row("SELECT deleted_at FROM entries WHERE id=1", [], |r| r.get(0))
        .unwrap();
    assert_eq!(deleted_at, None);
    assert_eq!(ids(&list_entries(&load_entries(&conn))), vec![1]);
}

#[test]
fn sweep_purges_trash_older_than_90_days() {
    let mut store = Store::load(
        vec![
            row(1, "old", "x", Some(NOW - 91 * DAY)),
            row(2, "recent", "y", Some(NOW - 89 * DAY)),
            row(3, "live", "z", None),
        ],
        vec![VersionRow { id: 1, entry_id: 1, title: "old".into(), body: "x".into(), saved_at: 1000 }],
        vec![],
        vec![],
        3,
        1,
        0,
    )
    .unwrap_or_else(|e| panic!("{}", e.message()));
    sweep_trash(&mut store, NOW);
    let surviving: Vec<i64> = store.entry_rows().iter().map(|r| r.id).collect();
    assert_eq!(surviving, vec![2, 3], "only the 91d-old trash should be purged");
    let orphan_versions = store.version_rows().iter().filter(|v| v.entry_id == 1).count();
    assert_eq!(orphan_versions, 0, "purged entry's history must be gone too");
}

// ---- soft-delete invariant -----------------------------------------------------

#[test]
fn soft_delete_excludes_from_list_search_and_recents_but_shows_in_trash() {
    let mut store = fresh();
    let keep = add_entry(&mut store, "keep", "alpha", NOW).unwrap_or_else(|e| panic!("{}", e.message()));
    let gone = add_entry(&mut store, "gone", "alpha", NOW).unwrap_or_else(|e| panic!("{}", e.message()));
    record_paste(&mut store, Some(keep), "alpha", NOW).unwrap_or_else(|e| panic!("{}", e.message()));
    record_paste(&mut store, Some(gone), "alpha", NOW).unwrap_or_else(|e| panic!("{}", e.message()));
    delete_entry(&mut store, gone, NOW);

    assert_eq!(ids(&list_entries(&store)), vec![keep], "trashed entry must not be in the live list");
    assert_eq!(ids(&search_entries(&store, "alpha").unwrap_or_else(|e| panic!("{}", e.message()))), vec![keep], "trashed entry must not be searchable");
    assert_eq!(ids(&recent_topics(&store)), vec![keep], "trashed entry must not appear in recents");
    let trash: Vec<i64> = list_trash(&store).iter().map(|e| e.id).collect();
    assert_eq!(trash, vec![gone], "trashed entry must show in the trash view");

    restore_entry(&mut store, gone);
    assert_eq!(list_entries(&store).len(), 2);
    assert!(list_trash(&store).is_empty());
}

#[test]
fn search_escapes_like_metacharacters() {
    let mut store = fresh();
    let literal = add_entry(&mut store, "100%", "discount", NOW).unwrap_or_else(|e| panic!("{}", e.message()));
    add_entry(&mut store, "fifty", "off", NOW).unwrap_or_else(|e| panic!("{}", e.message()));
    assert_eq!(ids(&search_entries(&store, "100%").unwrap_or_else(|e| panic!("{}", e.message()))), vec![literal]);
    assert_eq!(
        ids(&search_entries(&store, "%").unwrap_or_else(|e| panic!("{}", e.message()))),
        vec![literal],
        "'%' must be literal, not a match-all wildcard"
    );
}

// ---- history & paste caps ------------------------------------------------------

#[test]
fn update_snapshots_only_real_changes_and_caps_history_at_50() {
    let mut store = fresh();
    let id = add_entry(&mut store, "t", "v0", NOW).unwrap_or_else(|e| panic!("{}", e.message()));
    update_entry(&mut store, id, "t", "v0", NOW).unwrap_or_else(|e| panic!("{}", e.message()));
    assert_eq!(list_versions(&store, id).len(), 0, "no-op save must not snapshot");
    for i in 1..=60 {
        update_entry(&mut store, id, "t", &format!("v{i}"), NOW + i).unwrap_or_else(|e| panic!("{}", e.message()));
    }
    let versions = list_versions(&store, id);
    assert_eq!(versions.len(), 50, "history must be capped at 50 per entry");
    assert_eq!(versions.first().unwrap().body, "v59");
}

#[test]
fn record_paste_caps_history_at_100() {
    let mut store = fresh();
    let id = add_entry(&mut store, "t", "b", NOW).unwrap_or_else(|e| panic!("{}", e.message()));
    for i in 0..130 {
        record_paste(&mut store, Some(id), &format!("p{i}"), NOW).unwrap_or_else(|e| panic!("{}", e.message()));
    }
    assert_eq!(store.paste_rows().len(), 100, "paste_history must be capped at 100 rows");
}

// ---- version-tolerant restore --------------------------------------------------

/// A backup at `version` with the period-correct tables and one entry.
fn make_source(version: i64) -> BackupSource {
    BackupSource {
        has_entries_table: true,
        has_deleted_at: version >= 4,
        entries: vec![row(1, "from_backup", "b", None)],
        versions: if version >= 3 { Some(vec![]) } else { None },
        pastes: if version >= 5 { Some(vec![]) } else { None },
    }
}

#[test]
fn restore_replaces_entries_and_returns_count() {
    let mut store = fresh();
    add_entry(&mut store, "local", "x", NOW).unwrap_or_else(|e| panic!("{}", e.message()));
    let count = restore_from_backup(&mut store, make_source(5)).unwrap_or_else(|e| panic!("{}", e.message()));
    assert_eq!(count, 1);
    let titles: Vec<String> = store.entry_rows().iter().map(|r| r.title.clone()).collect();
    assert_eq!(titles, vec!["from_backup".to_string()], "restore replaces, not merges");
}

#[test]
fn restore_from_pre_v4_backup_brings_entries_back_as_live() {
    let mut store = fresh();
    let mut src = make_source(3);
    // A pre-v4 file has no deleted_at column: whatever was read, it restores live.
    src.entries[0].deleted_at = Some(5);
    restore_from_backup(&mut store, src).unwrap_or_else(|e| panic!("{}", e.message()));
    assert_eq!(store.entry_rows()[0].deleted_at, None, "pre-v4 backup has no deleted_at → restores live");
    assert_eq!(list_entries(&store).len(), 1);
}

#[test]
fn restore_clears_local_history_when_backup_predates_versions() {
    let mut store = fresh();
    let id = add_entry(&mut store, "local", "v0", NOW).unwrap_or_else(|e| panic!("{}", e.message()));
    update_entry(&mut store, id, "local", "v1", NOW).unwrap_or_else(|e| panic!("{}", e.message()));
    assert_eq!(list_versions(&store, id).len(), 1);
    restore_from_backup(&mut store, make_source(2)).unwrap_or_else(|e| panic!("{}", e.message()));
    assert_eq!(store.version_rows().len(), 0, "stale local history must be cleared, not kept");
}

#[test]
fn restore_rejects_non_backup_and_rolls_back() {
    let mut store = fresh();
    add_entry(&mut store, "precious", "keep me", NOW).unwrap_or_else(|e| panic!("{}", e.message()));
    let bad = BackupSource {
        has_entries_table: false,
        has_deleted_at: false,
        entries: vec![],
        versions: None,
        pastes: None,
    };
    let err = restore_from_backup(&mut store, bad);
    assert!(err.is_err(), "a non-Marie DB must be rejected");
    let titles: Vec<String> = store.entry_rows().iter().map(|r| r.title.clone()).collect();
    assert_eq!(titles, vec!["precious".to_string()], "failed restore must not destroy data");
}

// ---- more of the store ------------------------------------------------------------

#[test]
fn restore_refuses_duplicate_ids_and_keeps_data() {
    let mut store = fresh();
    add_entry(&mut store, "precious", "keep me", NOW).unwrap_or_else(|e| panic!("{}", e.message()));
    let mut src = make_source(5);
    src.entries.push(row(1, "again", "dup", None));
    src.entries.push(row(2, "other", "fine", None));
    let err = restore_from_backup(&mut store, src).err().expect("duplicate ids must be refused");
    assert_eq!(err.message(), "UNIQUE constraint failed: entries.id");
    assert_eq!(store.entry_rows().len(), 1);
    assert_eq!(store.entry_rows()[0].title, "precious");
}

#[test]
fn restore_refuses_duplicate_version_and_paste_ids() {
    let mut store = fresh();
    let v = |id| VersionRow { id, entry_id: 1, title: "t".into(), body: "b".into(), saved_at: 1 };
    let mut src = make_source(5);
    src.versions = Some(vec![v(3), v(3)]);
    let err = restore_from_backup(&mut store, src).err().expect("refused");
    assert_eq!(err.message(), "UNIQUE constraint failed: entry_versions.id");
    let p = |id| PasteRow { id, entry_id: None, text: "x".into(), pasted_at: 1 };
    let mut src = make_source(5);
    src.pastes = Some(vec![p(1), p(2), p(2)]);
    let err = restore_from_backup(&mut store, src).err().expect("refused");
    assert_eq!(err.message(), "UNIQUE constraint failed: paste_history.id");
}

#[test]
fn restore_keeps_trash_state_of_v4_backup_and_raises_ids() {
    let mut store = fresh();
    let mut src = make_source(5);
    src.entries = vec![row(7, "a", "b", Some(42)), row(9, "c", "d", None)];
    assert_eq!(restore_from_backup(&mut store, src).ok(), Some(2));
    assert_eq!(list_trash(&store).iter().map(|t| (t.id, t.deleted_at)).collect::<Vec<_>>(), vec![(7, 42)]);
    // New ids continue above the restored ones.
    let id = add_entry(&mut store, "n", "m", NOW).unwrap_or_else(|e| panic!("{}", e.message()));
    assert_eq!(id, 10);
}

#[test]
fn add_entry_ids_are_never_reused() {
    let mut store = fresh();
    let a = add_entry(&mut store, "a", "1", NOW).unwrap_or_else(|e| panic!("{}", e.message()));
    let b = add_entry(&mut store, "b", "2", NOW).unwrap_or_else(|e| panic!("{}", e.message()));
    assert_eq!((a, b), (1, 2));
    // Purge b from the trash; the next id is still 3.
    delete_entry(&mut store, b, NOW - 100 * DAY);
    sweep_trash(&mut store, NOW);
    assert_eq!(ids(&list_entries(&store)), vec![a]);
    let c = add_entry(&mut store, "c", "3", NOW).unwrap_or_else(|e| panic!("{}", e.message()));
    assert_eq!(c, 3);
}

#[test]
fn add_entry_fails_when_ids_are_exhausted() {
    let mut store = Store::load(vec![row(i64::MAX, "last", "x", None)], vec![], vec![], vec![], 0, 0, 0)
        .unwrap_or_else(|e| panic!("{}", e.message()));
    let err = add_entry(&mut store, "one more", "y", NOW).err().expect("no id left");
    assert_eq!(err.message(), "database or disk is full");
    assert_eq!(store.entry_rows().len(), 1);
}

#[test]
fn load_refuses_duplicate_ids() {
    let r = Store::load(vec![row(1, "a", "", None), row(1, "b", "", None)], vec![], vec![], vec![], 0, 0, 0);
    assert_eq!(r.err().map(|e| e.message()), Some("UNIQUE constraint failed: entries.id".to_string()));
    let p = |id| PasteRow { id, entry_id: None, text: "x".into(), pasted_at: 1 };
    let r = Store::load(vec![], vec![], vec![p(1), p(3), p(3)], vec![], 0, 0, 0);
    assert_eq!(r.err().map(|e| e.message()), Some("UNIQUE constraint failed: paste_history.id".to_string()));
    let r = Store::load(vec![row(1, "a", "", None), row(4, "b", "", None)], vec![], vec![p(2)], vec![], 0, 0, 0);
    assert_eq!(r.map(|s| s.sequences()).ok(), Some((4, 0, 2)));
}

#[test]
fn search_refuses_a_pattern_over_the_like_limit() {
    // The pattern is `%` + escaped query + `%`; SQLite refuses more than
    // 50000 bytes of it, but only once it has a live row to match against.
    let mut store = fresh();
    let at_limit = "a".repeat(49_998);
    let over = "a".repeat(49_999);
    assert!(search_entries(&store, &over).unwrap_or_else(|e| panic!("{}", e.message())).is_empty());
    let id = add_entry(&mut store, "t", "b", NOW).unwrap_or_else(|e| panic!("{}", e.message()));
    assert!(search_entries(&store, &at_limit).unwrap_or_else(|e| panic!("{}", e.message())).is_empty());
    let err = search_entries(&store, &over).err().expect("pattern too long");
    assert_eq!(err.message(), "LIKE or GLOB pattern too complex");
    // Escaped metacharacters count twice, multi-byte letters by their bytes.
    assert!(search_entries(&store, &"%".repeat(24_999)).is_ok());
    assert!(search_entries(&store, &"%".repeat(25_000)).is_err());
    assert!(search_entries(&store, &"é".repeat(24_999)).is_ok());
    assert!(search_entries(&store, &"é".repeat(25_000)).is_err());
    // Surrounding whitespace is trimmed before the pattern is built.
    assert!(search_entries(&store, &format!("  {at_limit}  ")).is_ok());
    // With only trashed rows nothing is matched, so nothing fails.
    delete_entry(&mut store, id, NOW);
    assert!(search_entries(&store, &over).unwrap_or_else(|e| panic!("{}", e.message())).is_empty());
}

#[test]
fn list_is_newest_update_first_with_ties_by_id() {
    let mut store = fresh();
    let a = add_entry(&mut store, "a", "", 100).unwrap_or_else(|e| panic!("{}", e.message()));
    let b = add_entry(&mut store, "b", "", 300).unwrap_or_else(|e| panic!("{}", e.message()));
    let c = add_entry(&mut store, "c", "", 100).unwrap_or_else(|e| panic!("{}", e.message()));
    let d = add_entry(&mut store, "d", "", 200).unwrap_or_else(|e| panic!("{}", e.message()));
    assert_eq!(ids(&list_entries(&store)), vec![b, d, a, c]);
    // Saving moves an entry to the top.
    update_entry(&mut store, c, "c", "new", 400).unwrap_or_else(|e| panic!("{}", e.message()));
    assert_eq!(ids(&list_entries(&store)), vec![c, b, d, a]);
}

#[test]
fn search_ranks_title_hits_first_and_ignores_ascii_case() {
    let mut store = fresh();
    let body_hit = add_entry(&mut store, "note", "call Alice", 500).unwrap_or_else(|e| panic!("{}", e.message()));
    let title_hit = add_entry(&mut store, "ALICE address", "street", 100).unwrap_or_else(|e| panic!("{}", e.message()));
    add_entry(&mut store, "bob", "nothing", 900).unwrap_or_else(|e| panic!("{}", e.message()));
    assert_eq!(ids(&search_entries(&store, "  alice \t").unwrap_or_else(|e| panic!("{}", e.message()))), vec![title_hit, body_hit]);
    assert!(search_entries(&store, "   ").unwrap_or_else(|e| panic!("{}", e.message())).is_empty());
    assert!(search_entries(&store, "").unwrap_or_else(|e| panic!("{}", e.message())).is_empty());
    // `_` is literal too.
    let under = add_entry(&mut store, "a_b", "", 1).unwrap_or_else(|e| panic!("{}", e.message()));
    add_entry(&mut store, "axb", "", 1).unwrap_or_else(|e| panic!("{}", e.message()));
    assert_eq!(ids(&search_entries(&store, "a_b").unwrap_or_else(|e| panic!("{}", e.message()))), vec![under]);
    // Non-ASCII letters are compared exactly.
    let accented = add_entry(&mut store, "Élan", "", 1).unwrap_or_else(|e| panic!("{}", e.message()));
    assert_eq!(ids(&search_entries(&store, "Élan").unwrap_or_else(|e| panic!("{}", e.message()))), vec![accented]);
    assert!(search_entries(&store, "élan").unwrap_or_else(|e| panic!("{}", e.message())).is_empty());
}

#[test]
fn search_returns_at_most_20() {
    let mut store = fresh();
    for i in 0..25 {
        add_entry(&mut store, &format!("item {i}"), "", i).unwrap_or_else(|e| panic!("{}", e.message()));
    }
    let hits = search_entries(&store, "item").unwrap_or_else(|e| panic!("{}", e.message()));
    assert_eq!(hits.len(), 20);
    assert_eq!(hits[0].title, "item 24");
    assert_eq!(hits[19].title, "item 5");
}

#[test]
fn recents_are_last_three_distinct_by_latest_paste() {
    let mut store = fresh();
    let e: Vec<i64> = (0..5)
        .map(|i| add_entry(&mut store, &format!("e{i}"), "", NOW).unwrap_or_else(|e| panic!("{}", e.message())))
        .collect();
    record_paste(&mut store, Some(e[0]), "x", 10).unwrap_or_else(|e| panic!("{}", e.message()));
    record_paste(&mut store, Some(e[1]), "x", 20).unwrap_or_else(|e| panic!("{}", e.message()));
    record_paste(&mut store, Some(e[2]), "x", 30).unwrap_or_else(|e| panic!("{}", e.message()));
    record_paste(&mut store, Some(e[0]), "x", 40).unwrap_or_else(|e| panic!("{}", e.message()));
    record_paste(&mut store, None, "free text", 50).unwrap_or_else(|e| panic!("{}", e.message()));
    record_paste(&mut store, Some(e[3]), "x", 25).unwrap_or_else(|e| panic!("{}", e.message()));
    assert_eq!(ids(&recent_topics(&store)), vec![e[0], e[2], e[3]]);
}

#[test]
fn trash_is_newest_deletion_first() {
    let mut store = fresh();
    let a = add_entry(&mut store, "a", "", NOW).unwrap_or_else(|e| panic!("{}", e.message()));
    let b = add_entry(&mut store, "b", "", NOW).unwrap_or_else(|e| panic!("{}", e.message()));
    delete_entry(&mut store, a, 200);
    delete_entry(&mut store, b, 100);
    let trash: Vec<(i64, i64)> = list_trash(&store).iter().map(|t| (t.id, t.deleted_at)).collect();
    assert_eq!(trash, vec![(a, 200), (b, 100)]);
}

#[test]
fn versions_keep_outgoing_content_and_time() {
    let mut store = fresh();
    let id = add_entry(&mut store, "t0", "b0", 100).unwrap_or_else(|e| panic!("{}", e.message()));
    update_entry(&mut store, id, "t1", "b0", 200).unwrap_or_else(|e| panic!("{}", e.message()));
    update_entry(&mut store, id, "t1", "b1", 300).unwrap_or_else(|e| panic!("{}", e.message()));
    let v: Vec<(String, String, i64)> =
        list_versions(&store, id).into_iter().map(|v| (v.title, v.body, v.saved_at)).collect();
    assert_eq!(
        v,
        vec![("t1".to_string(), "b0".to_string(), 200), ("t0".to_string(), "b0".to_string(), 100)]
    );
    assert!(list_versions(&store, id + 1).is_empty());
}

#[test]
fn delete_and_restore_of_unknown_id_change_nothing() {
    let mut store = fresh();
    let a = add_entry(&mut store, "a", "", NOW).unwrap_or_else(|e| panic!("{}", e.message()));
    delete_entry(&mut store, a + 1, NOW);
    restore_entry(&mut store, a + 1);
    assert_eq!(ids(&list_entries(&store)), vec![a]);
    assert!(list_trash(&store).is_empty());
}
