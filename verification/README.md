# Marie Lookup

A tray-resident snippet lookup app: press a global hotkey, search saved
entries, and the chosen text is pasted where the cursor is.

## Layout

- `src/` — the verified library (Verus).
  - `store.rs`: the snippet store and its rules — soft deletion and the
    trash, snapshot-on-change version history capped at 50 per entry, the
    paste log capped at 100, search and recents, the 90-day trash purge,
    settings, and the version-tolerant restore of a backup. Its model is
    `StoreView`; every operation states its effect on it, and the laws of
    the store are proof functions at the end of the file.
  - `text.rs`: trimming, SQLite `LIKE` matching and the escaping that makes
    a search query literal (with the proof that it is), and the size limit
    SQLite puts on a pattern.
  - `rank.rs`: the listing order and a verified insertion sort.
  - `decimal.rs`: `i64` to and from decimal text, with the round-trip proof.
  - `schema.rs`: the migration ladder keyed on `PRAGMA user_version`.
  - `backup.rs`: backup file names, which backups are kept, and the hourly
    housekeeping decisions with their bookkeeping.
  - `hotkey.rs`, `platform.rs`, `clock.rs`: hotkey candidates, the paste
    permission gate and About text, the system clock.
- `app/` — the Tauri application: commands, tray, clipboard and key
  synthesis, and SQLite persistence of the store (read at launch, written
  back in one transaction after each change).
- `tests/` — tests of the library.
