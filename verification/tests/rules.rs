use marie_lookup::backup::{
    backup_file_name, backups_to_prune, is_backup_file_name, mark_dirty, nag_after_failed_backup,
    nag_allowed, plan_housekeeping, read_backup_status, record_backup_done, record_nag,
    select_backup_files, BackupStatus, Housekeeping, BACKUP_KEEP,
};
use marie_lookup::clock::{epoch_secs, now_epoch};
use marie_lookup::backup::{backup_folder, backup_still_current, remind_after_housekeeping};
use marie_lookup::platform::paste_outcome;
use marie_lookup::decimal::{format_i64, parse_i64};
use marie_lookup::error::AppError;
use marie_lookup::hotkey::{default_hotkey, hotkey_already_active, hotkey_candidates};
use marie_lookup::platform::{about_message, accessibility_ok, check_paste_allowed, should_remember_foreground};
use marie_lookup::store::{remove_setting, set_setting, set_setting_if_absent, setting, Store};
use marie_lookup::text::{chars_of, like_match, make_contains_pattern, trim};

const DAY: i64 = 86400;

fn chars(s: &str) -> Vec<char> {
    s.chars().collect()
}

#[test]
fn parse_matches_std_parse() {
    for s in [
        "0", "42", "-42", "+7", "007", "-0", "9223372036854775807", "-9223372036854775808",
        "9223372036854775808", "-9223372036854775809", "", "-", "+", " 1", "1 ", "1a", "--1",
        "99999999999999999999999", "0000000000000000000000012",
    ] {
        assert_eq!(parse_i64(s), s.parse::<i64>().ok(), "input {s:?}");
    }
}

#[test]
fn format_matches_to_string_and_round_trips() {
    for n in [0i64, 1, 9, 10, 99, 100, -1, -10, 1_700_000_000, i64::MAX, i64::MIN] {
        assert_eq!(format_i64(n), n.to_string());
        assert_eq!(parse_i64(&format_i64(n)), Some(n));
    }
}

#[test]
fn trim_matches_str_trim() {
    for s in ["", "   ", " a b ", "\u{3000}x\u{2029}", "\t\nq\r", "x"] {
        assert_eq!(trim(&chars(s)), chars(s.trim()));
    }
}

#[test]
fn like_matching_follows_sqlite_rules() {
    let m = |t: &str, p: &str| like_match(&chars(t), &chars(p));
    assert!(m("Hello", "h%O"));
    assert!(m("abc", "a_c"));
    assert!(!m("ac", "a_c"));
    assert!(m("100%", "100\\%"));
    assert!(!m("1000", "100\\%"));
    assert!(m("", "%"));
    assert!(!m("x", ""));
    assert!(!m("É", "é"));
    assert!(!m("a", "a\\"));
}

#[test]
fn contains_pattern_escapes_metacharacters() {
    let p: String = make_contains_pattern(&chars("a\\b%c_d")).into_iter().collect();
    assert_eq!(p, "%a\\\\b\\%c\\_d%");
    let pat = make_contains_pattern(&chars("50%"));
    assert!(like_match(&chars("save 50% now"), &pat));
    assert!(!like_match(&chars("save 500 now"), &pat));
}

#[test]
fn chars_of_keeps_every_character() {
    assert_eq!(chars_of("é€x"), vec!['é', '€', 'x']);
}

#[test]
fn backup_names_are_recognized() {
    let name = backup_file_name("20240131-235959");
    assert_eq!(name, "marie-lookup-20240131-235959.db");
    assert!(is_backup_file_name(&name));
    assert!(!is_backup_file_name("marie-lookup.db"));
    assert!(!is_backup_file_name("other-20240131.db"));
    assert!(!is_backup_file_name("marie-lookup-1.db-wal"));
    assert!(is_backup_file_name("marie-lookup-.db"));
}

#[test]
fn backup_listing_is_newest_first_and_filtered() {
    let names: Vec<String> = [
        "marie-lookup-20240101-000000.db",
        "notes.txt",
        "marie-lookup-20240301-000000.db",
        "marie-lookup-20240201-000000.db",
        "marie-lookup.db",
    ]
    .iter()
    .map(|s| s.to_string())
    .collect();
    assert_eq!(
        select_backup_files(&names),
        vec![
            "marie-lookup-20240301-000000.db".to_string(),
            "marie-lookup-20240201-000000.db".to_string(),
            "marie-lookup-20240101-000000.db".to_string(),
        ]
    );
}

#[test]
fn pruning_keeps_the_newest_thirty() {
    let names: Vec<String> = (0..35).rev().map(|i| format!("marie-lookup-{i:02}.db")).collect();
    let sorted = select_backup_files(&names);
    assert_eq!(sorted.len(), 35);
    let old = backups_to_prune(&sorted);
    assert_eq!(old.len(), 35 - BACKUP_KEEP);
    assert_eq!(old.first().unwrap(), "marie-lookup-04.db");
    assert_eq!(old.last().unwrap(), "marie-lookup-00.db");
    assert!(backups_to_prune(&sorted[..30].to_vec()).is_empty());
}

fn status(has_dir: bool, dirty: Option<i64>, last_backup: Option<i64>, last_nag: Option<i64>) -> BackupStatus {
    BackupStatus { has_dir, dirty_since: dirty, last_backup_at: last_backup, last_nag_at: last_nag }
}

#[test]
fn housekeeping_decisions() {
    let now = 1_000_000;
    assert!(matches!(plan_housekeeping(&status(true, None, None, None), now), Housekeeping::Idle));
    assert!(matches!(plan_housekeeping(&status(true, Some(now), None, None), now), Housekeeping::Backup));
    assert!(matches!(plan_housekeeping(&status(true, Some(now), Some(now - DAY), None), now), Housekeeping::Idle));
    assert!(matches!(plan_housekeeping(&status(true, Some(now), Some(now - DAY - 1), None), now), Housekeeping::Backup));
    assert!(matches!(plan_housekeeping(&status(false, Some(now - 3 * DAY + 1), None, None), now), Housekeeping::Idle));
    assert!(matches!(plan_housekeeping(&status(false, Some(now - 3 * DAY), None, None), now), Housekeeping::ConsiderNag));
    assert!(nag_after_failed_backup(&status(true, Some(now - 3 * DAY), None, None), now));
    assert!(!nag_after_failed_backup(&status(true, Some(now - DAY), None, None), now));
    assert!(nag_allowed(&status(false, None, None, None), now));
    assert!(nag_allowed(&status(false, None, None, Some(now - DAY)), now));
    assert!(!nag_allowed(&status(false, None, None, Some(now - DAY + 1)), now));
    // Extreme stored stamps do not overflow.
    assert!(matches!(plan_housekeeping(&status(true, Some(0), Some(i64::MIN), None), i64::MAX), Housekeeping::Backup));
}

#[test]
fn settings_read_back_what_was_written() {
    let mut store = Store::new();
    assert_eq!(setting(&store, "hotkey"), None);
    set_setting(&mut store, "hotkey", "Control+Alt+M");
    set_setting(&mut store, "backup_dir", "/tmp/b");
    set_setting(&mut store, "hotkey", "Super+Alt+K");
    assert_eq!(setting(&store, "hotkey").as_deref(), Some("Super+Alt+K"));
    assert_eq!(setting(&store, "backup_dir").as_deref(), Some("/tmp/b"));
    assert_eq!(store.setting_rows().len(), 2);
    set_setting_if_absent(&mut store, "hotkey", "ignored");
    assert_eq!(setting(&store, "hotkey").as_deref(), Some("Super+Alt+K"));
    remove_setting(&mut store, "hotkey");
    assert_eq!(setting(&store, "hotkey"), None);
}

#[test]
fn backup_bookkeeping_round_trip() {
    let mut store = Store::new();
    mark_dirty(&mut store, 1000);
    mark_dirty(&mut store, 2000);
    let st = read_backup_status(&store);
    assert_eq!(st.dirty_since, Some(1000), "the first change is what counts");
    assert!(!st.has_dir);
    record_nag(&mut store, 3000);
    assert_eq!(read_backup_status(&store).last_nag_at, Some(3000));
    set_setting(&mut store, "backup_dir", "/b");
    record_backup_done(&mut store, 4000);
    let st = read_backup_status(&store);
    assert!(st.has_dir);
    assert_eq!(st.dirty_since, None);
    assert_eq!(st.last_backup_at, Some(4000));
    assert!(matches!(plan_housekeeping(&st, 999_999), Housekeeping::Idle));
    set_setting(&mut store, "last_nag_at", "garbage");
    assert_eq!(read_backup_status(&store).last_nag_at, None);
}

#[test]
fn hotkey_candidates_try_stored_then_default() {
    let d = default_hotkey(false);
    assert_eq!(d, "Control+Alt+M");
    assert_eq!(default_hotkey(true), "Super+Alt+M");
    assert_eq!(hotkey_candidates(None, d), vec![d.to_string()]);
    assert_eq!(hotkey_candidates(Some(d.to_string()), d), vec![d.to_string()]);
    assert_eq!(
        hotkey_candidates(Some("Alt+K".to_string()), d),
        vec!["Alt+K".to_string(), d.to_string()]
    );
    assert!(hotkey_already_active(&Some("Alt+K".to_string()), "Alt+K"));
    assert!(!hotkey_already_active(&Some("Alt+K".to_string()), "Alt+J"));
    assert!(!hotkey_already_active(&None, "Alt+K"));
}

#[test]
fn platform_rules() {
    assert!(accessibility_ok(true));
    assert!(check_paste_allowed(true).is_ok());
    assert_eq!(check_paste_allowed(false).err().map(|e| e.message()), Some("accessibility_required".to_string()));
    assert!(should_remember_foreground(5, 7));
    assert!(!should_remember_foreground(0, 7));
    assert!(!should_remember_foreground(7, 7));
    assert_eq!(
        about_message("1.2.3"),
        "Marie Lookup v1.2.3\n\nLicensed under the GNU Affero General Public License v3.0 (AGPL-3.0-or-later)."
    );
}

#[test]
fn clock_reads_after_2020() {
    assert!(now_epoch() > 1_577_836_800);
}

#[test]
fn app_error_carries_its_message() {
    let e: AppError = String::from("boom").into();
    assert_eq!(e.message(), "boom");
    assert_eq!(AppError::new("no_backup_dir").0, "no_backup_dir");
}

#[test]
fn epoch_secs_maps_clock_readings() {
    assert_eq!(epoch_secs(Some(1_700_000_000)), 1_700_000_000);
    assert_eq!(epoch_secs(None), 0);
    assert_eq!(epoch_secs(Some(u64::MAX)), -1);
}

#[test]
fn backup_folder_needs_a_chosen_dir() {
    let mut store = Store::new();
    assert_eq!(backup_folder(&store).err().map(|e| e.message()), Some("no_backup_dir".to_string()));
    set_setting(&mut store, "backup_dir", "/b");
    assert_eq!(backup_folder(&store).ok(), Some("/b".to_string()));
}

#[test]
fn reminder_after_housekeeping() {
    let now = 1_000_000;
    let old = status(true, Some(now - 3 * DAY), None, None);
    assert!(remind_after_housekeeping(&old, now, &Housekeeping::Backup, true));
    assert!(!remind_after_housekeeping(&old, now, &Housekeeping::Backup, false));
    assert!(!remind_after_housekeeping(&old, now, &Housekeeping::Idle, true));
    let nagged = status(false, Some(now - 3 * DAY), None, Some(now - 10));
    assert!(!remind_after_housekeeping(&nagged, now, &Housekeeping::ConsiderNag, false));
    let fresh = status(false, Some(now - 3 * DAY), None, None);
    assert!(remind_after_housekeeping(&fresh, now, &Housekeeping::ConsiderNag, false));
    assert!(backup_still_current(4, 4));
    assert!(!backup_still_current(5, 4));
}

#[test]
fn paste_outcomes() {
    assert!(paste_outcome(None, Some(Ok(()))).is_ok());
    assert_eq!(paste_outcome(Some("gone".into()), None).err().map(|e| e.message()), Some("gone".to_string()));
    assert_eq!(paste_outcome(None, Some(Err("enigo".into()))).err().map(|e| e.message()), Some("enigo".to_string()));
    assert_eq!(
        paste_outcome(None, None).err().map(|e| e.message()),
        Some("paste keystroke dispatch timed out".to_string())
    );
}
