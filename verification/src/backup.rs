//! Backups: the names of the snapshot files, which of them are kept, and
//! the decisions of the hourly housekeeping (safety-net backup, and the
//! reminder to choose a backup folder after 72 hours of unprotected
//! changes). The bookkeeping lives in the settings.
use vstd::prelude::*;
use crate::text::chars_of;
use crate::decimal::{format_i64, parse_i64, parsed_i64, decimal, lemma_parse_format_roundtrip};
use crate::store::{Store, StoreView, setting, set_setting, remove_setting, set_setting_if_absent};

verus! {

/// How many backup files are kept.
pub const BACKUP_KEEP: usize = 30;

/// A backup file as the manage window lists it.
pub struct BackupFile {
    pub name: String,
    pub path: String,
    pub size: u64,
    /// Unix epoch seconds of the file's mtime.
    pub modified: i64,
}

/// The backup folder (none until the user has chosen one) and its backups.
pub struct BackupInfo {
    pub dir: Option<String>,
    pub backups: Vec<BackupFile>,
}

// ---- file names ----------------------------------------------------------------

pub open spec fn backup_prefix() -> Seq<char> {
    "marie-lookup-"@
}

pub open spec fn backup_suffix() -> Seq<char> {
    ".db"@
}

/// A file name that the backup folder listing counts as a backup.
pub open spec fn is_backup_name(name: Seq<char>) -> bool {
    backup_prefix().is_prefix_of(name) && backup_suffix().is_suffix_of(name)
}

/// The name of the backup taken at the time stamp `stamp`.
pub open spec fn backup_name(stamp: Seq<char>) -> Seq<char> {
    backup_prefix() + stamp + backup_suffix()
}

/// The name of the backup taken at `stamp` (`YYYYmmdd-HHMMSS`): such names
/// sort by time.
pub fn backup_file_name(stamp: &str) -> (name: String)
    ensures
        name@ == backup_name(stamp@),
{
    let mut name = String::from_str("marie-lookup-");
    name.append(stamp);
    name.append(".db");
    name
}

/// Whether `name` is the name of a backup file.
pub fn is_backup_file_name(name: &str) -> (b: bool)
    ensures
        b == is_backup_name(name@),
{
    let s = chars_of(name);
    let p = chars_of("marie-lookup-");
    let x = chars_of(".db");
    let n = s.len();
    let pl = p.len();
    let xl = x.len();
    if n < pl || n < xl {
        return false;
    }
    let mut i: usize = 0;
    while i < pl
        invariant
            pl == p@.len(),
            p@ == backup_prefix(),
            s@ == name@,
            pl <= n,
            n == s@.len(),
            i <= pl,
            forall|k: int| 0 <= k < i ==> s@[k] == p@[k],
        decreases pl - i,
    {
        if s[i] != p[i] {
            assert(s@.subrange(0, pl as int)[i as int] != p@[i as int]);
            assert(!backup_prefix().is_prefix_of(name@));
            return false;
        }
        i = i + 1;
    }
    assert(p@ =~= s@.take(pl as int));
    let mut j: usize = 0;
    while j < xl
        invariant
            xl == x@.len(),
            x@ == backup_suffix(),
            s@ == name@,
            xl <= n,
            n == s@.len(),
            j <= xl,
            forall|k: int| 0 <= k < j ==> s@[n - xl + k] == x@[k],
        decreases xl - j,
    {
        if s[n - xl + j] != x[j] {
            assert(s@.subrange(n - xl, n as int)[j as int] != x@[j as int]);
            assert(!backup_suffix().is_suffix_of(name@));
            return false;
        }
        j = j + 1;
    }
    assert(x@ =~= s@.skip(n - xl));
    true
}

/// Every name `backup_file_name` makes is one that the listing counts.
pub proof fn lemma_backup_name_is_listed(stamp: Seq<char>)
    ensures
        is_backup_name(backup_name(stamp)),
{
    let n = backup_name(stamp);
    assert(n.take(backup_prefix().len() as int) =~= backup_prefix());
    assert(n.skip(n.len() - backup_suffix().len()) =~= backup_suffix());
}

// ---- ordering of backup names ----------------------------------------------------

/// `a` sorts no later than `b`: byte order of their UTF-8 text, which for
/// characters is code point order.
pub open spec fn name_le(a: Seq<char>, b: Seq<char>) -> bool
    decreases a.len(),
{
    if a.len() == 0 {
        true
    } else if b.len() == 0 {
        false
    } else if a[0] != b[0] {
        a[0] < b[0]
    } else {
        name_le(a.drop_first(), b.drop_first())
    }
}

proof fn lemma_name_le_total(a: Seq<char>, b: Seq<char>)
    ensures
        name_le(a, b) || name_le(b, a),
    decreases a.len(),
{
    if a.len() > 0 && b.len() > 0 && a[0] == b[0] {
        lemma_name_le_total(a.drop_first(), b.drop_first());
    }
}

proof fn lemma_name_le_trans(a: Seq<char>, b: Seq<char>, c: Seq<char>)
    requires
        name_le(a, b),
        name_le(b, c),
    ensures
        name_le(a, c),
    decreases a.len(),
{
    if a.len() > 0 && b.len() > 0 && c.len() > 0 && a[0] == b[0] && b[0] == c[0] {
        lemma_name_le_trans(a.drop_first(), b.drop_first(), c.drop_first());
    }
}

fn chars_le(a: &Vec<char>, b: &Vec<char>) -> (r: bool)
    ensures
        r == name_le(a@, b@),
{
    let n = a.len();
    let m = b.len();
    let mut i: usize = 0;
    assert(a@.skip(0) =~= a@);
    assert(b@.skip(0) =~= b@);
    while i < n && i < m && a[i] == b[i]
        invariant
            n == a@.len(),
            m == b@.len(),
            i <= n,
            i <= m,
            name_le(a@, b@) == name_le(a@.skip(i as int), b@.skip(i as int)),
        decreases n - i,
    {
        assert(a@.skip(i as int).drop_first() =~= a@.skip(i + 1));
        assert(b@.skip(i as int).drop_first() =~= b@.skip(i + 1));
        i = i + 1;
    }
    if i == n {
        true
    } else if i == m {
        false
    } else {
        assert(a@.skip(i as int)[0] == a@[i as int]);
        assert(b@.skip(i as int)[0] == b@[i as int]);
        a[i] < b[i]
    }
}

/// The names in `s` are in descending order, newest backup first.
pub open spec fn newest_first(s: Seq<Seq<char>>) -> bool {
    forall|i: int, j: int| 0 <= i < j < s.len() ==> name_le(#[trigger] s[j], #[trigger] s[i])
}

/// The backup names among `names`, newest first.
pub fn select_backup_files(names: &Vec<String>) -> (out: Vec<String>)
    ensures
        newest_first(out@.map_values(|s: String| s@)),
        out@.map_values(|s: String| s@).to_multiset() =~= names@.map_values(|s: String| s@).filter(
            |s: Seq<char>| is_backup_name(s),
        ).to_multiset(),
{
    let ghost all = names@.map_values(|s: String| s@);
    let ghost pred = |s: Seq<char>| is_backup_name(s);
    let n = names.len();
    let mut out: Vec<String> = Vec::new();
    let mut keys: Vec<Vec<char>> = Vec::new();
    let mut i: usize = 0;
    assert(all.take(0) =~= Seq::<Seq<char>>::empty());
    assert(out@.map_values(|s: String| s@) =~= Seq::<Seq<char>>::empty());
    assert(all.take(0).filter(pred) =~= Seq::<Seq<char>>::empty()) by {
        reveal(Seq::filter);
    }
    while i < n
        invariant
            n == names@.len(),
            all == names@.map_values(|s: String| s@),
            pred == (|s: Seq<char>| is_backup_name(s)),
            i <= n,
            keys@.len() == out@.len(),
            forall|k: int| 0 <= k < out@.len() ==> #[trigger] keys@[k]@ == out@[k]@,
            newest_first(out@.map_values(|s: String| s@)),
            out@.map_values(|s: String| s@).to_multiset() =~= all.take(i as int).filter(pred).to_multiset(),
        decreases n - i,
    {
        let name = &names[i];
        assert(all[i as int] == name@);
        let ghost t = all.take(i + 1);
        assert(t.drop_last() =~= all.take(i as int));
        assert(t.last() == name@);
        assert(t.filter(pred) == if pred(t.last()) {
            t.drop_last().filter(pred).push(t.last())
        } else {
            t.drop_last().filter(pred)
        }) by {
            reveal(Seq::filter);
        }
        if is_backup_file_name(name.as_str()) {
            let key = chars_of(name.as_str());
            let len = out.len();
            let mut pos: usize = 0;
            while pos < len && !chars_le(&keys[pos], &key)
                invariant
                    len == out@.len(),
                    keys@.len() == len,
                    forall|k: int| 0 <= k < len ==> #[trigger] keys@[k]@ == out@[k]@,
                    key@ == name@,
                    pos <= len,
                    forall|k: int| 0 <= k < pos ==> !name_le(#[trigger] out@[k]@, name@),
                decreases len - pos,
            {
                pos = pos + 1;
            }
            let ghost old_v = out@.map_values(|s: String| s@);
            proof {
                assert forall|k: int| 0 <= k < pos implies name_le(name@, #[trigger] old_v[k]) by {
                    lemma_name_le_total(name@, old_v[k]);
                }
                if pos < len {
                    assert(name_le(old_v[pos as int], name@));
                }
            }
            let copy = name.clone();
            out.insert(pos, copy);
            keys.insert(pos, key);
            proof {
                let new_v = out@.map_values(|s: String| s@);
                assert(new_v =~= old_v.insert(pos as int, name@));
                old_v.insert_ensures(pos as int, name@);
                assert forall|a: int, b: int| 0 <= a < b < new_v.len() implies name_le(
                    #[trigger] new_v[b],
                    #[trigger] new_v[a],
                ) by {
                    if b < pos {
                    } else if a < pos && b == pos {
                    } else if a < pos && b > pos {
                        assert(new_v[b] == old_v[b - 1]);
                        assert(name_le(name@, old_v[a]));
                        if pos < len {
                            assert(name_le(old_v[pos as int], name@));
                            if b - 1 > pos {
                                assert(name_le(old_v[b - 1], old_v[pos as int]));
                                lemma_name_le_trans(old_v[b - 1], old_v[pos as int], name@);
                            }
                        }
                        lemma_name_le_trans(new_v[b], name@, old_v[a]);
                    } else if a == pos {
                        assert(new_v[b] == old_v[b - 1]);
                        if b - 1 > pos {
                            assert(name_le(old_v[b - 1], old_v[pos as int]));
                            lemma_name_le_trans(old_v[b - 1], old_v[pos as int], name@);
                        }
                    } else {
                        assert(new_v[a] == old_v[a - 1] && new_v[b] == old_v[b - 1]);
                    }
                }
                assert(new_v.remove(pos as int) =~= old_v);
                assert(new_v[pos as int] == name@);
                assert(new_v.to_multiset() =~= old_v.to_multiset().insert(name@)) by {
                    broadcast use vstd::seq_lib::group_to_multiset_ensures;
                    assert(new_v.remove(pos as int).to_multiset() =~= new_v.to_multiset().remove(new_v[pos as int]));
                    assert(new_v.contains(name@));
                }
                assert(t.filter(pred) =~= all.take(i as int).filter(pred).push(name@));
                assert(t.filter(pred).to_multiset() =~= all.take(i as int).filter(pred).to_multiset().insert(name@)) by {
                    broadcast use vstd::seq_lib::group_to_multiset_ensures;
                }
            }
        } else {
            assert(t.filter(pred) =~= all.take(i as int).filter(pred));
        }
        i = i + 1;
    }
    assert(all.take(n as int) =~= all);
    out
}

proof fn lemma_filter_keeps_distinct(s: Seq<Seq<char>>, p: spec_fn(Seq<char>) -> bool)
    requires
        s.no_duplicates(),
    ensures
        s.filter(p).no_duplicates(),
    decreases s.len(),
{
    if s.len() > 0 {
        let d = s.drop_last();
        let x = s.last();
        assert(d.push(x) =~= s);
        assert(d.no_duplicates());
        lemma_filter_keeps_distinct(d, p);
        d.lemma_filter_push(x, p);
        if p(x) {
            if d.filter(p).contains(x) {
                d.lemma_filter_contains_rev(p, x);
                let k = choose|k: int| 0 <= k < d.len() && d[k] == x;
                assert(s[k] == s[s.len() - 1]);
            }
        }
    }
}

/// The names of one folder are distinct, so the selection holds each backup
/// once and, being newest first, is strictly descending.
pub proof fn lemma_selection_strictly_newest_first(names: Seq<Seq<char>>, out: Seq<Seq<char>>)
    requires
        names.no_duplicates(),
        newest_first(out),
        out.to_multiset() =~= names.filter(|s: Seq<char>| is_backup_name(s)).to_multiset(),
    ensures
        out.no_duplicates(),
        forall|i: int, j: int| 0 <= i < j < out.len() ==> name_le(#[trigger] out[j], #[trigger] out[i]) && out[j] != out[i],
{
    let f = names.filter(|s: Seq<char>| is_backup_name(s));
    lemma_filter_keeps_distinct(names, |s: Seq<char>| is_backup_name(s));
    f.lemma_multiset_has_no_duplicates();
    out.lemma_multiset_has_no_duplicates_conv();
}

/// The backups beyond the newest `BACKUP_KEEP` of the newest-first `names`:
/// the ones to delete.
pub fn backups_to_prune(names: &Vec<String>) -> (old: Vec<String>)
    ensures
        names@.len() <= BACKUP_KEEP ==> old@.len() == 0,
        names@.len() > BACKUP_KEEP ==> old@ == names@.skip(BACKUP_KEEP as int),
{
    let n = names.len();
    let mut old: Vec<String> = Vec::new();
    let mut i: usize = BACKUP_KEEP;
    while i < n
        invariant
            n == names@.len(),
            BACKUP_KEEP <= i,
            i <= n || n <= BACKUP_KEEP,
            n > BACKUP_KEEP ==> old@ =~= names@.subrange(BACKUP_KEEP as int, i as int),
            n <= BACKUP_KEEP ==> old@.len() == 0,
        decreases n - i,
    {
        old.push(names[i].clone());
        i = i + 1;
    }
    old
}

// ---- housekeeping decisions --------------------------------------------------------

/// One day, in seconds.
pub const DAY_SECS: i64 = 86400;

/// What the settings say about backups, as the housekeeping reads them.
pub struct BackupStatus {
    /// A backup folder has been chosen.
    pub has_dir: bool,
    /// When the first change not yet in a backup was made.
    pub dirty_since: Option<i64>,
    pub last_backup_at: Option<i64>,
    pub last_nag_at: Option<i64>,
}

/// A stored time stamp, read as `str::parse::<i64>` reads it.
pub open spec fn stamp_setting(s: StoreView, key: Seq<char>) -> Option<i64> {
    if s.settings.contains_key(key) {
        parsed_i64(s.settings[key])
    } else {
        None
    }
}

/// The time stamp stored under `key`, if any parses.
pub fn setting_i64(store: &Store, key: &str) -> (r: Option<i64>)
    requires
        store.wf(),
    ensures
        r == stamp_setting(store@, key@),
{
    match setting(store, key) {
        Some(v) => parse_i64(v.as_str()),
        None => None,
    }
}

/// The backup bookkeeping the settings hold.
pub open spec fn backup_status(s: StoreView) -> (bool, Option<i64>, Option<i64>, Option<i64>) {
    (
        s.settings.contains_key("backup_dir"@),
        stamp_setting(s, "dirty_since"@),
        stamp_setting(s, "last_backup_at"@),
        stamp_setting(s, "last_nag_at"@),
    )
}

/// Reads the backup bookkeeping from the settings.
pub fn read_backup_status(store: &Store) -> (st: BackupStatus)
    requires
        store.wf(),
    ensures
        (st.has_dir, st.dirty_since, st.last_backup_at, st.last_nag_at) == backup_status(store@),
{
    BackupStatus {
        has_dir: setting(store, "backup_dir").is_some(),
        dirty_since: setting_i64(store, "dirty_since"),
        last_backup_at: setting_i64(store, "last_backup_at"),
        last_nag_at: setting_i64(store, "last_nag_at"),
    }
}

/// What the hourly housekeeping does first.
pub enum Housekeeping {
    /// Nothing: no unprotected changes, or a recent enough backup.
    Idle,
    /// Take a safety-net backup (and, should it fail, consider reminding).
    Backup,
    /// No folder chosen: consider reminding the user to choose one.
    ConsiderNag,
}

/// Changes have gone unprotected for three days or more.
pub open spec fn overdue(dirty: i64, now: i64) -> bool {
    now - dirty >= 3 * DAY_SECS
}

/// The first step of the housekeeping at `now`: with nothing dirty there is
/// nothing to protect; with a folder, back up when the last backup is more
/// than a day old (or there is none); without one, consider reminding once
/// the changes are three days old.
pub open spec fn housekeeping_step(st: BackupStatus, now: i64) -> Housekeeping {
    match st.dirty_since {
        None => Housekeeping::Idle,
        Some(dirty) => if st.has_dir {
            match st.last_backup_at {
                None => Housekeeping::Backup,
                Some(b) => if now - b > DAY_SECS {
                    Housekeeping::Backup
                } else {
                    Housekeeping::Idle
                },
            }
        } else if overdue(dirty, now) {
            Housekeeping::ConsiderNag
        } else {
            Housekeeping::Idle
        },
    }
}

/// Decides the first step of the housekeeping.
pub fn plan_housekeeping(st: &BackupStatus, now: i64) -> (h: Housekeeping)
    ensures
        h == housekeeping_step(*st, now),
{
    match st.dirty_since {
        None => Housekeeping::Idle,
        Some(dirty) => if st.has_dir {
            match st.last_backup_at {
                None => Housekeeping::Backup,
                Some(b) => if (now as i128) - (b as i128) > (DAY_SECS as i128) {
                    Housekeeping::Backup
                } else {
                    Housekeeping::Idle
                },
            }
        } else if (now as i128) - (dirty as i128) >= 3 * (DAY_SECS as i128) {
            Housekeeping::ConsiderNag
        } else {
            Housekeeping::Idle
        },
    }
}

/// Whether to remind after the safety-net backup failed: the folder has been
/// broken for three days of unprotected changes.
pub fn nag_after_failed_backup(st: &BackupStatus, now: i64) -> (nag: bool)
    ensures
        nag == match st.dirty_since {
            Some(dirty) => overdue(dirty, now),
            None => false,
        },
{
    match st.dirty_since {
        Some(dirty) => (now as i128) - (dirty as i128) >= 3 * (DAY_SECS as i128),
        None => false,
    }
}

/// A reminder that is due may be shown: at most one a day.
pub fn nag_allowed(st: &BackupStatus, now: i64) -> (ok: bool)
    ensures
        ok == match st.last_nag_at {
            Some(n) => now - n >= DAY_SECS,
            None => true,
        },
{
    match st.last_nag_at {
        Some(n) => (now as i128) - (n as i128) >= (DAY_SECS as i128),
        None => true,
    }
}

/// Notes a change not yet in a backup: `dirty_since` marks the first such
/// change, so continued editing cannot postpone the reminder.
pub fn mark_dirty(store: &mut Store, now: i64)
    requires
        old(store).wf(),
    ensures
        final(store).wf(),
        old(store)@.settings.contains_key("dirty_since"@) ==> final(store)@ == old(store)@,
        !old(store)@.settings.contains_key("dirty_since"@) ==> final(store)@ == (StoreView {
            settings: old(store)@.settings.insert("dirty_since"@, decimal(now as int)),
            ..old(store)@
        }),
{
    let stamp = format_i64(now);
    set_setting_if_absent(store, "dirty_since", stamp.as_str());
}

/// Notes a successful backup at `now`: the last backup time is recorded and
/// nothing is dirty any more.
pub fn record_backup_done(store: &mut Store, now: i64)
    requires
        old(store).wf(),
    ensures
        final(store).wf(),
        final(store)@ == (StoreView {
            settings: old(store)@.settings.insert("last_backup_at"@, decimal(now as int)).remove("dirty_since"@),
            ..old(store)@
        }),
{
    let stamp = format_i64(now);
    set_setting(store, "last_backup_at", stamp.as_str());
    remove_setting(store, "dirty_since");
}

/// Notes that the reminder was shown at `now`.
pub fn record_nag(store: &mut Store, now: i64)
    requires
        old(store).wf(),
    ensures
        final(store).wf(),
        final(store)@ == (StoreView {
            settings: old(store)@.settings.insert("last_nag_at"@, decimal(now as int)),
            ..old(store)@
        }),
{
    let stamp = format_i64(now);
    set_setting(store, "last_nag_at", stamp.as_str());
}

/// After a backup was recorded, the housekeeping finds nothing to protect.
pub proof fn lemma_backup_clears_dirty(s: StoreView, now: i64)
    ensures
        ({
            let t = StoreView {
                settings: s.settings.insert("last_backup_at"@, decimal(now as int)).remove("dirty_since"@),
                ..s
            };
            &&& stamp_setting(t, "dirty_since"@) is None
            &&& stamp_setting(t, "last_backup_at"@) == Some(now)
        }),
{
    reveal_strlit("last_backup_at");
    reveal_strlit("dirty_since");
    assert("last_backup_at"@.len() == 14);
    assert("dirty_since"@.len() == 11);
    assert("last_backup_at"@ != "dirty_since"@);
    lemma_parse_format_roundtrip(now);
}

/// Marking a clean store dirty at `now` records `now` as the start of the
/// unprotected changes; marking it again changes nothing.
pub proof fn lemma_mark_dirty_records_first_change(s: StoreView, now: i64)
    requires
        !s.settings.contains_key("dirty_since"@),
    ensures
        stamp_setting(
            StoreView { settings: s.settings.insert("dirty_since"@, decimal(now as int)), ..s },
            "dirty_since"@,
        ) == Some(now),
{
    lemma_parse_format_roundtrip(now);
}


/// The message a backup gives when no folder has been chosen; the manage
/// window matches this exact text.
pub open spec fn no_backup_dir_message() -> Seq<char> {
    "no_backup_dir"@
}

/// The chosen backup folder, or the `no_backup_dir` error when none has been
/// chosen (there is deliberately no default folder).
pub fn backup_folder(store: &Store) -> (r: Result<String, crate::error::AppError>)
    requires
        store.wf(),
    ensures
        match r {
            Ok(d) => store@.settings.contains_key("backup_dir"@) && d@ == store@.settings["backup_dir"@],
            Err(e) => !store@.settings.contains_key("backup_dir"@) && e.0@ == no_backup_dir_message(),
        },
{
    match setting(store, "backup_dir") {
        Some(d) => Ok(d),
        None => Err(crate::error::AppError::new("no_backup_dir")),
    }
}

/// Whether the housekeeping ends by reminding the user to choose a backup
/// folder: the first step called for it (no folder, changes three days
/// old), or the safety-net backup failed with changes three days old; and
/// no reminder was shown in the last day.
pub fn remind_after_housekeeping(st: &BackupStatus, now: i64, step: &Housekeeping, backup_failed: bool) -> (r: bool)
    ensures
        r == ((match *step {
            Housekeeping::Idle => false,
            Housekeeping::ConsiderNag => true,
            Housekeeping::Backup => backup_failed && match st.dirty_since {
                Some(dirty) => overdue(dirty, now),
                None => false,
            },
        }) && match st.last_nag_at {
            Some(n) => now - n >= DAY_SECS,
            None => true,
        }),
{
    let nag = match step {
        Housekeeping::Idle => false,
        Housekeeping::ConsiderNag => true,
        Housekeeping::Backup => backup_failed && nag_after_failed_backup(st, now),
    };
    nag && nag_allowed(st, now)
}

/// A scheduled auto-backup still runs only if no later change scheduled
/// another since (bursts of changes give one backup).
pub fn backup_still_current(current_generation: u64, scheduled_generation: u64) -> (r: bool)
    ensures
        r == (current_generation == scheduled_generation),
{
    current_generation == scheduled_generation
}

} // verus!
