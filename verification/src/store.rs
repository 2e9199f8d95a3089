//! The snippet store: live and trashed entries, the per-entry version
//! history, the paste log and the key/value settings, with the rules that
//! govern them (soft deletion, snapshot-on-change, the history and paste
//! caps, the 90-day trash purge, search and the version-tolerant restore).
//!
//! Rows are kept in ascending id order, the order in which SQLite hands out
//! `AUTOINCREMENT` ids; each table remembers the largest id it ever gave out,
//! as `sqlite_sequence` does, so an id is never reused.
use vstd::prelude::*;
use crate::error::AppError;
use crate::rank::{Rank, before, distinct_ids, sort_ranks};
use crate::text::{
    chars_of, trim, trimmed, like_match, contains_pattern, make_contains_pattern,
    contains_folded, lemma_contains_pattern_is_literal, utf8_len, exceeds_like_limit,
    LIKE_PATTERN_MAX_BYTES,
};

verus! {

// ---- rows and their views ----------------------------------------------------

/// An entry as the lookup and manage windows show it.
#[derive(Clone)]
pub struct Entry {
    pub id: i64,
    pub title: String,
    pub body: String,
    /// Unix epoch seconds of the last save.
    pub updated_at: i64,
}

/// An entry in the trash.
pub struct TrashedEntry {
    pub id: i64,
    pub title: String,
    pub body: String,
    /// When the entry was moved to the trash (epoch seconds).
    pub deleted_at: i64,
}

/// A previous version of an entry.
pub struct EntryVersion {
    pub id: i64,
    pub title: String,
    pub body: String,
    /// When this version was originally saved (epoch seconds).
    pub saved_at: i64,
}

/// A row of the `entries` table.
pub struct EntryRow {
    pub id: i64,
    pub title: String,
    pub body: String,
    pub created_at: i64,
    pub updated_at: i64,
    /// Set while the entry is in the trash.
    pub deleted_at: Option<i64>,
}

/// A row of the `entry_versions` table.
pub struct VersionRow {
    pub id: i64,
    pub entry_id: i64,
    pub title: String,
    pub body: String,
    pub saved_at: i64,
}

/// A row of the `paste_history` table.
pub struct PasteRow {
    pub id: i64,
    pub entry_id: Option<i64>,
    pub text: String,
    pub pasted_at: i64,
}

/// A row of the `settings` table.
pub struct SettingRow {
    pub key: String,
    pub value: String,
}

pub struct EntryView {
    pub id: i64,
    pub title: Seq<char>,
    pub body: Seq<char>,
    pub updated_at: i64,
}

pub struct TrashedView {
    pub id: i64,
    pub title: Seq<char>,
    pub body: Seq<char>,
    pub deleted_at: i64,
}

pub struct VersionView {
    pub id: i64,
    pub title: Seq<char>,
    pub body: Seq<char>,
    pub saved_at: i64,
}

pub struct EntryRowView {
    pub id: i64,
    pub title: Seq<char>,
    pub body: Seq<char>,
    pub created_at: i64,
    pub updated_at: i64,
    pub deleted_at: Option<i64>,
}

pub struct VersionRowView {
    pub id: i64,
    pub entry_id: i64,
    pub title: Seq<char>,
    pub body: Seq<char>,
    pub saved_at: i64,
}

pub struct PasteRowView {
    pub id: i64,
    pub entry_id: Option<i64>,
    pub text: Seq<char>,
    pub pasted_at: i64,
}

impl View for Entry {
    type V = EntryView;

    open spec fn view(&self) -> EntryView {
        EntryView { id: self.id, title: self.title@, body: self.body@, updated_at: self.updated_at }
    }
}

impl View for TrashedEntry {
    type V = TrashedView;

    open spec fn view(&self) -> TrashedView {
        TrashedView { id: self.id, title: self.title@, body: self.body@, deleted_at: self.deleted_at }
    }
}

impl View for EntryVersion {
    type V = VersionView;

    open spec fn view(&self) -> VersionView {
        VersionView { id: self.id, title: self.title@, body: self.body@, saved_at: self.saved_at }
    }
}

impl View for EntryRow {
    type V = EntryRowView;

    open spec fn view(&self) -> EntryRowView {
        EntryRowView {
            id: self.id,
            title: self.title@,
            body: self.body@,
            created_at: self.created_at,
            updated_at: self.updated_at,
            deleted_at: self.deleted_at,
        }
    }
}

impl View for VersionRow {
    type V = VersionRowView;

    open spec fn view(&self) -> VersionRowView {
        VersionRowView {
            id: self.id,
            entry_id: self.entry_id,
            title: self.title@,
            body: self.body@,
            saved_at: self.saved_at,
        }
    }
}

impl View for PasteRow {
    type V = PasteRowView;

    open spec fn view(&self) -> PasteRowView {
        PasteRowView {
            id: self.id,
            entry_id: self.entry_id,
            text: self.text@,
            pasted_at: self.pasted_at,
        }
    }
}

/// How a live entry row is shown.
pub open spec fn entry_view(r: EntryRowView) -> EntryView {
    EntryView { id: r.id, title: r.title, body: r.body, updated_at: r.updated_at }
}

/// How a version row is shown.
pub open spec fn version_view(v: VersionRowView) -> VersionView {
    VersionView { id: v.id, title: v.title, body: v.body, saved_at: v.saved_at }
}

/// Where a live entry goes in the entry list: newest update first.
pub open spec fn live_rank(e: EntryView) -> Rank {
    Rank { group: 0, time: e.updated_at, id: e.id, at: 0 }
}

/// The rank of the live row at position `k`.
pub open spec fn live_row_rank(r: EntryRowView, k: int) -> Rank {
    Rank { group: 0, time: r.updated_at, id: r.id, at: k as usize }
}

pub open spec fn is_live(r: EntryRowView) -> bool {
    r.deleted_at is None
}

pub open spec fn entry_views(s: Seq<Entry>) -> Seq<EntryView> {
    s.map_values(|e: Entry| e@)
}

// ---- the store -------------------------------------------------------------

/// The mathematical model of the store.
#[verifier::ext_equal]
pub struct StoreView {
    pub entries: Seq<EntryRowView>,
    pub versions: Seq<VersionRowView>,
    pub pastes: Seq<PasteRowView>,
    pub settings: Map<Seq<char>, Seq<char>>,
    /// The largest id `entries` ever handed out.
    pub entry_seq: i64,
    pub version_seq: i64,
    pub paste_seq: i64,
}

pub open spec fn entry_ids_ascending(s: Seq<EntryRowView>) -> bool {
    forall|i: int, j: int| 0 <= i < j < s.len() ==> (#[trigger] s[i]).id < (#[trigger] s[j]).id
}

pub open spec fn version_ids_ascending(s: Seq<VersionRowView>) -> bool {
    forall|i: int, j: int| 0 <= i < j < s.len() ==> (#[trigger] s[i]).id < (#[trigger] s[j]).id
}

pub open spec fn paste_ids_ascending(s: Seq<PasteRowView>) -> bool {
    forall|i: int, j: int| 0 <= i < j < s.len() ==> (#[trigger] s[i]).id < (#[trigger] s[j]).id
}

/// The rows come in id order, ties allowed: what reading a table
/// `ORDER BY id` gives.
pub open spec fn entry_ids_in_order(s: Seq<EntryRowView>) -> bool {
    forall|i: int, j: int| 0 <= i < j < s.len() ==> (#[trigger] s[i]).id <= (#[trigger] s[j]).id
}

pub open spec fn version_ids_in_order(s: Seq<VersionRowView>) -> bool {
    forall|i: int, j: int| 0 <= i < j < s.len() ==> (#[trigger] s[i]).id <= (#[trigger] s[j]).id
}

pub open spec fn paste_ids_in_order(s: Seq<PasteRowView>) -> bool {
    forall|i: int, j: int| 0 <= i < j < s.len() ==> (#[trigger] s[i]).id <= (#[trigger] s[j]).id
}

/// No id occurs twice among the rows.
pub open spec fn entry_ids_distinct(s: Seq<EntryRowView>) -> bool {
    forall|i: int, j: int| 0 <= i < j < s.len() ==> (#[trigger] s[i]).id != (#[trigger] s[j]).id
}

pub open spec fn version_ids_distinct(s: Seq<VersionRowView>) -> bool {
    forall|i: int, j: int| 0 <= i < j < s.len() ==> (#[trigger] s[i]).id != (#[trigger] s[j]).id
}

pub open spec fn paste_ids_distinct(s: Seq<PasteRowView>) -> bool {
    forall|i: int, j: int| 0 <= i < j < s.len() ==> (#[trigger] s[i]).id != (#[trigger] s[j]).id
}

impl StoreView {
    /// Ids are unique and ascending in every table, and no id exceeds what its
    /// table has handed out.
    pub open spec fn valid(self) -> bool {
        &&& entry_ids_ascending(self.entries)
        &&& version_ids_ascending(self.versions)
        &&& paste_ids_ascending(self.pastes)
        &&& forall|i: int| 0 <= i < self.entries.len() ==> #[trigger] self.entries[i].id <= self.entry_seq
        &&& forall|i: int| 0 <= i < self.versions.len() ==> #[trigger] self.versions[i].id <= self.version_seq
        &&& forall|i: int| 0 <= i < self.pastes.len() ==> #[trigger] self.pastes[i].id <= self.paste_seq
    }

    /// The live entry rows hold exactly the entry with this view.
    pub open spec fn has_live(self, e: EntryView) -> bool {
        exists|k: int| 0 <= k < self.entries.len() && is_live(self.entries[k]) && e == entry_view(#[trigger] self.entries[k])
    }
}

pub struct Store {
    entries: Vec<EntryRow>,
    versions: Vec<VersionRow>,
    pastes: Vec<PasteRow>,
    settings: Vec<SettingRow>,
    entry_seq: i64,
    version_seq: i64,
    paste_seq: i64,
}

/// The settings rows as a map from key to value.
pub open spec fn settings_map(rows: Seq<SettingRow>) -> Map<Seq<char>, Seq<char>>
    decreases rows.len(),
{
    if rows.len() == 0 {
        Map::empty()
    } else {
        settings_map(rows.drop_last()).insert(rows.last().key@, rows.last().value@)
    }
}

impl View for Store {
    type V = StoreView;

    closed spec fn view(&self) -> StoreView {
        StoreView {
            entries: self.entries@.map_values(|r: EntryRow| r@),
            versions: self.versions@.map_values(|r: VersionRow| r@),
            pastes: self.pastes@.map_values(|r: PasteRow| r@),
            settings: settings_map(self.settings@),
            entry_seq: self.entry_seq,
            version_seq: self.version_seq,
            paste_seq: self.paste_seq,
        }
    }
}

impl Store {
    /// The store's model is valid.
    pub closed spec fn wf(&self) -> bool {
        self@.valid()
    }

    /// A well-formed store has a valid model, so the laws over `StoreView`
    /// apply to it.
    pub proof fn lemma_wf_valid(&self)
        requires
            self.wf(),
        ensures
            self@.valid(),
    {
    }

    /// An empty store, as a freshly created database holds.
    pub fn new() -> (s: Store)
        ensures
            s.wf(),
            s@.entries.len() == 0,
            s@.versions.len() == 0,
            s@.pastes.len() == 0,
            s@.settings == Map::<Seq<char>, Seq<char>>::empty(),
            s@.entry_seq == 0 && s@.version_seq == 0 && s@.paste_seq == 0,
    {
        let s = Store {
            entries: Vec::new(),
            versions: Vec::new(),
            pastes: Vec::new(),
            settings: Vec::new(),
            entry_seq: 0,
            version_seq: 0,
            paste_seq: 0,
        };
        assert(s@.entries =~= Seq::<EntryRowView>::empty());
        assert(s@.versions =~= Seq::<VersionRowView>::empty());
        assert(s@.pastes =~= Seq::<PasteRowView>::empty());
        s
    }
}

fn clone_string(s: &String) -> (r: String)
    ensures
        r@ == s@,
{
    s.clone()
}

fn show_entry(r: &EntryRow) -> (e: Entry)
    ensures
        e@ == entry_view(r@),
{
    Entry {
        id: r.id,
        title: clone_string(&r.title),
        body: clone_string(&r.body),
        updated_at: r.updated_at,
    }
}

/// The message SQLite gives when a table has handed out its last id.
pub open spec fn full_message() -> Seq<char> {
    "database or disk is full"@
}

// ---- adding and listing entries ----------------------------------------------

impl StoreView {
    /// The store after a new entry with a fresh id was added at `now`.
    pub open spec fn with_entry_added(self, title: Seq<char>, body: Seq<char>, now: i64) -> StoreView {
        let id = (self.entry_seq + 1) as i64;
        StoreView {
            entries: self.entries.push(
                EntryRowView {
                    id,
                    title,
                    body,
                    created_at: now,
                    updated_at: now,
                    deleted_at: None,
                },
            ),
            entry_seq: id,
            ..self
        }
    }
}

/// Inserts a new entry, returning its id: one more than any id the table
/// ever handed out. Fails, changing nothing, once the table has handed out
/// the largest id there is.
pub fn add_entry(store: &mut Store, title: &str, body: &str, now: i64) -> (r: Result<i64, AppError>)
    requires
        old(store).wf(),
    ensures
        final(store).wf(),
        match r {
            Ok(id) => {
                &&& old(store)@.entry_seq < i64::MAX
                &&& id == old(store)@.entry_seq + 1
                &&& final(store)@ == old(store)@.with_entry_added(title@, body@, now)
            },
            Err(e) => {
                &&& old(store)@.entry_seq == i64::MAX
                &&& e.0@ == full_message()
                &&& final(store)@ == old(store)@
            },
        },
{
    if store.entry_seq == i64::MAX {
        let e = AppError::new("database or disk is full");
        proof {
            reveal_strlit("database or disk is full");
        }
        return Err(e);
    }
    let id = store.entry_seq + 1;
    let row = EntryRow {
        id,
        title: String::from_str(title),
        body: String::from_str(body),
        created_at: now,
        updated_at: now,
        deleted_at: None,
    };
    let ghost old_view = store@;
    store.entries.push(row);
    store.entry_seq = id;
    proof {
        assert(store@.entries =~= old_view.entries.push(row@));
        assert(store@.versions =~= old_view.versions);
        assert(store@.pastes =~= old_view.pastes);
        assert(store@ == old_view.with_entry_added(title@, body@, now));
    }
    Ok(id)
}

/// List order: of two live entries, the one listed first was updated no
/// earlier than the other.
pub proof fn lemma_list_order(a: EntryView, b: EntryView)
    requires
        before(live_rank(a), live_rank(b)),
    ensures
        a.updated_at >= b.updated_at,
{
}

/// Live entries, most recently updated first (ties: lower id first).
/// Trashed entries are never listed.
pub fn list_entries(store: &Store) -> (out: Vec<Entry>)
    requires
        store.wf(),
    ensures
        forall|i: int, j: int|
            0 <= i < j < out@.len() ==> before(
                live_rank(#[trigger] out@[i]@),
                live_rank(#[trigger] out@[j]@),
            ),
        forall|e: EntryView| entry_views(out@).contains(e) <==> store@.has_live(e),
        forall|i: int, j: int|
            0 <= i < j < out@.len() ==> (#[trigger] out@[i])@.updated_at >= (#[trigger] out@[j])@.updated_at,
{
    let n = store.entries.len();
    let mut cands: Vec<Rank> = Vec::new();
    let mut i: usize = 0;
    while i < n
        invariant
            n == store.entries@.len(),
            i <= n,
            store.wf(),
            distinct_ids(cands@),
            forall|k: int| 0 <= k < cands@.len() ==> (#[trigger] cands@[k]).at < i,
            forall|r: Rank|
                cands@.contains(r) <==> (0 <= r.at < i && is_live(store@.entries[r.at as int])
                    && r == live_row_rank(store@.entries[r.at as int], r.at as int)),
        decreases n - i,
    {
        let row = &store.entries[i];
        let ghost old_c = cands@;
        assert(store@.entries[i as int] == row@);
        let live = row.deleted_at.is_none();
        let r = Rank { group: 0, time: row.updated_at, id: row.id, at: i };
        if live {
            proof {
                assert forall|k: int| 0 <= k < cands@.len() implies (#[trigger] cands@[k]).id != r.id by {
                    assert(cands@.contains(cands@[k]));
                    let a = cands@[k].at;
                    assert(store@.entries[a as int].id < store@.entries[i as int].id);
                }
            }
            cands.push(r);
        }
        proof {
            assert forall|x: Rank|
                cands@.contains(x) <==> (0 <= x.at < i + 1 && is_live(store@.entries[x.at as int])
                    && x == live_row_rank(store@.entries[x.at as int], x.at as int)) by {
                if cands@.contains(x) {
                    let k = choose|k: int| 0 <= k < cands@.len() && cands@[k] == x;
                    if k < old_c.len() {
                        assert(old_c[k] == x);
                        assert(old_c.contains(x));
                    }
                }
                if 0 <= x.at < i + 1 && is_live(store@.entries[x.at as int])
                    && x == live_row_rank(store@.entries[x.at as int], x.at as int) {
                    if x.at < i {
                        assert(old_c.contains(x));
                        let k = choose|k: int| 0 <= k < old_c.len() && old_c[k] == x;
                        assert(cands@[k] == x);
                    } else {
                        assert(x == r);
                        assert(cands@[old_c.len() as int] == x);
                    }
                }
            }
            assert forall|k: int| 0 <= k < cands@.len() implies (#[trigger] cands@[k]).at < i + 1 by {
                if k < old_c.len() {
                    assert(old_c[k] == cands@[k]);
                }
            }
        }
        i = i + 1;
    }
    let sorted = sort_ranks(&cands);
    let mut out: Vec<Entry> = Vec::new();
    let m = sorted.len();
    proof {
        assert forall|k: int| 0 <= k < m implies (#[trigger] sorted@[k]) == live_row_rank(
            store@.entries[sorted@[k].at as int],
            sorted@[k].at as int,
        ) && is_live(store@.entries[sorted@[k].at as int]) && sorted@[k].at < n by {
            assert(sorted@.contains(sorted@[k]));
        }
    }
    let mut j: usize = 0;
    while j < m
        invariant
            m == sorted@.len(),
            n == store.entries@.len(),
            forall|k: int| 0 <= k < m ==> (#[trigger] sorted@[k]).at < n,
            j <= m,
            out@.len() == j,
            forall|k: int| 0 <= k < j ==> #[trigger] out@[k]@ == entry_view(store@.entries[sorted@[k].at as int]),
        decreases m - j,
    {
        out.push(show_entry(&store.entries[sorted[j].at]));
        j = j + 1;
    }
    proof {
        assert forall|a: int, b: int| 0 <= a < b < out@.len() implies before(
            live_rank(#[trigger] out@[a]@),
            live_rank(#[trigger] out@[b]@),
        ) by {
            assert(before(sorted@[a], sorted@[b]));
        }
        assert forall|e: EntryView| entry_views(out@).contains(e) <==> store@.has_live(e) by {
            if entry_views(out@).contains(e) {
                let k = choose|k: int| 0 <= k < entry_views(out@).len() && entry_views(out@)[k] == e;
                let at = sorted@[k].at as int;
                assert(e == entry_view(store@.entries[at]));
            }
            if store@.has_live(e) {
                let at = choose|at: int| 0 <= at < store@.entries.len() && is_live(store@.entries[at]) && e == entry_view(#[trigger] store@.entries[at]);
                let r = live_row_rank(store@.entries[at], at);
                assert(cands@.contains(r));
                assert(sorted@.contains(r));
                let k = choose|k: int| 0 <= k < sorted@.len() && sorted@[k] == r;
                assert(out@[k]@ == e);
                assert(entry_views(out@)[k] == e);
            }
        }
        assert forall|a: int, b: int| 0 <= a < b < out@.len() implies (#[trigger] out@[a])@.updated_at
            >= (#[trigger] out@[b])@.updated_at by {
            lemma_list_order(out@[a]@, out@[b]@);
        }
    }
    out
}


// ---- search ------------------------------------------------------------------

/// The most results a search returns.
pub const SEARCH_LIMIT: usize = 20;

/// Where a hit for `q` goes: title hits before body-only hits, then newest
/// update first.
pub open spec fn search_rank(e: EntryView, q: Seq<char>) -> Rank {
    Rank {
        group: if contains_folded(e.title, q) { 1 } else { 0 },
        time: e.updated_at,
        id: e.id,
        at: 0,
    }
}

pub open spec fn search_row_rank(r: EntryRowView, q: Seq<char>, k: int) -> Rank {
    Rank {
        group: if contains_folded(r.title, q) { 1 } else { 0 },
        time: r.updated_at,
        id: r.id,
        at: k as usize,
    }
}

/// The row holds `q` in its title or body, up to ASCII case.
pub open spec fn row_matches(r: EntryRowView, q: Seq<char>) -> bool {
    contains_folded(r.title, q) || contains_folded(r.body, q)
}

impl StoreView {
    /// Some live row shown as `e` holds `q` in its title or body.
    pub open spec fn has_hit(self, e: EntryView, q: Seq<char>) -> bool {
        exists|k: int|
            0 <= k < self.entries.len() && is_live(self.entries[k]) && row_matches(self.entries[k], q)
                && e == entry_view(#[trigger] self.entries[k])
    }
}

/// The message SQLite gives for a `LIKE` pattern over its size limit.
pub open spec fn pattern_too_complex_message() -> Seq<char> {
    "LIKE or GLOB pattern too complex"@
}

impl StoreView {
    /// Some entry is live.
    pub open spec fn has_live_row(self) -> bool {
        exists|k: int| 0 <= k < self.entries.len() && is_live(#[trigger] self.entries[k])
    }
}

/// Search live entries by title/body: the trimmed query is looked for as a
/// literal run of characters (ASCII case-insensitive, `%`, `_` and `\` taken
/// literally), title hits first, then most recently updated, at most 20.
/// An empty or all-whitespace query finds nothing. A query whose pattern
/// (`%`, the escaped query, `%`) is over SQLite's `LIKE` size limit is an
/// error as soon as there is a live entry to match it against.
pub fn search_entries(store: &Store, query: &str) -> (r: Result<Vec<Entry>, AppError>)
    requires
        store.wf(),
    ensures
        ({
            let q = trimmed(query@);
            &&& r is Err <==> (q.len() > 0 && utf8_len(contains_pattern(q)) > LIKE_PATTERN_MAX_BYTES
                && store@.has_live_row())
            &&& r matches Err(e) ==> e.0@ == pattern_too_complex_message()
            &&& r matches Ok(out) ==> {
                &&& q.len() == 0 ==> out@.len() == 0
                &&& q.len() > 0 ==> {
                    &&& out@.len() <= SEARCH_LIMIT
                    &&& forall|i: int, j: int|
                        0 <= i < j < out@.len() ==> before(
                            search_rank(#[trigger] out@[i]@, q),
                            search_rank(#[trigger] out@[j]@, q),
                        )
                    &&& forall|e: EntryView| entry_views(out@).contains(e) ==> store@.has_hit(e, q)
                    &&& forall|e: EntryView|
                        store@.has_hit(e, q) && !entry_views(out@).contains(e) ==> {
                            &&& out@.len() == SEARCH_LIMIT
                            &&& forall|i: int|
                                0 <= i < out@.len() ==> before(
                                    search_rank(#[trigger] out@[i]@, q),
                                    search_rank(e, q),
                                )
                        }
                    &&& forall|i: int, j: int|
                        0 <= i < j < out@.len() ==> {
                            &&& contains_folded((#[trigger] out@[j])@.title, q) ==> contains_folded(
                                (#[trigger] out@[i])@.title,
                                q,
                            )
                            &&& contains_folded(out@[i]@.title, q) == contains_folded(out@[j]@.title, q)
                                ==> out@[i]@.updated_at >= out@[j]@.updated_at
                        }
                    &&& forall|e: EntryView, i: int|
                        #![trigger store@.has_hit(e, q), out@[i]]
                        store@.has_hit(e, q) && !entry_views(out@).contains(e) && 0 <= i < out@.len() ==> {
                            &&& contains_folded(e.title, q) ==> contains_folded(out@[i]@.title, q)
                            &&& contains_folded(out@[i]@.title, q) == contains_folded(e.title, q)
                                ==> out@[i]@.updated_at >= e.updated_at
                        }
                }
            }
        }),
{
    let qc = chars_of(query);
    let q = trim(&qc);
    if q.len() == 0 {
        return Ok(Vec::new());
    }
    let pat = make_contains_pattern(&q);
    let too_long = exceeds_like_limit(&pat);
    let ghost qv = q@;
    let n = store.entries.len();
    let mut cands: Vec<Rank> = Vec::new();
    let mut i: usize = 0;
    while i < n
        invariant
            n == store.entries@.len(),
            i <= n,
            store.wf(),
            pat@ == contains_pattern(qv),
            qv == trimmed(query@),
            qv.len() > 0,
            too_long == (utf8_len(pat@) > LIKE_PATTERN_MAX_BYTES),
            too_long ==> forall|k: int| 0 <= k < i ==> !is_live(#[trigger] store@.entries[k]),
            distinct_ids(cands@),
            forall|k: int| 0 <= k < cands@.len() ==> (#[trigger] cands@[k]).at < i,
            forall|r: Rank|
                cands@.contains(r) <==> (0 <= r.at < i && is_live(store@.entries[r.at as int])
                    && row_matches(store@.entries[r.at as int], qv)
                    && r == search_row_rank(store@.entries[r.at as int], qv, r.at as int)),
        decreases n - i,
    {
        let row = &store.entries[i];
        let ghost old_c = cands@;
        assert(store@.entries[i as int] == row@);
        let live = row.deleted_at.is_none();
        let mut hit = false;
        let mut title_hit = false;
        if live {
            if too_long {
                let e = AppError::new("LIKE or GLOB pattern too complex");
                proof {
                    assert(is_live(store@.entries[i as int]));
                }
                return Err(e);
            }
            let tc = chars_of(&row.title);
            title_hit = like_match(&tc, &pat);
            proof {
                lemma_contains_pattern_is_literal(row.title@, qv);
            }
            if title_hit {
                hit = true;
            } else {
                let bc = chars_of(&row.body);
                hit = like_match(&bc, &pat);
                proof {
                    lemma_contains_pattern_is_literal(row.body@, qv);
                }
            }
        }
        let r = Rank { group: if title_hit { 1 } else { 0 }, time: row.updated_at, id: row.id, at: i };
        if live && hit {
            assert(r == search_row_rank(row@, qv, i as int));
            proof {
                assert forall|k: int| 0 <= k < cands@.len() implies (#[trigger] cands@[k]).id != r.id by {
                    assert(cands@.contains(cands@[k]));
                    let a = cands@[k].at;
                    assert(store@.entries[a as int].id < store@.entries[i as int].id);
                }
            }
            cands.push(r);
        }
        proof {
            assert(hit == (live && row_matches(row@, qv)));
            assert forall|x: Rank|
                cands@.contains(x) <==> (0 <= x.at < i + 1 && is_live(store@.entries[x.at as int])
                    && row_matches(store@.entries[x.at as int], qv)
                    && x == search_row_rank(store@.entries[x.at as int], qv, x.at as int)) by {
                if cands@.contains(x) {
                    let k = choose|k: int| 0 <= k < cands@.len() && cands@[k] == x;
                    if k < old_c.len() {
                        assert(old_c[k] == x);
                        assert(old_c.contains(x));
                    }
                }
                if 0 <= x.at < i + 1 && is_live(store@.entries[x.at as int])
                    && row_matches(store@.entries[x.at as int], qv)
                    && x == search_row_rank(store@.entries[x.at as int], qv, x.at as int) {
                    if x.at < i {
                        assert(old_c.contains(x));
                        let k = choose|k: int| 0 <= k < old_c.len() && old_c[k] == x;
                        assert(cands@[k] == x);
                    } else {
                        assert(x == r);
                        assert(cands@[old_c.len() as int] == x);
                    }
                }
            }
            assert forall|k: int| 0 <= k < cands@.len() implies (#[trigger] cands@[k]).at < i + 1 by {
                if k < old_c.len() {
                    assert(old_c[k] == cands@[k]);
                }
            }
        }
        i = i + 1;
    }
    let sorted = sort_ranks(&cands);
    let m = sorted.len();
    proof {
        assert forall|k: int| 0 <= k < m implies (#[trigger] sorted@[k]) == search_row_rank(
            store@.entries[sorted@[k].at as int],
            qv,
            sorted@[k].at as int,
        ) && is_live(store@.entries[sorted@[k].at as int])
            && row_matches(store@.entries[sorted@[k].at as int], qv) && sorted@[k].at < n by {
            assert(sorted@.contains(sorted@[k]));
        }
    }
    let take = if m < SEARCH_LIMIT {
        m
    } else {
        SEARCH_LIMIT
    };
    let mut out: Vec<Entry> = Vec::new();
    let mut j: usize = 0;
    while j < take
        invariant
            m == sorted@.len(),
            take <= m,
            n == store.entries@.len(),
            forall|k: int| 0 <= k < m ==> (#[trigger] sorted@[k]).at < n,
            j <= take,
            out@.len() == j,
            forall|k: int|
                0 <= k < j ==> #[trigger] out@[k]@ == entry_view(store@.entries[sorted@[k].at as int]),
        decreases take - j,
    {
        out.push(show_entry(&store.entries[sorted[j].at]));
        j = j + 1;
    }
    proof {
        assert forall|a: int, b: int| 0 <= a < b < out@.len() implies before(
            search_rank(#[trigger] out@[a]@, qv),
            search_rank(#[trigger] out@[b]@, qv),
        ) by {
            assert(before(sorted@[a], sorted@[b]));
        }
        assert forall|e: EntryView| entry_views(out@).contains(e) implies store@.has_hit(e, qv) by {
            let k = choose|k: int| 0 <= k < entry_views(out@).len() && entry_views(out@)[k] == e;
            let at = sorted@[k].at as int;
            assert(e == entry_view(store@.entries[at]));
        }
        assert forall|e: EntryView|
            store@.has_hit(e, qv) && !entry_views(out@).contains(e) implies {
                &&& out@.len() == SEARCH_LIMIT
                &&& forall|i: int|
                    0 <= i < out@.len() ==> before(
                        search_rank(#[trigger] out@[i]@, qv),
                        search_rank(e, qv),
                    )
            } by {
            let at = choose|at: int|
                0 <= at < store@.entries.len() && is_live(store@.entries[at]) && row_matches(store@.entries[at], qv)
                    && e == entry_view(#[trigger] store@.entries[at]);
            let r = search_row_rank(store@.entries[at], qv, at);
            assert(cands@.contains(r));
            assert(sorted@.contains(r));
            let k = choose|k: int| 0 <= k < sorted@.len() && sorted@[k] == r;
            if k < take {
                assert(out@[k]@ == e);
                assert(entry_views(out@)[k] == e);
            }
            assert(k >= take);
            assert forall|i: int| 0 <= i < out@.len() implies before(
                search_rank(#[trigger] out@[i]@, qv),
                search_rank(e, qv),
            ) by {
                assert(before(sorted@[i], sorted@[k]));
            }
        }
        assert forall|i: int, j: int| 0 <= i < j < out@.len() implies {
            &&& contains_folded((#[trigger] out@[j])@.title, qv) ==> contains_folded((#[trigger] out@[i])@.title, qv)
            &&& contains_folded(out@[i]@.title, qv) == contains_folded(out@[j]@.title, qv)
                ==> out@[i]@.updated_at >= out@[j]@.updated_at
        } by {
            lemma_search_order(out@[i]@, out@[j]@, qv);
        }
        assert forall|e: EntryView, i: int|
            #![trigger store@.has_hit(e, qv), out@[i]]
            store@.has_hit(e, qv) && !entry_views(out@).contains(e) && 0 <= i < out@.len() implies {
                &&& contains_folded(e.title, qv) ==> contains_folded(out@[i]@.title, qv)
                &&& contains_folded(out@[i]@.title, qv) == contains_folded(e.title, qv)
                    ==> out@[i]@.updated_at >= e.updated_at
            } by {
            lemma_search_order(out@[i]@, e, qv);
        }
    }
    Ok(out)
}

/// Search order: a title hit comes before a body-only hit, and of two hits
/// of the same kind the more recently updated comes first.
pub proof fn lemma_search_order(a: EntryView, b: EntryView, q: Seq<char>)
    requires
        before(search_rank(a, q), search_rank(b, q)),
    ensures
        contains_folded(b.title, q) ==> contains_folded(a.title, q),
        contains_folded(a.title, q) == contains_folded(b.title, q) ==> a.updated_at >= b.updated_at,
{
}


// ---- trash -------------------------------------------------------------------

/// How a trashed row is shown.
pub open spec fn trashed_view(r: EntryRowView) -> TrashedView {
    TrashedView { id: r.id, title: r.title, body: r.body, deleted_at: r.deleted_at.unwrap() }
}

/// Where a trashed entry goes: most recently deleted first.
pub open spec fn trash_rank(t: TrashedView) -> Rank {
    Rank { group: 0, time: t.deleted_at, id: t.id, at: 0 }
}

pub open spec fn trash_row_rank(r: EntryRowView, k: int) -> Rank {
    Rank { group: 0, time: r.deleted_at.unwrap(), id: r.id, at: k as usize }
}

pub open spec fn trashed_views(s: Seq<TrashedEntry>) -> Seq<TrashedView> {
    s.map_values(|t: TrashedEntry| t@)
}

impl StoreView {
    /// Some trashed row is shown as `t`.
    pub open spec fn has_trashed(self, t: TrashedView) -> bool {
        exists|k: int|
            0 <= k < self.entries.len() && self.entries[k].deleted_at is Some
                && t == trashed_view(#[trigger] self.entries[k])
    }
}

/// Trash order: of two trashed entries, the one listed first was deleted no
/// earlier than the other.
pub proof fn lemma_trash_order(a: TrashedView, b: TrashedView)
    requires
        before(trash_rank(a), trash_rank(b)),
    ensures
        a.deleted_at >= b.deleted_at,
{
}

fn show_trashed(r: &EntryRow) -> (t: TrashedEntry)
    requires
        r.deleted_at is Some,
    ensures
        t@ == trashed_view(r@),
{
    TrashedEntry {
        id: r.id,
        title: clone_string(&r.title),
        body: clone_string(&r.body),
        deleted_at: r.deleted_at.unwrap(),
    }
}

/// Soft-deleted entries, most recently deleted first (ties: lower id first).
pub fn list_trash(store: &Store) -> (out: Vec<TrashedEntry>)
    requires
        store.wf(),
    ensures
        forall|i: int, j: int|
            0 <= i < j < out@.len() ==> before(
                trash_rank(#[trigger] out@[i]@),
                trash_rank(#[trigger] out@[j]@),
            ),
        forall|t: TrashedView| trashed_views(out@).contains(t) <==> store@.has_trashed(t),
        forall|i: int, j: int|
            0 <= i < j < out@.len() ==> (#[trigger] out@[i])@.deleted_at >= (#[trigger] out@[j])@.deleted_at,
{
    let n = store.entries.len();
    let mut cands: Vec<Rank> = Vec::new();
    let mut i: usize = 0;
    while i < n
        invariant
            n == store.entries@.len(),
            i <= n,
            store.wf(),
            distinct_ids(cands@),
            forall|k: int| 0 <= k < cands@.len() ==> (#[trigger] cands@[k]).at < i,
            forall|r: Rank|
                cands@.contains(r) <==> (0 <= r.at < i && store@.entries[r.at as int].deleted_at is Some
                    && r == trash_row_rank(store@.entries[r.at as int], r.at as int)),
        decreases n - i,
    {
        let row = &store.entries[i];
        let ghost old_c = cands@;
        assert(store@.entries[i as int] == row@);
        let trashed = row.deleted_at.is_some();
        if trashed {
            let r = Rank { group: 0, time: row.deleted_at.unwrap(), id: row.id, at: i };
            proof {
                assert forall|k: int| 0 <= k < cands@.len() implies (#[trigger] cands@[k]).id != r.id by {
                    assert(cands@.contains(cands@[k]));
                    let a = cands@[k].at;
                    assert(store@.entries[a as int].id < store@.entries[i as int].id);
                }
            }
            cands.push(r);
            proof {
                assert forall|x: Rank|
                    cands@.contains(x) <==> (0 <= x.at < i + 1 && store@.entries[x.at as int].deleted_at is Some
                        && x == trash_row_rank(store@.entries[x.at as int], x.at as int)) by {
                    if cands@.contains(x) {
                        let k = choose|k: int| 0 <= k < cands@.len() && cands@[k] == x;
                        if k < old_c.len() {
                            assert(old_c[k] == x);
                            assert(old_c.contains(x));
                        }
                    }
                    if 0 <= x.at < i + 1 && store@.entries[x.at as int].deleted_at is Some
                        && x == trash_row_rank(store@.entries[x.at as int], x.at as int) {
                        if x.at < i {
                            assert(old_c.contains(x));
                            let k = choose|k: int| 0 <= k < old_c.len() && old_c[k] == x;
                            assert(cands@[k] == x);
                        } else {
                            assert(x == r);
                            assert(cands@[old_c.len() as int] == x);
                        }
                    }
                }
            }
        }
        proof {
            assert forall|x: Rank|
                cands@.contains(x) <==> (0 <= x.at < i + 1 && store@.entries[x.at as int].deleted_at is Some
                    && x == trash_row_rank(store@.entries[x.at as int], x.at as int)) by {
                if !trashed && 0 <= x.at < i + 1 && store@.entries[x.at as int].deleted_at is Some
                    && x == trash_row_rank(store@.entries[x.at as int], x.at as int) {
                    assert(x.at < i);
                }
            }
            assert forall|k: int| 0 <= k < cands@.len() implies (#[trigger] cands@[k]).at < i + 1 by {
                if k < old_c.len() {
                    assert(old_c[k] == cands@[k]);
                }
            }
        }
        i = i + 1;
    }
    let sorted = sort_ranks(&cands);
    let m = sorted.len();
    proof {
        assert forall|k: int| 0 <= k < m implies (#[trigger] sorted@[k]) == trash_row_rank(
            store@.entries[sorted@[k].at as int],
            sorted@[k].at as int,
        ) && store@.entries[sorted@[k].at as int].deleted_at is Some && sorted@[k].at < n by {
            assert(sorted@.contains(sorted@[k]));
        }
    }
    let mut out: Vec<TrashedEntry> = Vec::new();
    let mut j: usize = 0;
    while j < m
        invariant
            m == sorted@.len(),
            n == store.entries@.len(),
            forall|k: int| 0 <= k < m ==> (#[trigger] sorted@[k]).at < n,
            forall|k: int| 0 <= k < m ==> store@.entries[(#[trigger] sorted@[k]).at as int].deleted_at is Some,
            j <= m,
            out@.len() == j,
            forall|k: int|
                0 <= k < j ==> #[trigger] out@[k]@ == trashed_view(store@.entries[sorted@[k].at as int]),
        decreases m - j,
    {
        let at = sorted[j].at;
        assert(store@.entries[at as int] == store.entries@[at as int]@);
        out.push(show_trashed(&store.entries[at]));
        j = j + 1;
    }
    proof {
        assert forall|a: int, b: int| 0 <= a < b < out@.len() implies before(
            trash_rank(#[trigger] out@[a]@),
            trash_rank(#[trigger] out@[b]@),
        ) by {
            assert(before(sorted@[a], sorted@[b]));
        }
        assert forall|a: int, b: int| 0 <= a < b < out@.len() implies (#[trigger] out@[a])@.deleted_at
            >= (#[trigger] out@[b])@.deleted_at by {
            lemma_trash_order(out@[a]@, out@[b]@);
        }
        assert forall|t: TrashedView| trashed_views(out@).contains(t) <==> store@.has_trashed(t) by {
            if trashed_views(out@).contains(t) {
                let k = choose|k: int| 0 <= k < trashed_views(out@).len() && trashed_views(out@)[k] == t;
                let at = sorted@[k].at as int;
                assert(t == trashed_view(store@.entries[at]));
            }
            if store@.has_trashed(t) {
                let at = choose|at: int|
                    0 <= at < store@.entries.len() && store@.entries[at].deleted_at is Some
                        && t == trashed_view(#[trigger] store@.entries[at]);
                let r = trash_row_rank(store@.entries[at], at);
                assert(cands@.contains(r));
                assert(sorted@.contains(r));
                let k = choose|k: int| 0 <= k < sorted@.len() && sorted@[k] == r;
                assert(out@[k]@ == t);
                assert(trashed_views(out@)[k] == t);
            }
        }
    }
    out
}

// ---- version history ---------------------------------------------------------

/// The versions of entry `eid` in `vs`, newest (highest id) first.
pub open spec fn history(vs: Seq<VersionRowView>, eid: i64) -> Seq<VersionView>
    decreases vs.len(),
{
    if vs.len() == 0 {
        Seq::empty()
    } else if vs.last().entry_id == eid {
        seq![version_view(vs.last())] + history(vs.drop_last(), eid)
    } else {
        history(vs.drop_last(), eid)
    }
}

pub open spec fn version_views(s: Seq<EntryVersion>) -> Seq<VersionView> {
    s.map_values(|v: EntryVersion| v@)
}

fn show_version(r: &VersionRow) -> (v: EntryVersion)
    ensures
        v@ == version_view(r@),
{
    EntryVersion {
        id: r.id,
        title: clone_string(&r.title),
        body: clone_string(&r.body),
        saved_at: r.saved_at,
    }
}

/// Previous versions of an entry, newest first (the time machine).
pub fn list_versions(store: &Store, entry_id: i64) -> (out: Vec<EntryVersion>)
    requires
        store.wf(),
    ensures
        version_views(out@) == history(store@.versions, entry_id),
{
    let n = store.versions.len();
    let ghost vs = store@.versions;
    let mut out: Vec<EntryVersion> = Vec::new();
    let mut i: usize = n;
    assert(vs.take(n as int) =~= vs);
    while i > 0
        invariant
            n == store.versions@.len(),
            vs == store@.versions,
            i <= n,
            history(vs, entry_id) =~= version_views(out@) + history(vs.take(i as int), entry_id),
        decreases i,
    {
        let row = &store.versions[i - 1];
        assert(vs[i - 1] == row@);
        let ghost pre = vs.take(i as int);
        assert(pre.drop_last() =~= vs.take(i - 1));
        assert(pre.last() == row@);
        if row.entry_id == entry_id {
            let ghost before_push = out@;
            out.push(show_version(row));
            assert(version_views(out@) =~= version_views(before_push).push(version_view(row@)));
        }
        i = i - 1;
    }
    assert(vs.take(0) =~= Seq::<VersionRowView>::empty());
    out
}

// ---- recents -----------------------------------------------------------------

/// How many entries the recents view shows.
pub const RECENT_LIMIT: usize = 3;

/// The latest time something was pasted from entry `id`, if ever.
pub open spec fn last_paste(ps: Seq<PasteRowView>, id: i64) -> Option<i64>
    decreases ps.len(),
{
    if ps.len() == 0 {
        None
    } else {
        let rest = last_paste(ps.drop_last(), id);
        if ps.last().entry_id == Some(id) {
            match rest {
                None => Some(ps.last().pasted_at),
                Some(t) => Some(if t > ps.last().pasted_at { t } else { ps.last().pasted_at }),
            }
        } else {
            rest
        }
    }
}

impl StoreView {
    /// Where a recently used entry goes: latest paste first.
    pub open spec fn recent_rank(self, e: EntryView) -> Rank {
        Rank { group: 0, time: last_paste(self.pastes, e.id).unwrap(), id: e.id, at: 0 }
    }

    pub open spec fn recent_row_rank(self, k: int) -> Rank {
        Rank {
            group: 0,
            time: last_paste(self.pastes, self.entries[k].id).unwrap(),
            id: self.entries[k].id,
            at: k as usize,
        }
    }

    /// Some live row shown as `e` has been pasted from.
    pub open spec fn has_recent(self, e: EntryView) -> bool {
        exists|k: int|
            0 <= k < self.entries.len() && is_live(self.entries[k])
                && last_paste(self.pastes, self.entries[k].id) is Some
                && e == entry_view(#[trigger] self.entries[k])
    }
}

fn last_paste_of(store: &Store, id: i64) -> (t: Option<i64>)
    requires
        store.wf(),
    ensures
        t == last_paste(store@.pastes, id),
{
    let n = store.pastes.len();
    let ghost ps = store@.pastes;
    let mut acc: Option<i64> = None;
    let mut i: usize = 0;
    assert(ps.take(0) =~= Seq::<PasteRowView>::empty());
    while i < n
        invariant
            n == store.pastes@.len(),
            ps == store@.pastes,
            i <= n,
            acc == last_paste(ps.take(i as int), id),
        decreases n - i,
    {
        let p = &store.pastes[i];
        assert(ps[i as int] == p@);
        let ghost t = ps.take(i + 1);
        assert(t.drop_last() =~= ps.take(i as int));
        assert(t.last() == p@);
        if p.entry_id == Some(id) {
            acc = match acc {
                None => Some(p.pasted_at),
                Some(a) => Some(if a > p.pasted_at { a } else { p.pasted_at }),
            };
        }
        i = i + 1;
    }
    assert(ps.take(n as int) =~= ps);
    acc
}

/// The empty-search view of the lookup window: the last three distinct live
/// entries something was pasted from, most recently used first (ties: lower
/// id first). Trashed entries never appear.
pub fn recent_topics(store: &Store) -> (out: Vec<Entry>)
    requires
        store.wf(),
    ensures
        out@.len() <= RECENT_LIMIT,
        forall|i: int, j: int|
            0 <= i < j < out@.len() ==> before(
                store@.recent_rank(#[trigger] out@[i]@),
                store@.recent_rank(#[trigger] out@[j]@),
            ),
        forall|e: EntryView| entry_views(out@).contains(e) ==> store@.has_recent(e),
        forall|e: EntryView|
            store@.has_recent(e) && !entry_views(out@).contains(e) ==> {
                &&& out@.len() == RECENT_LIMIT
                &&& forall|i: int|
                    0 <= i < out@.len() ==> before(
                        store@.recent_rank(#[trigger] out@[i]@),
                        store@.recent_rank(e),
                    )
            },
{
    let n = store.entries.len();
    let mut cands: Vec<Rank> = Vec::new();
    let mut i: usize = 0;
    while i < n
        invariant
            n == store.entries@.len(),
            i <= n,
            store.wf(),
            distinct_ids(cands@),
            forall|k: int| 0 <= k < cands@.len() ==> (#[trigger] cands@[k]).at < i,
            forall|r: Rank|
                cands@.contains(r) <==> (0 <= r.at < i && is_live(store@.entries[r.at as int])
                    && last_paste(store@.pastes, store@.entries[r.at as int].id) is Some
                    && r == store@.recent_row_rank(r.at as int)),
        decreases n - i,
    {
        let row = &store.entries[i];
        let ghost old_c = cands@;
        assert(store@.entries[i as int] == row@);
        let live = row.deleted_at.is_none();
        let last = if live {
            last_paste_of(store, row.id)
        } else {
            None
        };
        if live && last.is_some() {
            let r = Rank { group: 0, time: last.unwrap(), id: row.id, at: i };
            assert(r == store@.recent_row_rank(i as int));
            proof {
                assert forall|k: int| 0 <= k < cands@.len() implies (#[trigger] cands@[k]).id != r.id by {
                    assert(cands@.contains(cands@[k]));
                    let a = cands@[k].at;
                    assert(store@.entries[a as int].id < store@.entries[i as int].id);
                }
            }
            cands.push(r);
        }
        proof {
            assert forall|x: Rank|
                cands@.contains(x) <==> (0 <= x.at < i + 1 && is_live(store@.entries[x.at as int])
                    && last_paste(store@.pastes, store@.entries[x.at as int].id) is Some
                    && x == store@.recent_row_rank(x.at as int)) by {
                if cands@.contains(x) {
                    let k = choose|k: int| 0 <= k < cands@.len() && cands@[k] == x;
                    if k < old_c.len() {
                        assert(old_c[k] == x);
                        assert(old_c.contains(x));
                    }
                }
                if 0 <= x.at < i + 1 && is_live(store@.entries[x.at as int])
                    && last_paste(store@.pastes, store@.entries[x.at as int].id) is Some
                    && x == store@.recent_row_rank(x.at as int) {
                    if x.at < i {
                        assert(old_c.contains(x));
                        let k = choose|k: int| 0 <= k < old_c.len() && old_c[k] == x;
                        assert(cands@[k] == x);
                    } else {
                        assert(cands@[old_c.len() as int] == x);
                    }
                }
            }
            assert forall|k: int| 0 <= k < cands@.len() implies (#[trigger] cands@[k]).at < i + 1 by {
                if k < old_c.len() {
                    assert(old_c[k] == cands@[k]);
                }
            }
        }
        i = i + 1;
    }
    let sorted = sort_ranks(&cands);
    let m = sorted.len();
    proof {
        assert forall|k: int| 0 <= k < m implies (#[trigger] sorted@[k]) == store@.recent_row_rank(
            sorted@[k].at as int,
        ) && is_live(store@.entries[sorted@[k].at as int])
            && last_paste(store@.pastes, store@.entries[sorted@[k].at as int].id) is Some
            && sorted@[k].at < n by {
            assert(sorted@.contains(sorted@[k]));
        }
    }
    let take = if m < RECENT_LIMIT {
        m
    } else {
        RECENT_LIMIT
    };
    let mut out: Vec<Entry> = Vec::new();
    let mut j: usize = 0;
    while j < take
        invariant
            m == sorted@.len(),
            take <= m,
            n == store.entries@.len(),
            forall|k: int| 0 <= k < m ==> (#[trigger] sorted@[k]).at < n,
            j <= take,
            out@.len() == j,
            forall|k: int|
                0 <= k < j ==> #[trigger] out@[k]@ == entry_view(store@.entries[sorted@[k].at as int]),
        decreases take - j,
    {
        out.push(show_entry(&store.entries[sorted[j].at]));
        j = j + 1;
    }
    proof {
        assert forall|a: int, b: int| 0 <= a < b < out@.len() implies before(
            store@.recent_rank(#[trigger] out@[a]@),
            store@.recent_rank(#[trigger] out@[b]@),
        ) by {
            assert(before(sorted@[a], sorted@[b]));
        }
        assert forall|e: EntryView| entry_views(out@).contains(e) implies store@.has_recent(e) by {
            let k = choose|k: int| 0 <= k < entry_views(out@).len() && entry_views(out@)[k] == e;
            let at = sorted@[k].at as int;
            assert(e == entry_view(store@.entries[at]));
        }
        assert forall|e: EntryView|
            store@.has_recent(e) && !entry_views(out@).contains(e) implies {
                &&& out@.len() == RECENT_LIMIT
                &&& forall|i: int|
                    0 <= i < out@.len() ==> before(
                        store@.recent_rank(#[trigger] out@[i]@),
                        store@.recent_rank(e),
                    )
            } by {
            let at = choose|at: int|
                0 <= at < store@.entries.len() && is_live(store@.entries[at])
                    && last_paste(store@.pastes, store@.entries[at].id) is Some
                    && e == entry_view(#[trigger] store@.entries[at]);
            let r = store@.recent_row_rank(at);
            assert(cands@.contains(r));
            assert(sorted@.contains(r));
            let k = choose|k: int| 0 <= k < sorted@.len() && sorted@[k] == r;
            if k < take {
                assert(out@[k]@ == e);
                assert(entry_views(out@)[k] == e);
            }
            assert forall|i: int| 0 <= i < out@.len() implies before(
                store@.recent_rank(#[trigger] out@[i]@),
                store@.recent_rank(e),
            ) by {
                assert(before(sorted@[i], sorted@[k]));
            }
        }
    }
    out
}


// ---- editing entries -----------------------------------------------------------

/// How many previous versions are kept per entry.
pub const HISTORY_CAP: usize = 50;

impl StoreView {
    /// The row with id `id`, if any.
    pub open spec fn entry_with_id(self, id: i64) -> Option<EntryRowView> {
        if exists|k: int| 0 <= k < self.entries.len() && #[trigger] self.entries[k].id == id {
            Some(self.entries[choose|k: int| 0 <= k < self.entries.len() && #[trigger] self.entries[k].id == id])
        } else {
            None
        }
    }

    /// Saving `title` and `body` over entry `id` changes its content, so
    /// the outgoing version is kept.
    pub open spec fn snapshot_needed(self, id: i64, title: Seq<char>, body: Seq<char>) -> bool {
        match self.entry_with_id(id) {
            Some(r) => r.title != title || r.body != body,
            None => false,
        }
    }

    /// The store after entry `id` was saved with `title` and `body` at `now`:
    /// the outgoing content becomes a version (only on a real change), the
    /// entry takes the new content and time, and the entry's history keeps
    /// its newest `HISTORY_CAP` versions.
    pub open spec fn with_entry_updated(self, id: i64, title: Seq<char>, body: Seq<char>, now: i64) -> StoreView {
        let snap = self.snapshot_needed(id, title, body);
        let vid = (self.version_seq + 1) as i64;
        let versions = if snap {
            let r = self.entry_with_id(id).unwrap();
            self.versions.push(
                VersionRowView { id: vid, entry_id: id, title: r.title, body: r.body, saved_at: r.updated_at },
            )
        } else {
            self.versions
        };
        StoreView {
            entries: self.entries.map_values(
                |r: EntryRowView|
                    if r.id == id {
                        EntryRowView { title, body, updated_at: now, ..r }
                    } else {
                        r
                    },
            ),
            versions: cap_history(versions, id, HISTORY_CAP as nat),
            version_seq: if snap { vid } else { self.version_seq },
            ..self
        }
    }

    /// The store after entry `id` was moved to the trash at `now`.
    pub open spec fn with_entry_trashed(self, id: i64, now: i64) -> StoreView {
        StoreView {
            entries: self.entries.map_values(
                |r: EntryRowView|
                    if r.id == id {
                        EntryRowView { deleted_at: Some(now), ..r }
                    } else {
                        r
                    },
            ),
            ..self
        }
    }

    /// The store after entry `id` was taken out of the trash.
    pub open spec fn with_entry_restored(self, id: i64) -> StoreView {
        StoreView {
            entries: self.entries.map_values(
                |r: EntryRowView|
                    if r.id == id {
                        EntryRowView { deleted_at: None, ..r }
                    } else {
                        r
                    },
            ),
            ..self
        }
    }
}

/// `vs` with the versions of entry `eid` cut down to the newest `keep`
/// (the ones with the highest ids); other entries' versions stay.
pub open spec fn cap_history(vs: Seq<VersionRowView>, eid: i64, keep: nat) -> Seq<VersionRowView>
    decreases vs.len(),
{
    if vs.len() == 0 {
        vs
    } else if vs.last().entry_id == eid {
        if keep > 0 {
            cap_history(vs.drop_last(), eid, (keep - 1) as nat).push(vs.last())
        } else {
            cap_history(vs.drop_last(), eid, 0)
        }
    } else {
        cap_history(vs.drop_last(), eid, keep).push(vs.last())
    }
}

proof fn lemma_cap_history_sub(vs: Seq<VersionRowView>, eid: i64, keep: nat)
    ensures
        forall|i: int| 0 <= i < cap_history(vs, eid, keep).len() ==> vs.contains(#[trigger] cap_history(vs, eid, keep)[i]),
        version_ids_ascending(vs) ==> version_ids_ascending(cap_history(vs, eid, keep)),
    decreases vs.len(),
{
    if vs.len() > 0 {
        let d = vs.drop_last();
        let k2: nat = if vs.last().entry_id == eid && keep > 0 {
            (keep - 1) as nat
        } else {
            keep
        };
        lemma_cap_history_sub(d, eid, k2);
        let c = cap_history(d, eid, k2);
        let cc = cap_history(vs, eid, keep);
        let pushed = vs.last().entry_id != eid || keep > 0;
        assert(pushed ==> cc == c.push(vs.last()));
        assert(!pushed ==> cc == c);
        assert forall|i: int| 0 <= i < cc.len() implies vs.contains(#[trigger] cc[i]) by {
            if i < c.len() {
                assert(cc[i] == c[i]);
                assert(d.contains(c[i]));
                let j = choose|j: int| 0 <= j < d.len() && d[j] == c[i];
                assert(vs[j] == cc[i]);
            } else {
                assert(vs[vs.len() - 1] == cc[i]);
            }
        }
        if version_ids_ascending(vs) {
            assert(version_ids_ascending(d));
            assert forall|i: int, j: int| 0 <= i < j < cc.len() implies (#[trigger] cc[i]).id < (#[trigger] cc[j]).id by {
                if j < c.len() {
                    assert(cc[i] == c[i] && cc[j] == c[j]);
                } else {
                    assert(cc[i] == c[i]);
                    assert(d.contains(c[i]));
                    let a = choose|a: int| 0 <= a < d.len() && d[a] == c[i];
                    assert(vs[a] == c[i]);
                    assert(cc[j] == vs[vs.len() - 1]);
                }
            }
        }
    }
}

/// Cuts the versions of entry `eid` down to the newest `HISTORY_CAP`.
fn cap_versions(versions: Vec<VersionRow>, eid: i64) -> (out: Vec<VersionRow>)
    ensures
        out@.map_values(|r: VersionRow| r@) == cap_history(
            versions@.map_values(|r: VersionRow| r@),
            eid,
            HISTORY_CAP as nat,
        ),
{
    let ghost vs = versions@.map_values(|r: VersionRow| r@);
    let ghost mut suffix: Seq<VersionRowView> = Seq::empty();
    let mut rest = versions;
    let mut rev: Vec<VersionRow> = Vec::new();
    let mut budget: usize = HISTORY_CAP;
    assert(vs.take(vs.len() as int) =~= vs);
    while rest.len() > 0
        invariant
            rest@.len() <= vs.len(),
            rest@.map_values(|r: VersionRow| r@) =~= vs.take(rest@.len() as int),
            cap_history(vs, eid, HISTORY_CAP as nat) =~= cap_history(
                vs.take(rest@.len() as int),
                eid,
                budget as nat,
            ) + suffix,
            rev@.len() == suffix.len(),
            forall|k: int| 0 <= k < rev@.len() ==> #[trigger] rev@[k]@ == suffix[suffix.len() - 1 - k],
        decreases rest@.len(),
    {
        let ghost n = rest@.len() as int;
        let ghost pre = vs.take(n);
        let row = rest.pop().unwrap();
        proof {
            assert(pre.drop_last() =~= vs.take(n - 1));
            assert(pre.last() == row@);
            assert(rest@.map_values(|r: VersionRow| r@) =~= vs.take(n - 1));
        }
        if row.entry_id == eid {
            if budget > 0 {
                proof {
                    suffix = seq![row@] + suffix;
                }
                rev.push(row);
                budget = budget - 1;
            }
        } else {
            proof {
                suffix = seq![row@] + suffix;
            }
            rev.push(row);
        }
    }
    assert(vs.take(0) =~= Seq::<VersionRowView>::empty());
    assert(cap_history(vs.take(0), eid, budget as nat) =~= Seq::<VersionRowView>::empty());
    let mut out: Vec<VersionRow> = Vec::new();
    while rev.len() > 0
        invariant
            rev@.len() + out@.len() == suffix.len(),
            forall|k: int| 0 <= k < rev@.len() ==> #[trigger] rev@[k]@ == suffix[suffix.len() - 1 - k],
            out@.map_values(|r: VersionRow| r@) =~= suffix.take(out@.len() as int),
        decreases rev@.len(),
    {
        let ghost j = out@.len() as int;
        let x = rev.pop().unwrap();
        assert(x@ == suffix[j]);
        out.push(x);
        assert(suffix.take(j + 1) =~= suffix.take(j).push(suffix[j]));
    }
    assert(suffix.take(suffix.len() as int) =~= suffix);
    out
}

/// The position of the entry with id `id`.
fn find_entry(store: &Store, id: i64) -> (k: Option<usize>)
    requires
        store.wf(),
    ensures
        match k {
            Some(k) => k < store@.entries.len() && store@.entries[k as int].id == id
                && store@.entry_with_id(id) == Some(store@.entries[k as int]),
            None => store@.entry_with_id(id) is None
                && forall|j: int| 0 <= j < store@.entries.len() ==> #[trigger] store@.entries[j].id != id,
        },
{
    let n = store.entries.len();
    let mut i: usize = 0;
    while i < n
        invariant
            n == store@.entries.len(),
            n == store.entries@.len(),
            store.wf(),
            i <= n,
            forall|j: int| 0 <= j < i ==> #[trigger] store@.entries[j].id != id,
        decreases n - i,
    {
        assert(store@.entries[i as int] == store.entries@[i as int]@);
        if store.entries[i].id == id {
            proof {
                assert(store@.entries[i as int].id == id);
                let c = choose|k: int| 0 <= k < store@.entries.len() && #[trigger] store@.entries[k].id == id;
                if c != i {
                    if c < i {
                        assert(store@.entries[c].id < store@.entries[i as int].id);
                    } else {
                        assert(store@.entries[i as int].id < store@.entries[c].id);
                    }
                }
            }
            return Some(i);
        }
        i = i + 1;
    }
    None
}

proof fn lemma_only_row(rows: Seq<EntryRowView>, k: int, id: i64)
    requires
        entry_ids_ascending(rows),
        0 <= k < rows.len(),
        rows[k].id == id,
    ensures
        forall|j: int| 0 <= j < rows.len() && j != k ==> #[trigger] rows[j].id != id,
{
    assert forall|j: int| 0 <= j < rows.len() && j != k implies #[trigger] rows[j].id != id by {
        if j < k {
            assert(rows[j].id < rows[k].id);
        } else {
            assert(rows[k].id < rows[j].id);
        }
    }
}

/// Saves `title` and `body` over entry `id` at `now`. The outgoing content is
/// kept as a version first, but only when it actually changes, and the
/// entry's history is capped at its newest 50 versions. A trashed entry is
/// updated the same way; an unknown id changes nothing but the cap. Fails,
/// changing nothing, when a version is due and the history table has handed
/// out the largest id there is.
pub fn update_entry(store: &mut Store, id: i64, title: &str, body: &str, now: i64) -> (r: Result<(), AppError>)
    requires
        old(store).wf(),
    ensures
        final(store).wf(),
        match r {
            Ok(()) => {
                &&& !(old(store)@.snapshot_needed(id, title@, body@) && old(store)@.version_seq == i64::MAX)
                &&& final(store)@ == old(store)@.with_entry_updated(id, title@, body@, now)
            },
            Err(e) => {
                &&& old(store)@.snapshot_needed(id, title@, body@)
                &&& old(store)@.version_seq == i64::MAX
                &&& e.0@ == full_message()
                &&& final(store)@ == old(store)@
            },
        },
{
    let ghost s0 = store@;
    let found = find_entry(store, id);
    match found {
        Some(k) => {
            let t = String::from_str(title);
            let b = String::from_str(body);
            let changed = !(store.entries[k].title == t) || !(store.entries[k].body == b);
            assert(store@.entries[k as int] == store.entries@[k as int]@);
            assert(changed == s0.snapshot_needed(id, title@, body@));
            if changed {
                if store.version_seq == i64::MAX {
                    let e = AppError::new("database or disk is full");
                    proof {
                        reveal_strlit("database or disk is full");
                    }
                    return Err(e);
                }
                let vid = store.version_seq + 1;
                let snap = VersionRow {
                    id: vid,
                    entry_id: id,
                    title: clone_string(&store.entries[k].title),
                    body: clone_string(&store.entries[k].body),
                    saved_at: store.entries[k].updated_at,
                };
                store.versions.push(snap);
                store.version_seq = vid;
            }
            let old_row = &store.entries[k];
            let new_row = EntryRow {
                id: old_row.id,
                title: t,
                body: b,
                created_at: old_row.created_at,
                updated_at: now,
                deleted_at: old_row.deleted_at,
            };
            store.entries.set(k, new_row);
            proof {
                lemma_only_row(s0.entries, k as int, id);
            }
        },
        None => {},
    }
    let ghost mid = store@;
    assert(mid.entries =~= s0.with_entry_updated(id, title@, body@, now).entries);
    let mut vs: Vec<VersionRow> = Vec::new();
    std::mem::swap(&mut vs, &mut store.versions);
    let capped = cap_versions(vs, id);
    store.versions = capped;
    proof {
        let pushed = if s0.snapshot_needed(id, title@, body@) {
            let r = s0.entry_with_id(id).unwrap();
            s0.versions.push(
                VersionRowView { id: (s0.version_seq + 1) as i64, entry_id: id, title: r.title, body: r.body, saved_at: r.updated_at },
            )
        } else {
            s0.versions
        };
        assert(mid.versions =~= pushed);
        assert(version_ids_ascending(pushed)) by {
            if s0.snapshot_needed(id, title@, body@) {
                assert forall|i: int| 0 <= i < s0.versions.len() implies #[trigger] s0.versions[i].id < s0.version_seq + 1 by {}
            }
        }
        lemma_cap_history_sub(pushed, id, HISTORY_CAP as nat);
        assert(store@.versions == cap_history(pushed, id, HISTORY_CAP as nat));
        assert forall|i: int| 0 <= i < store@.versions.len() implies #[trigger] store@.versions[i].id <= store@.version_seq by {
            assert(pushed.contains(store@.versions[i]));
            let j = choose|j: int| 0 <= j < pushed.len() && pushed[j] == store@.versions[i];
        }
        assert(store@ =~= s0.with_entry_updated(id, title@, body@, now));
    }
    Ok(())
}

/// Moves entry `id` to the trash at `now` (soft delete: the row and its
/// history stay until the 90-day purge). Trashing an entry that is already
/// in the trash restamps it; an unknown id changes nothing.
pub fn delete_entry(store: &mut Store, id: i64, now: i64)
    requires
        old(store).wf(),
    ensures
        final(store).wf(),
        final(store)@ == old(store)@.with_entry_trashed(id, now),
{
    let ghost s0 = store@;
    match find_entry(store, id) {
        Some(k) => {
            let old_row = &store.entries[k];
            let new_row = EntryRow {
                id: old_row.id,
                title: clone_string(&old_row.title),
                body: clone_string(&old_row.body),
                created_at: old_row.created_at,
                updated_at: old_row.updated_at,
                deleted_at: Some(now),
            };
            assert(s0.entries[k as int] == store.entries@[k as int]@);
            store.entries.set(k, new_row);
            proof {
                lemma_only_row(s0.entries, k as int, id);
            }
        },
        None => {},
    }
    assert(store@.entries =~= s0.with_entry_trashed(id, now).entries);
    assert(store@ =~= s0.with_entry_trashed(id, now));
}

/// Brings entry `id` back from the trash; an unknown id changes nothing.
pub fn restore_entry(store: &mut Store, id: i64)
    requires
        old(store).wf(),
    ensures
        final(store).wf(),
        final(store)@ == old(store)@.with_entry_restored(id),
{
    let ghost s0 = store@;
    match find_entry(store, id) {
        Some(k) => {
            let old_row = &store.entries[k];
            let new_row = EntryRow {
                id: old_row.id,
                title: clone_string(&old_row.title),
                body: clone_string(&old_row.body),
                created_at: old_row.created_at,
                updated_at: old_row.updated_at,
                deleted_at: None,
            };
            assert(s0.entries[k as int] == store.entries@[k as int]@);
            store.entries.set(k, new_row);
            proof {
                lemma_only_row(s0.entries, k as int, id);
            }
        },
        None => {},
    }
    assert(store@.entries =~= s0.with_entry_restored(id).entries);
    assert(store@ =~= s0.with_entry_restored(id));
}


// ---- paste log ---------------------------------------------------------------

/// How many pastes the log keeps.
pub const PASTE_CAP: usize = 100;

/// The last `n` rows of `ps` (all of them when there are fewer).
pub open spec fn keep_last<T>(ps: Seq<T>, n: nat) -> Seq<T> {
    if ps.len() > n {
        ps.skip(ps.len() - n)
    } else {
        ps
    }
}

impl StoreView {
    /// The store after a paste of `text` from `entry_id` was logged at `now`,
    /// keeping the newest `PASTE_CAP` rows.
    pub open spec fn with_paste_recorded(self, entry_id: Option<i64>, text: Seq<char>, now: i64) -> StoreView {
        let pid = (self.paste_seq + 1) as i64;
        StoreView {
            pastes: keep_last(
                self.pastes.push(PasteRowView { id: pid, entry_id, text, pasted_at: now }),
                PASTE_CAP as nat,
            ),
            paste_seq: pid,
            ..self
        }
    }
}

/// Logs a successful paste for the recents view, keeping the 100 most recent
/// rows. Fails, changing nothing, once the log has handed out the largest id
/// there is.
pub fn record_paste(store: &mut Store, entry_id: Option<i64>, text: &str, now: i64) -> (r: Result<(), AppError>)
    requires
        old(store).wf(),
    ensures
        final(store).wf(),
        match r {
            Ok(()) => {
                &&& old(store)@.paste_seq < i64::MAX
                &&& final(store)@ == old(store)@.with_paste_recorded(entry_id, text@, now)
            },
            Err(e) => {
                &&& old(store)@.paste_seq == i64::MAX
                &&& e.0@ == full_message()
                &&& final(store)@ == old(store)@
            },
        },
{
    if store.paste_seq == i64::MAX {
        let e = AppError::new("database or disk is full");
        proof {
            reveal_strlit("database or disk is full");
        }
        return Err(e);
    }
    let ghost s0 = store@;
    let pid = store.paste_seq + 1;
    store.pastes.push(PasteRow { id: pid, entry_id, text: String::from_str(text), pasted_at: now });
    store.paste_seq = pid;
    let ghost pushed = store.pastes@;
    let len = store.pastes.len();
    if len > PASTE_CAP {
        let kept = store.pastes.split_off(len - PASTE_CAP);
        store.pastes = kept;
        assert(store.pastes@ =~= pushed.skip(len - PASTE_CAP));
    }
    proof {
        let pv = s0.pastes.push(PasteRowView { id: pid, entry_id, text: text@, pasted_at: now });
        assert(pushed.map_values(|r: PasteRow| r@) =~= pv);
        assert(store@.pastes =~= keep_last(pv, PASTE_CAP as nat));
        assert(paste_ids_ascending(pv)) by {
            assert forall|i: int| 0 <= i < s0.pastes.len() implies #[trigger] s0.pastes[i].id < pid by {}
        }
        assert(store@ =~= s0.with_paste_recorded(entry_id, text@, now));
    }
    Ok(())
}

// ---- settings ----------------------------------------------------------------

/// The value stored under `key`, if any.
pub fn setting(store: &Store, key: &str) -> (r: Option<String>)
    requires
        store.wf(),
    ensures
        match r {
            Some(v) => store@.settings.contains_key(key@) && v@ == store@.settings[key@],
            None => !store@.settings.contains_key(key@),
        },
{
    let k = String::from_str(key);
    let n = store.settings.len();
    let ghost rows = store.settings@;
    let mut i: usize = n;
    assert(rows.take(n as int) =~= rows);
    while i > 0
        invariant
            rows == store.settings@,
            n == rows.len(),
            i <= n,
            k@ == key@,
            settings_map(rows).contains_key(key@) == settings_map(rows.take(i as int)).contains_key(key@),
            settings_map(rows).contains_key(key@) ==> settings_map(rows)[key@] == settings_map(rows.take(i as int))[key@],
        decreases i,
    {
        let row = &store.settings[i - 1];
        let ghost t = rows.take(i as int);
        assert(t.drop_last() =~= rows.take(i - 1));
        assert(t.last() == *row);
        if row.key == k {
            return Some(clone_string(&row.value));
        }
        i = i - 1;
    }
    assert(rows.take(0) =~= Seq::<SettingRow>::empty());
    None
}

/// The settings rows of `rows` without `key`.
fn settings_without(rows: &Vec<SettingRow>, key: &String) -> (out: Vec<SettingRow>)
    ensures
        settings_map(out@) == settings_map(rows@).remove(key@),
        forall|i: int| 0 <= i < out@.len() ==> (#[trigger] out@[i]).key@ != key@,
{
    let n = rows.len();
    let mut out: Vec<SettingRow> = Vec::new();
    let mut i: usize = 0;
    assert(rows@.take(0) =~= Seq::<SettingRow>::empty());
    assert(settings_map(Seq::<SettingRow>::empty()).remove(key@) =~= Map::<Seq<char>, Seq<char>>::empty());
    while i < n
        invariant
            n == rows@.len(),
            i <= n,
            settings_map(out@) =~= settings_map(rows@.take(i as int)).remove(key@),
            forall|j: int| 0 <= j < out@.len() ==> (#[trigger] out@[j]).key@ != key@,
        decreases n - i,
    {
        let row = &rows[i];
        let ghost t = rows@.take(i + 1);
        assert(t.drop_last() =~= rows@.take(i as int));
        assert(t.last() == *row);
        if !(row.key == *key) {
            let ghost before_push = out@;
            out.push(SettingRow { key: clone_string(&row.key), value: clone_string(&row.value) });
            assert(out@.drop_last() =~= before_push);
        }
        i = i + 1;
    }
    assert(rows@.take(n as int) =~= rows@);
    out
}

/// Stores `value` under `key`, replacing any previous value.
pub fn set_setting(store: &mut Store, key: &str, value: &str)
    requires
        old(store).wf(),
    ensures
        final(store).wf(),
        final(store)@ == (StoreView { settings: old(store)@.settings.insert(key@, value@), ..old(store)@ }),
{
    let ghost s0 = store@;
    let k = String::from_str(key);
    let mut rows = settings_without(&store.settings, &k);
    let ghost before_push = rows@;
    rows.push(SettingRow { key: k, value: String::from_str(value) });
    assert(rows@.drop_last() =~= before_push);
    store.settings = rows;
    assert(store@.settings =~= s0.settings.insert(key@, value@));
    assert(store@ =~= (StoreView { settings: s0.settings.insert(key@, value@), ..s0 }));
}

/// Removes `key` from the settings.
pub fn remove_setting(store: &mut Store, key: &str)
    requires
        old(store).wf(),
    ensures
        final(store).wf(),
        final(store)@ == (StoreView { settings: old(store)@.settings.remove(key@), ..old(store)@ }),
{
    let ghost s0 = store@;
    let k = String::from_str(key);
    let rows = settings_without(&store.settings, &k);
    store.settings = rows;
    assert(store@ =~= (StoreView { settings: s0.settings.remove(key@), ..s0 }));
}

/// Stores `value` under `key` unless `key` already has a value.
pub fn set_setting_if_absent(store: &mut Store, key: &str, value: &str)
    requires
        old(store).wf(),
    ensures
        final(store).wf(),
        old(store)@.settings.contains_key(key@) ==> final(store)@ == old(store)@,
        !old(store)@.settings.contains_key(key@) ==> final(store)@ == (StoreView {
            settings: old(store)@.settings.insert(key@, value@),
            ..old(store)@
        }),
{
    if setting(store, key).is_none() {
        set_setting(store, key, value);
    }
}

// ---- the 90-day trash purge ----------------------------------------------------

/// How long an entry stays in the trash: 90 days, in seconds.
pub const TRASH_RETENTION_SECS: i64 = 7776000;

/// The row has been in the trash for longer than the retention at `now`.
pub open spec fn expired(r: EntryRowView, now: i64) -> bool {
    match r.deleted_at {
        Some(d) => d < now - TRASH_RETENTION_SECS,
        None => false,
    }
}

/// The rows of `rows` that are not expired at `now`, in order.
pub open spec fn unexpired(rows: Seq<EntryRowView>, now: i64) -> Seq<EntryRowView>
    decreases rows.len(),
{
    if rows.len() == 0 {
        rows
    } else if expired(rows.last(), now) {
        unexpired(rows.drop_last(), now)
    } else {
        unexpired(rows.drop_last(), now).push(rows.last())
    }
}

/// Some expired row of `rows` has id `eid`.
pub open spec fn expired_id(rows: Seq<EntryRowView>, eid: i64, now: i64) -> bool {
    exists|k: int| 0 <= k < rows.len() && #[trigger] rows[k].id == eid && expired(rows[k], now)
}

/// The versions of `vs` whose entry does not expire.
pub open spec fn surviving_versions(vs: Seq<VersionRowView>, rows: Seq<EntryRowView>, now: i64) -> Seq<VersionRowView>
    decreases vs.len(),
{
    if vs.len() == 0 {
        vs
    } else if expired_id(rows, vs.last().entry_id, now) {
        surviving_versions(vs.drop_last(), rows, now)
    } else {
        surviving_versions(vs.drop_last(), rows, now).push(vs.last())
    }
}

impl StoreView {
    /// The store after the trash was emptied of everything older than 90
    /// days at `now`, version history included.
    pub open spec fn swept(self, now: i64) -> StoreView {
        StoreView {
            entries: unexpired(self.entries, now),
            versions: surviving_versions(self.versions, self.entries, now),
            ..self
        }
    }
}

proof fn lemma_unexpired_sub(rows: Seq<EntryRowView>, now: i64)
    ensures
        forall|i: int| 0 <= i < unexpired(rows, now).len() ==> rows.contains(#[trigger] unexpired(rows, now)[i]),
        entry_ids_ascending(rows) ==> entry_ids_ascending(unexpired(rows, now)),
    decreases rows.len(),
{
    if rows.len() > 0 {
        let d = rows.drop_last();
        lemma_unexpired_sub(d, now);
        let c = unexpired(d, now);
        let cc = unexpired(rows, now);
        assert(!expired(rows.last(), now) ==> cc == c.push(rows.last()));
        assert(expired(rows.last(), now) ==> cc == c);
        assert forall|i: int| 0 <= i < cc.len() implies rows.contains(#[trigger] cc[i]) by {
            if i < c.len() {
                assert(cc[i] == c[i]);
                assert(d.contains(c[i]));
                let j = choose|j: int| 0 <= j < d.len() && d[j] == c[i];
                assert(rows[j] == cc[i]);
            } else {
                assert(rows[rows.len() - 1] == cc[i]);
            }
        }
        if entry_ids_ascending(rows) {
            assert(entry_ids_ascending(d));
            assert forall|i: int, j: int| 0 <= i < j < cc.len() implies (#[trigger] cc[i]).id < (#[trigger] cc[j]).id by {
                if j < c.len() {
                    assert(cc[i] == c[i] && cc[j] == c[j]);
                } else {
                    assert(cc[i] == c[i]);
                    assert(d.contains(c[i]));
                    let a = choose|a: int| 0 <= a < d.len() && d[a] == c[i];
                    assert(rows[a] == c[i]);
                    assert(cc[j] == rows[rows.len() - 1]);
                }
            }
        }
    }
}

proof fn lemma_surviving_sub(vs: Seq<VersionRowView>, rows: Seq<EntryRowView>, now: i64)
    ensures
        forall|i: int| 0 <= i < surviving_versions(vs, rows, now).len() ==> vs.contains(#[trigger] surviving_versions(vs, rows, now)[i]),
        version_ids_ascending(vs) ==> version_ids_ascending(surviving_versions(vs, rows, now)),
    decreases vs.len(),
{
    if vs.len() > 0 {
        let d = vs.drop_last();
        lemma_surviving_sub(d, rows, now);
        let c = surviving_versions(d, rows, now);
        let cc = surviving_versions(vs, rows, now);
        let gone = expired_id(rows, vs.last().entry_id, now);
        assert(!gone ==> cc == c.push(vs.last()));
        assert(gone ==> cc == c);
        assert forall|i: int| 0 <= i < cc.len() implies vs.contains(#[trigger] cc[i]) by {
            if i < c.len() {
                assert(cc[i] == c[i]);
                assert(d.contains(c[i]));
                let j = choose|j: int| 0 <= j < d.len() && d[j] == c[i];
                assert(vs[j] == cc[i]);
            } else {
                assert(vs[vs.len() - 1] == cc[i]);
            }
        }
        if version_ids_ascending(vs) {
            assert(version_ids_ascending(d));
            assert forall|i: int, j: int| 0 <= i < j < cc.len() implies (#[trigger] cc[i]).id < (#[trigger] cc[j]).id by {
                if j < c.len() {
                    assert(cc[i] == c[i] && cc[j] == c[j]);
                } else {
                    assert(cc[i] == c[i]);
                    assert(d.contains(c[i]));
                    let a = choose|a: int| 0 <= a < d.len() && d[a] == c[i];
                    assert(vs[a] == c[i]);
                    assert(cc[j] == vs[vs.len() - 1]);
                }
            }
        }
    }
}

fn clone_entry_row(r: &EntryRow) -> (c: EntryRow)
    ensures
        c@ == r@,
{
    EntryRow {
        id: r.id,
        title: clone_string(&r.title),
        body: clone_string(&r.body),
        created_at: r.created_at,
        updated_at: r.updated_at,
        deleted_at: r.deleted_at,
    }
}

fn clone_version_row(r: &VersionRow) -> (c: VersionRow)
    ensures
        c@ == r@,
{
    VersionRow {
        id: r.id,
        entry_id: r.entry_id,
        title: clone_string(&r.title),
        body: clone_string(&r.body),
        saved_at: r.saved_at,
    }
}

fn is_expired(r: &EntryRow, now: i64) -> (b: bool)
    ensures
        b == expired(r@, now),
{
    match r.deleted_at {
        Some(d) => (d as i128) < (now as i128) - (TRASH_RETENTION_SECS as i128),
        None => false,
    }
}

/// Empties the trash for real: entries trashed more than 90 days before
/// `now` are removed, together with their version history. Live entries and
/// younger trash stay.
pub fn sweep_trash(store: &mut Store, now: i64)
    requires
        old(store).wf(),
    ensures
        final(store).wf(),
        final(store)@ == old(store)@.swept(now),
{
    let ghost s0 = store@;
    let ghost rows = s0.entries;
    let n = store.entries.len();
    // Ids of the rows that expire.
    let mut gone: Vec<i64> = Vec::new();
    let mut kept: Vec<EntryRow> = Vec::new();
    let mut i: usize = 0;
    assert(rows.take(0) =~= Seq::<EntryRowView>::empty());
    while i < n
        invariant
            n == store.entries@.len(),
            rows == store@.entries,
            i <= n,
            kept@.map_values(|r: EntryRow| r@) =~= unexpired(rows.take(i as int), now),
            forall|g: i64| gone@.contains(g) <==> expired_id(rows.take(i as int), g, now),
        decreases n - i,
    {
        let row = &store.entries[i];
        assert(rows[i as int] == row@);
        let ghost t = rows.take(i + 1);
        assert(t.drop_last() =~= rows.take(i as int));
        assert(t.last() == row@);
        let ghost old_gone = gone@;
        if is_expired(row, now) {
            gone.push(row.id);
        } else {
            kept.push(clone_entry_row(row));
        }
        proof {
            assert forall|g: i64| gone@.contains(g) <==> expired_id(t, g, now) by {
                if gone@.contains(g) {
                    let a = choose|a: int| 0 <= a < gone@.len() && gone@[a] == g;
                    if a < old_gone.len() {
                        assert(old_gone[a] == g);
                        assert(old_gone.contains(g));
                        let k = choose|k: int| 0 <= k < rows.take(i as int).len() && #[trigger] rows.take(i as int)[k].id == g && expired(rows.take(i as int)[k], now);
                        assert(t[k] == rows.take(i as int)[k]);
                    } else {
                        assert(t[i as int].id == g);
                    }
                }
                if expired_id(t, g, now) {
                    let k = choose|k: int| 0 <= k < t.len() && #[trigger] t[k].id == g && expired(t[k], now);
                    if k < i {
                        assert(rows.take(i as int)[k] == t[k]);
                        assert(expired_id(rows.take(i as int), g, now));
                        assert(old_gone.contains(g));
                        let a = choose|a: int| 0 <= a < old_gone.len() && old_gone[a] == g;
                        assert(gone@[a] == g);
                    } else {
                        assert(gone@[gone@.len() - 1] == g);
                    }
                }
            }
        }
        i = i + 1;
    }
    assert(rows.take(n as int) =~= rows);
    let m = store.versions.len();
    let ghost vs = s0.versions;
    let mut vkept: Vec<VersionRow> = Vec::new();
    let mut j: usize = 0;
    assert(vs.take(0) =~= Seq::<VersionRowView>::empty());
    while j < m
        invariant
            m == store.versions@.len(),
            vs == store@.versions,
            j <= m,
            vkept@.map_values(|r: VersionRow| r@) =~= surviving_versions(vs.take(j as int), rows, now),
            forall|g: i64| gone@.contains(g) <==> expired_id(rows, g, now),
        decreases m - j,
    {
        let v = &store.versions[j];
        assert(vs[j as int] == v@);
        let ghost t = vs.take(j + 1);
        assert(t.drop_last() =~= vs.take(j as int));
        assert(t.last() == v@);
        // Is the version's entry among the expired ones?
        let glen = gone.len();
        let mut hit = false;
        let mut q: usize = 0;
        while q < glen
            invariant
                glen == gone@.len(),
                q <= glen,
                hit == gone@.take(q as int).contains(v.entry_id),
            decreases glen - q,
        {
            proof {
                let a = gone@.take(q as int);
                let b = gone@.take(q + 1);
                assert forall|x: i64| b.contains(x) <==> (a.contains(x) || x == gone@[q as int]) by {
                    if b.contains(x) {
                        let k = choose|k: int| 0 <= k < b.len() && b[k] == x;
                        if k < q {
                            assert(a[k] == x);
                        }
                    }
                    if a.contains(x) {
                        let k = choose|k: int| 0 <= k < a.len() && a[k] == x;
                        assert(b[k] == x);
                    }
                    if x == gone@[q as int] {
                        assert(b[q as int] == x);
                    }
                }
            }
            if gone[q] == v.entry_id {
                hit = true;
            }
            q = q + 1;
        }
        assert(gone@.take(glen as int) =~= gone@);
        if !hit {
            vkept.push(clone_version_row(v));
        }
        j = j + 1;
    }
    assert(vs.take(m as int) =~= vs);
    store.entries = kept;
    store.versions = vkept;
    proof {
        lemma_unexpired_sub(rows, now);
        lemma_surviving_sub(vs, rows, now);
        assert forall|i: int| 0 <= i < store@.entries.len() implies #[trigger] store@.entries[i].id <= store@.entry_seq by {
            assert(rows.contains(store@.entries[i]));
        }
        assert forall|i: int| 0 <= i < store@.versions.len() implies #[trigger] store@.versions[i].id <= store@.version_seq by {
            assert(vs.contains(store@.versions[i]));
        }
        assert(store@ =~= s0.swept(now));
    }
}


// ---- loading, saving and restoring a backup --------------------------------------

/// The largest id handed out after `rows` were inserted with their own ids
/// into a table that had handed out `seq`.
pub open spec fn entry_seq_after(seq: i64, rows: Seq<EntryRowView>) -> i64 {
    if rows.len() > 0 && rows.last().id > seq {
        rows.last().id
    } else {
        seq
    }
}

pub open spec fn version_seq_after(seq: i64, rows: Seq<VersionRowView>) -> i64 {
    if rows.len() > 0 && rows.last().id > seq {
        rows.last().id
    } else {
        seq
    }
}

pub open spec fn paste_seq_after(seq: i64, rows: Seq<PasteRowView>) -> i64 {
    if rows.len() > 0 && rows.last().id > seq {
        rows.last().id
    } else {
        seq
    }
}

pub open spec fn entry_row_views(v: Seq<EntryRow>) -> Seq<EntryRowView> {
    v.map_values(|r: EntryRow| r@)
}

pub open spec fn version_row_views(v: Seq<VersionRow>) -> Seq<VersionRowView> {
    v.map_values(|r: VersionRow| r@)
}

pub open spec fn paste_row_views(v: Seq<PasteRow>) -> Seq<PasteRowView> {
    v.map_values(|r: PasteRow| r@)
}

fn entries_ascending(v: &Vec<EntryRow>) -> (b: bool)
    ensures
        b == entry_ids_ascending(entry_row_views(v@)),
{
    let ghost s = entry_row_views(v@);
    let n = v.len();
    let mut i: usize = 1;
    if n == 0 {
        return true;
    }
    assert(s.take(1).len() == 1);
    while i < n
        invariant
            n == v@.len(),
            s == entry_row_views(v@),
            1 <= i <= n,
            entry_ids_ascending(s.take(i as int)),
        decreases n - i,
    {
        assert(s[i - 1] == v@[i - 1]@ && s[i as int] == v@[i as int]@);
        if v[i - 1].id >= v[i].id {
            assert(!entry_ids_ascending(s));
            return false;
        }
        assert forall|a: int, b: int| 0 <= a < b < i + 1 implies (#[trigger] s.take(i + 1)[a]).id < (#[trigger] s.take(i + 1)[b]).id by {
            if b < i {
                assert(s.take(i as int)[a] == s[a] && s.take(i as int)[b] == s[b]);
            } else if a < i - 1 {
                assert(s.take(i as int)[a] == s[a] && s.take(i as int)[i - 1] == s[i - 1]);
            }
        }
        i = i + 1;
    }
    assert(s.take(n as int) =~= s);
    true
}

fn versions_ascending(v: &Vec<VersionRow>) -> (b: bool)
    ensures
        b == version_ids_ascending(version_row_views(v@)),
{
    let ghost s = version_row_views(v@);
    let n = v.len();
    let mut i: usize = 1;
    if n == 0 {
        return true;
    }
    assert(s.take(1).len() == 1);
    while i < n
        invariant
            n == v@.len(),
            s == version_row_views(v@),
            1 <= i <= n,
            version_ids_ascending(s.take(i as int)),
        decreases n - i,
    {
        assert(s[i - 1] == v@[i - 1]@ && s[i as int] == v@[i as int]@);
        if v[i - 1].id >= v[i].id {
            assert(!version_ids_ascending(s));
            return false;
        }
        assert forall|a: int, b: int| 0 <= a < b < i + 1 implies (#[trigger] s.take(i + 1)[a]).id < (#[trigger] s.take(i + 1)[b]).id by {
            if b < i {
                assert(s.take(i as int)[a] == s[a] && s.take(i as int)[b] == s[b]);
            } else if a < i - 1 {
                assert(s.take(i as int)[a] == s[a] && s.take(i as int)[i - 1] == s[i - 1]);
            }
        }
        i = i + 1;
    }
    assert(s.take(n as int) =~= s);
    true
}

fn pastes_ascending(v: &Vec<PasteRow>) -> (b: bool)
    ensures
        b == paste_ids_ascending(paste_row_views(v@)),
{
    let ghost s = paste_row_views(v@);
    let n = v.len();
    let mut i: usize = 1;
    if n == 0 {
        return true;
    }
    assert(s.take(1).len() == 1);
    while i < n
        invariant
            n == v@.len(),
            s == paste_row_views(v@),
            1 <= i <= n,
            paste_ids_ascending(s.take(i as int)),
        decreases n - i,
    {
        assert(s[i - 1] == v@[i - 1]@ && s[i as int] == v@[i as int]@);
        if v[i - 1].id >= v[i].id {
            assert(!paste_ids_ascending(s));
            return false;
        }
        assert forall|a: int, b: int| 0 <= a < b < i + 1 implies (#[trigger] s.take(i + 1)[a]).id < (#[trigger] s.take(i + 1)[b]).id by {
            if b < i {
                assert(s.take(i as int)[a] == s[a] && s.take(i as int)[b] == s[b]);
            } else if a < i - 1 {
                assert(s.take(i as int)[a] == s[a] && s.take(i as int)[i - 1] == s[i - 1]);
            }
        }
        i = i + 1;
    }
    assert(s.take(n as int) =~= s);
    true
}

fn raise_seq(seq: i64, last: Option<i64>) -> (r: i64)
    ensures
        r == match last {
            Some(l) => if l > seq { l } else { seq },
            None => seq,
        },
{
    match last {
        Some(l) => if l > seq {
            l
        } else {
            seq
        },
        None => seq,
    }
}

fn last_entry_id(v: &Vec<EntryRow>) -> (r: Option<i64>)
    ensures
        r == (if v@.len() > 0 { Some(v@.last().id) } else { None::<i64> }),
{
    if v.len() > 0 {
        Some(v[v.len() - 1].id)
    } else {
        None
    }
}

fn last_version_id(v: &Vec<VersionRow>) -> (r: Option<i64>)
    ensures
        r == (if v@.len() > 0 { Some(v@.last().id) } else { None::<i64> }),
{
    if v.len() > 0 {
        Some(v[v.len() - 1].id)
    } else {
        None
    }
}

fn last_paste_id(v: &Vec<PasteRow>) -> (r: Option<i64>)
    ensures
        r == (if v@.len() > 0 { Some(v@.last().id) } else { None::<i64> }),
{
    if v.len() > 0 {
        Some(v[v.len() - 1].id)
    } else {
        None
    }
}

/// The message SQLite gives when a table would hold an id twice.
pub open spec fn duplicate_message(table: Seq<char>) -> Seq<char> {
    "UNIQUE constraint failed: "@ + table + ".id"@
}

fn duplicate_error(table: &str) -> (e: AppError)
    ensures
        e.0@ == duplicate_message(table@),
{
    let mut m = String::from_str("UNIQUE constraint failed: ");
    m.append(table);
    m.append(".id");
    proof {
        reveal_strlit("UNIQUE constraint failed: ");
        reveal_strlit(".id");
    }
    AppError(m)
}

impl Store {
    /// A store holding the given tables (each read `ORDER BY id`, so its
    /// rows come in id order) and the largest ids each table handed out (0
    /// for a table that never handed one out). A table that holds an id
    /// twice is refused.
    pub fn load(
        entries: Vec<EntryRow>,
        versions: Vec<VersionRow>,
        pastes: Vec<PasteRow>,
        settings: Vec<SettingRow>,
        entry_seq: i64,
        version_seq: i64,
        paste_seq: i64,
    ) -> (r: Result<Store, AppError>)
        requires
            entry_ids_in_order(entry_row_views(entries@)),
            version_ids_in_order(version_row_views(versions@)),
            paste_ids_in_order(paste_row_views(pastes@)),
        ensures
            match r {
                Ok(s) => {
                    &&& entry_ids_distinct(entry_row_views(entries@))
                    &&& version_ids_distinct(version_row_views(versions@))
                    &&& paste_ids_distinct(paste_row_views(pastes@))
                    &&& s.wf()
                    &&& s@ == (StoreView {
                        entries: entry_row_views(entries@),
                        versions: version_row_views(versions@),
                        pastes: paste_row_views(pastes@),
                        settings: settings_map(settings@),
                        entry_seq: entry_seq_after(entry_seq, entry_row_views(entries@)),
                        version_seq: version_seq_after(version_seq, version_row_views(versions@)),
                        paste_seq: paste_seq_after(paste_seq, paste_row_views(pastes@)),
                    })
                },
                Err(e) => {
                    ||| !entry_ids_distinct(entry_row_views(entries@)) && e.0@ == duplicate_message("entries"@)
                    ||| !version_ids_distinct(version_row_views(versions@)) && e.0@ == duplicate_message("entry_versions"@)
                    ||| !paste_ids_distinct(paste_row_views(pastes@)) && e.0@ == duplicate_message("paste_history"@)
                },
            },
    {
        if !entries_ascending(&entries) {
            proof { reveal_strlit("entries"); }
            return Err(duplicate_error("entries"));
        }
        if !versions_ascending(&versions) {
            proof { reveal_strlit("entry_versions"); }
            return Err(duplicate_error("entry_versions"));
        }
        if !pastes_ascending(&pastes) {
            proof { reveal_strlit("paste_history"); }
            return Err(duplicate_error("paste_history"));
        }
        let es = raise_seq(entry_seq, last_entry_id(&entries));
        let vsq = raise_seq(version_seq, last_version_id(&versions));
        let psq = raise_seq(paste_seq, last_paste_id(&pastes));
        let s = Store { entries, versions, pastes, settings, entry_seq: es, version_seq: vsq, paste_seq: psq };
        proof {
            let ev = entry_row_views(s.entries@);
            let vv = version_row_views(s.versions@);
            let pv = paste_row_views(s.pastes@);
            assert forall|i: int| 0 <= i < ev.len() implies #[trigger] ev[i].id <= es by {
                if i < ev.len() - 1 {
                    assert(ev[i].id < ev[ev.len() - 1].id);
                }
            }
            assert forall|i: int| 0 <= i < vv.len() implies #[trigger] vv[i].id <= vsq by {
                if i < vv.len() - 1 {
                    assert(vv[i].id < vv[vv.len() - 1].id);
                }
            }
            assert forall|i: int| 0 <= i < pv.len() implies #[trigger] pv[i].id <= psq by {
                if i < pv.len() - 1 {
                    assert(pv[i].id < pv[pv.len() - 1].id);
                }
            }
        }
        Ok(s)
    }

    /// The `entries` rows, in ascending id order.
    pub fn entry_rows(&self) -> (r: &Vec<EntryRow>)
        ensures
            entry_row_views(r@) == self@.entries,
    {
        &self.entries
    }

    /// The `entry_versions` rows, in ascending id order.
    pub fn version_rows(&self) -> (r: &Vec<VersionRow>)
        ensures
            version_row_views(r@) == self@.versions,
    {
        &self.versions
    }

    /// The `paste_history` rows, in ascending id order.
    pub fn paste_rows(&self) -> (r: &Vec<PasteRow>)
        ensures
            paste_row_views(r@) == self@.pastes,
    {
        &self.pastes
    }

    /// The `settings` rows.
    pub fn setting_rows(&self) -> (r: &Vec<SettingRow>)
        ensures
            settings_map(r@) == self@.settings,
    {
        &self.settings
    }

    /// The largest ids that `entries`, `entry_versions` and `paste_history`
    /// handed out.
    pub fn sequences(&self) -> (r: (i64, i64, i64))
        ensures
            r == (self@.entry_seq, self@.version_seq, self@.paste_seq),
    {
        (self.entry_seq, self.version_seq, self.paste_seq)
    }
}

/// What a backup file holds, as read from it.
pub struct BackupSource {
    /// The file has an `entries` table; without one it is no backup.
    pub has_entries_table: bool,
    /// Its `entries` table has the `deleted_at` column (schema 4 on).
    pub has_deleted_at: bool,
    /// The `entries` rows, read `ORDER BY id`.
    pub entries: Vec<EntryRow>,
    /// The `entry_versions` rows, read `ORDER BY id`, when the file has that
    /// table (schema 3 on).
    pub versions: Option<Vec<VersionRow>>,
    /// The `paste_history` rows, read `ORDER BY id`, when the file has that
    /// table (schema 5 on).
    pub pastes: Option<Vec<PasteRow>>,
}

pub struct BackupView {
    pub has_entries_table: bool,
    pub has_deleted_at: bool,
    pub entries: Seq<EntryRowView>,
    pub versions: Option<Seq<VersionRowView>>,
    pub pastes: Option<Seq<PasteRowView>>,
}

impl View for BackupSource {
    type V = BackupView;

    open spec fn view(&self) -> BackupView {
        BackupView {
            has_entries_table: self.has_entries_table,
            has_deleted_at: self.has_deleted_at,
            entries: entry_row_views(self.entries@),
            versions: match self.versions {
                Some(v) => Some(version_row_views(v@)),
                None => None,
            },
            pastes: match self.pastes {
                Some(p) => Some(paste_row_views(p@)),
                None => None,
            },
        }
    }
}

impl BackupView {
    /// The backup's entries as they come back: live when the backup
    /// predates the trash.
    pub open spec fn restored_entries(self) -> Seq<EntryRowView> {
        if self.has_deleted_at {
            self.entries
        } else {
            self.entries.map_values(|r: EntryRowView| EntryRowView { deleted_at: None, ..r })
        }
    }

    pub open spec fn restored_versions(self) -> Seq<VersionRowView> {
        match self.versions {
            Some(v) => v,
            None => Seq::empty(),
        }
    }

    pub open spec fn restored_pastes(self) -> Seq<PasteRowView> {
        match self.pastes {
            Some(p) => p,
            None => Seq::empty(),
        }
    }

    /// Each table's rows come in id order, as reading it `ORDER BY id`
    /// gives them.
    pub open spec fn in_id_order(self) -> bool {
        &&& entry_ids_in_order(self.entries)
        &&& version_ids_in_order(self.restored_versions())
        &&& paste_ids_in_order(self.restored_pastes())
    }

    /// The backup can be restored: it has an `entries` table and no table
    /// of it holds an id twice.
    pub open spec fn acceptable(self) -> bool {
        &&& self.has_entries_table
        &&& entry_ids_distinct(self.entries)
        &&& version_ids_distinct(self.restored_versions())
        &&& paste_ids_distinct(self.restored_pastes())
    }

    /// Why the backup is refused.
    pub open spec fn refusal(self) -> Seq<char> {
        if !self.has_entries_table {
            no_backup_message()
        } else if !entry_ids_distinct(self.entries) {
            duplicate_message("entries"@)
        } else if !version_ids_distinct(self.restored_versions()) {
            duplicate_message("entry_versions"@)
        } else {
            duplicate_message("paste_history"@)
        }
    }
}

pub open spec fn no_backup_message() -> Seq<char> {
    "not a Marie Lookup backup (no entries table)"@
}

impl StoreView {
    /// The store after a restore from `b`: entries, history and pastes are
    /// replaced by the backup's (a table the backup lacks comes back empty);
    /// settings stay.
    pub open spec fn restored(self, b: BackupView) -> StoreView {
        StoreView {
            entries: b.restored_entries(),
            versions: b.restored_versions(),
            pastes: b.restored_pastes(),
            entry_seq: entry_seq_after(self.entry_seq, b.restored_entries()),
            version_seq: version_seq_after(self.version_seq, b.restored_versions()),
            paste_seq: paste_seq_after(self.paste_seq, b.restored_pastes()),
            ..self
        }
    }
}

/// Replaces all entries, their history and the paste log with the ones of
/// the backup `source`, returning the resulting entry count. Version
/// tolerant: a backup without `entry_versions` or `paste_history` clears
/// that table rather than keeping stale local rows, and one without
/// `deleted_at` restores every entry live. Settings are untouched. A file
/// without an `entries` table, or with an id twice in a table, is refused
/// and the store is left as it was. Each table of the backup is read
/// `ORDER BY id`.
pub fn restore_from_backup(store: &mut Store, source: BackupSource) -> (r: Result<i64, AppError>)
    requires
        old(store).wf(),
        source@.in_id_order(),
    ensures
        final(store).wf(),
        match r {
            Ok(count) => {
                &&& source@.acceptable()
                &&& final(store)@ == old(store)@.restored(source@)
                &&& source@.has_deleted_at ==> final(store)@.entries == source@.entries
                &&& source@.versions matches Some(v) ==> final(store)@.versions == v
                &&& source@.versions is None ==> final(store)@.versions.len() == 0
                &&& source@.pastes matches Some(p) ==> final(store)@.pastes == p
                &&& source@.pastes is None ==> final(store)@.pastes.len() == 0
                &&& final(store)@.settings == old(store)@.settings
                &&& count as int == if source@.entries.len() <= i64::MAX { source@.entries.len() as int } else { i64::MAX as int }
            },
            Err(e) => {
                &&& !source@.acceptable()
                &&& e.0@ == source@.refusal()
                &&& final(store)@ == old(store)@
            },
        },
{
    let ghost b = source@;
    proof {
        reveal_strlit("entries");
        reveal_strlit("entry_versions");
        reveal_strlit("paste_history");
    }
    if !source.has_entries_table {
        let e = AppError::new("not a Marie Lookup backup (no entries table)");
        proof {
            reveal_strlit("not a Marie Lookup backup (no entries table)");
        }
        return Err(e);
    }
    if !entries_ascending(&source.entries) {
        return Err(duplicate_error("entries"));
    }
    let BackupSource { has_entries_table, has_deleted_at, entries, versions, pastes } = source;
    let versions = match versions {
        Some(v) => v,
        None => Vec::new(),
    };
    assert(version_row_views(versions@) =~= b.restored_versions());
    if !versions_ascending(&versions) {
        return Err(duplicate_error("entry_versions"));
    }
    let pastes = match pastes {
        Some(p) => p,
        None => Vec::new(),
    };
    assert(paste_row_views(pastes@) =~= b.restored_pastes());
    if !pastes_ascending(&pastes) {
        return Err(duplicate_error("paste_history"));
    }
    let mut entries = entries;
    if !has_deleted_at {
        let n = entries.len();
        let mut i: usize = 0;
        while i < n
            invariant
                n == entries@.len(),
                i <= n,
                b.entries.len() == n,
                forall|k: int| 0 <= k < i ==> #[trigger] entries@[k]@ == (EntryRowView { deleted_at: None, ..b.entries[k] }),
                forall|k: int| i <= k < n ==> #[trigger] entries@[k]@ == b.entries[k],
            decreases n - i,
        {
            assert(entries@[i as int]@ == b.entries[i as int]);
            let r = &entries[i];
            let live = EntryRow {
                id: r.id,
                title: clone_string(&r.title),
                body: clone_string(&r.body),
                created_at: r.created_at,
                updated_at: r.updated_at,
                deleted_at: None,
            };
            entries.set(i, live);
            i = i + 1;
        }
    }
    assert(entry_row_views(entries@) =~= b.restored_entries());
    let count: i64 = if (entries.len() as u64) <= 9223372036854775807u64 {
        entries.len() as i64
    } else {
        i64::MAX
    };
    let ghost s0 = store@;
    store.entry_seq = raise_seq(store.entry_seq, last_entry_id(&entries));
    store.version_seq = raise_seq(store.version_seq, last_version_id(&versions));
    store.paste_seq = raise_seq(store.paste_seq, last_paste_id(&pastes));
    store.entries = entries;
    store.versions = versions;
    store.pastes = pastes;
    proof {
        let ev = store@.entries;
        let vv = store@.versions;
        let pv = store@.pastes;
        assert(entry_ids_ascending(ev));
        assert forall|i: int| 0 <= i < ev.len() implies #[trigger] ev[i].id <= store@.entry_seq by {
            if i < ev.len() - 1 {
                assert(ev[i].id < ev[ev.len() - 1].id);
            }
        }
        assert forall|i: int| 0 <= i < vv.len() implies #[trigger] vv[i].id <= store@.version_seq by {
            if i < vv.len() - 1 {
                assert(vv[i].id < vv[vv.len() - 1].id);
            }
        }
        assert forall|i: int| 0 <= i < pv.len() implies #[trigger] pv[i].id <= store@.paste_seq by {
            if i < pv.len() - 1 {
                assert(pv[i].id < pv[pv.len() - 1].id);
            }
        }
        assert(store@ =~= s0.restored(b));
    }
    Ok(count)
}


// ---- laws ----------------------------------------------------------------------

/// Trashing an entry takes it out of the live list, the search and the
/// recents, and puts it in the trash; nothing else changes.
pub proof fn lemma_trash_hides_entry(s: StoreView, id: i64, now: i64)
    requires
        s.valid(),
    ensures
        ({
            let t = s.with_entry_trashed(id, now);
            &&& t.valid()
            &&& forall|e: EntryView| e.id == id ==> !t.has_live(e)
            &&& forall|e: EntryView, q: Seq<char>| e.id == id ==> !t.has_hit(e, q)
            &&& forall|e: EntryView| e.id == id ==> !t.has_recent(e)
            &&& forall|k: int| 0 <= k < s.entries.len() && #[trigger] s.entries[k].id == id ==> t.has_trashed(
                TrashedView { id, title: s.entries[k].title, body: s.entries[k].body, deleted_at: now },
            )
            &&& forall|e: EntryView| e.id != id ==> (t.has_live(e) <==> s.has_live(e))
        }),
{
    let t = s.with_entry_trashed(id, now);
    assert forall|k: int| 0 <= k < s.entries.len() && #[trigger] s.entries[k].id == id implies t.has_trashed(
        TrashedView { id, title: s.entries[k].title, body: s.entries[k].body, deleted_at: now },
    ) by {
        assert(t.entries[k].deleted_at == Some(now));
        assert(trashed_view(t.entries[k]) == TrashedView { id, title: s.entries[k].title, body: s.entries[k].body, deleted_at: now });
    }
    assert forall|e: EntryView| e.id != id implies (t.has_live(e) <==> s.has_live(e)) by {
        if t.has_live(e) {
            let k = choose|k: int| 0 <= k < t.entries.len() && is_live(t.entries[k]) && e == entry_view(#[trigger] t.entries[k]);
            assert(s.entries[k] == t.entries[k]);
        }
        if s.has_live(e) {
            let k = choose|k: int| 0 <= k < s.entries.len() && is_live(s.entries[k]) && e == entry_view(#[trigger] s.entries[k]);
            assert(s.entries[k] == t.entries[k]);
        }
    }
}

/// Taking an entry out of the trash undoes trashing it: trashing a live
/// entry and restoring it gives back the store as it was.
pub proof fn lemma_restore_undoes_trash(s: StoreView, id: i64, now: i64)
    requires
        forall|k: int| 0 <= k < s.entries.len() && #[trigger] s.entries[k].id == id ==> is_live(s.entries[k]),
    ensures
        s.with_entry_trashed(id, now).with_entry_restored(id) == s,
{
    let t = s.with_entry_trashed(id, now).with_entry_restored(id);
    assert(t.entries =~= s.entries);
    assert(t =~= s);
}

/// A new entry gets an id no row has, and is live and listed with the
/// content it was given.
pub proof fn lemma_added_entry_is_listed(s: StoreView, title: Seq<char>, body: Seq<char>, now: i64)
    requires
        s.valid(),
        s.entry_seq < i64::MAX,
    ensures
        ({
            let t = s.with_entry_added(title, body, now);
            let id = (s.entry_seq + 1) as i64;
            &&& t.valid()
            &&& forall|k: int| 0 <= k < s.entries.len() ==> #[trigger] s.entries[k].id != id
            &&& t.has_live(EntryView { id, title, body, updated_at: now })
            &&& forall|e: EntryView| s.has_live(e) ==> t.has_live(e)
        }),
{
    let t = s.with_entry_added(title, body, now);
    let id = (s.entry_seq + 1) as i64;
    let k = s.entries.len() as int;
    assert(entry_view(t.entries[k]) == EntryView { id, title, body, updated_at: now });
    assert forall|e: EntryView| s.has_live(e) implies t.has_live(e) by {
        let j = choose|j: int| 0 <= j < s.entries.len() && is_live(s.entries[j]) && e == entry_view(#[trigger] s.entries[j]);
        assert(t.entries[j] == s.entries[j]);
    }
}

/// At most `keep` of `h`, from the front (the newest).
pub open spec fn newest(h: Seq<VersionView>, keep: nat) -> Seq<VersionView> {
    if h.len() > keep {
        h.take(keep as int)
    } else {
        h
    }
}

proof fn lemma_cap_history_effect(vs: Seq<VersionRowView>, eid: i64, keep: nat, other: i64)
    ensures
        history(cap_history(vs, eid, keep), eid) == newest(history(vs, eid), keep),
        other != eid ==> history(cap_history(vs, eid, keep), other) == history(vs, other),
    decreases vs.len(),
{
    if vs.len() > 0 {
        let d = vs.drop_last();
        let l = vs.last();
        let k2: nat = if l.entry_id == eid && keep > 0 { (keep - 1) as nat } else { keep };
        lemma_cap_history_effect(d, eid, k2, other);
        let c = cap_history(d, eid, k2);
        if l.entry_id != eid || keep > 0 {
            assert(cap_history(vs, eid, keep) == c.push(l));
            assert(c.push(l).drop_last() =~= c);
            assert(c.push(l).last() == l);
        } else {
            assert(cap_history(vs, eid, keep) == c);
        }
        if l.entry_id == eid {
            if keep > 0 {
                assert(newest(history(vs, eid), keep) =~= seq![version_view(l)] + newest(history(d, eid), k2));
            } else {
                assert(newest(history(d, eid), 0) =~= Seq::<VersionView>::empty());
                assert(newest(history(vs, eid), 0) =~= Seq::<VersionView>::empty());
            }
        }
    } else {
        assert(newest(history(vs, eid), keep) =~= history(vs, eid));
    }
}

/// Saving an entry keeps at most 50 previous versions of it, the newest
/// ones; the outgoing content becomes the newest version only when the save
/// changes the content (a no-op save adds none); other entries' histories
/// are untouched.
pub proof fn lemma_update_history(s: StoreView, id: i64, title: Seq<char>, body: Seq<char>, now: i64, other: i64)
    requires
        s.valid(),
    ensures
        ({
            let t = s.with_entry_updated(id, title, body, now);
            &&& history(t.versions, id).len() <= HISTORY_CAP
            &&& !s.snapshot_needed(id, title, body) ==> history(t.versions, id) == newest(history(s.versions, id), HISTORY_CAP as nat)
            &&& s.snapshot_needed(id, title, body) ==> history(t.versions, id) == newest(
                seq![VersionView {
                    id: (s.version_seq + 1) as i64,
                    title: s.entry_with_id(id).unwrap().title,
                    body: s.entry_with_id(id).unwrap().body,
                    saved_at: s.entry_with_id(id).unwrap().updated_at,
                }] + history(s.versions, id),
                HISTORY_CAP as nat,
            )
            &&& other != id ==> history(t.versions, other) == history(s.versions, other)
        }),
{
    let snap = s.snapshot_needed(id, title, body);
    let pushed = if snap {
        let r = s.entry_with_id(id).unwrap();
        s.versions.push(
            VersionRowView { id: (s.version_seq + 1) as i64, entry_id: id, title: r.title, body: r.body, saved_at: r.updated_at },
        )
    } else {
        s.versions
    };
    lemma_cap_history_effect(pushed, id, HISTORY_CAP as nat, other);
    if snap {
        assert(pushed.drop_last() =~= s.versions);
        if other != id {
            assert(history(pushed, other) == history(s.versions, other));
        }
    }
}

/// The paste log never holds more than 100 rows, and the paste just logged
/// is its newest.
pub proof fn lemma_paste_log_capped(s: StoreView, entry_id: Option<i64>, text: Seq<char>, now: i64)
    ensures
        ({
            let t = s.with_paste_recorded(entry_id, text, now);
            &&& t.pastes.len() <= PASTE_CAP
            &&& t.pastes.last() == (PasteRowView { id: (s.paste_seq + 1) as i64, entry_id, text, pasted_at: now })
        }),
{
    let pv = s.pastes.push(PasteRowView { id: (s.paste_seq + 1) as i64, entry_id, text, pasted_at: now });
    if pv.len() > PASTE_CAP {
        assert(keep_last(pv, PASTE_CAP as nat).last() == pv.last());
    }
}

/// A setting reads back what was last written under its key; writing one
/// key leaves the others as they were.
pub proof fn lemma_setting_read_after_write(s: StoreView, key: Seq<char>, value: Seq<char>, other: Seq<char>)
    ensures
        ({
            let t = StoreView { settings: s.settings.insert(key, value), ..s };
            &&& t.settings.contains_key(key) && t.settings[key] == value
            &&& other != key ==> (t.settings.contains_key(other) == s.settings.contains_key(other))
            &&& other != key && s.settings.contains_key(other) ==> t.settings[other] == s.settings[other]
        }),
{
}

/// A restore replaces rather than merges: the store then holds exactly the
/// backup's entries (all of them live when the backup predates the trash),
/// history and pastes, keeps its settings, and stays well formed.
pub proof fn lemma_restore_replaces(s: StoreView, b: BackupView)
    requires
        s.valid(),
        b.in_id_order(),
        b.acceptable(),
    ensures
        ({
            let t = s.restored(b);
            &&& t.valid()
            &&& t.settings == s.settings
            &&& t.entries.len() == b.entries.len()
            &&& forall|k: int| 0 <= k < t.entries.len() ==> {
                &&& (#[trigger] t.entries[k]).id == b.entries[k].id
                &&& t.entries[k].title == b.entries[k].title
                &&& t.entries[k].body == b.entries[k].body
                &&& t.entries[k].updated_at == b.entries[k].updated_at
            }
            &&& !b.has_deleted_at ==> forall|k: int| 0 <= k < t.entries.len() ==> is_live(#[trigger] t.entries[k])
            &&& b.versions is None ==> t.versions.len() == 0
            &&& b.pastes is None ==> t.pastes.len() == 0
        }),
{
    let t = s.restored(b);
    let ev = t.entries;
    let vv = t.versions;
    let pv = t.pastes;
    assert(entry_ids_ascending(ev));
    assert forall|i: int| 0 <= i < ev.len() implies #[trigger] ev[i].id <= t.entry_seq by {
        if i < ev.len() - 1 {
            assert(ev[i].id < ev[ev.len() - 1].id);
        }
    }
    assert forall|i: int| 0 <= i < vv.len() implies #[trigger] vv[i].id <= t.version_seq by {
        if i < vv.len() - 1 {
            assert(vv[i].id < vv[vv.len() - 1].id);
        }
    }
    assert forall|i: int| 0 <= i < pv.len() implies #[trigger] pv[i].id <= t.paste_seq by {
        if i < pv.len() - 1 {
            assert(pv[i].id < pv[pv.len() - 1].id);
        }
    }
}

proof fn lemma_unexpired_members(rows: Seq<EntryRowView>, now: i64)
    ensures
        forall|x: EntryRowView| unexpired(rows, now).contains(x) <==> (rows.contains(x) && !expired(x, now)),
    decreases rows.len(),
{
    if rows.len() > 0 {
        let d = rows.drop_last();
        lemma_unexpired_members(d, now);
        let c = unexpired(d, now);
        let cc = unexpired(rows, now);
        assert(!expired(rows.last(), now) ==> cc == c.push(rows.last()));
        assert(expired(rows.last(), now) ==> cc == c);
        assert forall|x: EntryRowView| cc.contains(x) <==> (rows.contains(x) && !expired(x, now)) by {
            if cc.contains(x) {
                let i = choose|i: int| 0 <= i < cc.len() && cc[i] == x;
                if i < c.len() {
                    assert(c[i] == x);
                    assert(c.contains(x));
                    assert(d.contains(x));
                    let j = choose|j: int| 0 <= j < d.len() && d[j] == x;
                    assert(rows[j] == x);
                } else {
                    assert(rows[rows.len() - 1] == x);
                }
            }
            if rows.contains(x) && !expired(x, now) {
                let j = choose|j: int| 0 <= j < rows.len() && rows[j] == x;
                if j < rows.len() - 1 {
                    assert(d[j] == x);
                    assert(d.contains(x));
                    assert(c.contains(x));
                    let i = choose|i: int| 0 <= i < c.len() && c[i] == x;
                    if !expired(rows.last(), now) {
                        assert(cc[i] == x);
                    }
                } else {
                    assert(cc[cc.len() - 1] == x);
                }
            }
        }
    }
}

proof fn lemma_surviving_members(vs: Seq<VersionRowView>, rows: Seq<EntryRowView>, now: i64)
    ensures
        forall|x: VersionRowView| surviving_versions(vs, rows, now).contains(x) <==> (vs.contains(x) && !expired_id(rows, x.entry_id, now)),
    decreases vs.len(),
{
    if vs.len() > 0 {
        let d = vs.drop_last();
        lemma_surviving_members(d, rows, now);
        let c = surviving_versions(d, rows, now);
        let cc = surviving_versions(vs, rows, now);
        assert(!expired_id(rows, vs.last().entry_id, now) ==> cc == c.push(vs.last()));
        assert(expired_id(rows, vs.last().entry_id, now) ==> cc == c);
        assert forall|x: VersionRowView| cc.contains(x) <==> (vs.contains(x) && !expired_id(rows, x.entry_id, now)) by {
            if cc.contains(x) {
                let i = choose|i: int| 0 <= i < cc.len() && cc[i] == x;
                if i < c.len() {
                    assert(c[i] == x);
                    assert(c.contains(x));
                    assert(d.contains(x));
                    let j = choose|j: int| 0 <= j < d.len() && d[j] == x;
                    assert(vs[j] == x);
                } else {
                    assert(vs[vs.len() - 1] == x);
                }
            }
            if vs.contains(x) && !expired_id(rows, x.entry_id, now) {
                let j = choose|j: int| 0 <= j < vs.len() && vs[j] == x;
                if j < vs.len() - 1 {
                    assert(d[j] == x);
                    assert(d.contains(x));
                    assert(c.contains(x));
                    let i = choose|i: int| 0 <= i < c.len() && c[i] == x;
                    if !expired_id(rows, vs.last().entry_id, now) {
                        assert(cc[i] == x);
                    }
                } else {
                    assert(cc[cc.len() - 1] == x);
                }
            }
        }
    }
}

/// A restore takes over the backup's tables as they are: its history and
/// paste log when it has those tables (nothing when it lacks them), its
/// entries with their trash state when it has `deleted_at`, and otherwise
/// its entries all live with everything else kept.
pub proof fn lemma_restore_takes_backup_tables(s: StoreView, b: BackupView)
    ensures
        ({
            let t = s.restored(b);
            &&& b.versions matches Some(v) ==> t.versions == v
            &&& b.versions is None ==> t.versions.len() == 0
            &&& b.pastes matches Some(p) ==> t.pastes == p
            &&& b.pastes is None ==> t.pastes.len() == 0
            &&& b.has_deleted_at ==> t.entries == b.entries
            &&& t.entries.len() == b.entries.len()
            &&& forall|k: int| 0 <= k < b.entries.len() ==> {
                &&& (#[trigger] t.entries[k]).id == b.entries[k].id
                &&& t.entries[k].title == b.entries[k].title
                &&& t.entries[k].body == b.entries[k].body
                &&& t.entries[k].created_at == b.entries[k].created_at
                &&& t.entries[k].updated_at == b.entries[k].updated_at
                &&& t.entries[k].deleted_at == if b.has_deleted_at { b.entries[k].deleted_at } else { None }
            }
            &&& t.settings == s.settings
        }),
{
}

/// Logging a paste appends it after the rows already logged and, past
/// `PASTE_CAP` rows, drops the oldest ones: the log is then the newest rows
/// of the old log, in order, followed by the new paste.
pub proof fn lemma_paste_drops_oldest(s: StoreView, entry_id: Option<i64>, text: Seq<char>, now: i64)
    ensures
        ({
            let t = s.with_paste_recorded(entry_id, text, now);
            let n = s.pastes.len();
            let kept = t.pastes.len() - 1;
            &&& t.pastes.len() == if n < PASTE_CAP { n + 1 } else { PASTE_CAP as nat }
            &&& t.pastes.last() == (PasteRowView { id: (s.paste_seq + 1) as i64, entry_id, text, pasted_at: now })
            &&& forall|k: int| 0 <= k < kept ==> #[trigger] t.pastes[k] == s.pastes[n - kept + k]
        }),
{
    let t = s.with_paste_recorded(entry_id, text, now);
    let pv = s.pastes.push(PasteRowView { id: (s.paste_seq + 1) as i64, entry_id, text, pasted_at: now });
    if pv.len() > PASTE_CAP {
        assert(keep_last(pv, PASTE_CAP as nat).last() == pv.last());
    }
}

/// A save keeps the outgoing content as the entry's newest version exactly
/// when the stored title or body differs from the new one, character for
/// character (letter case included); a save of the same content hands out no
/// version.
pub proof fn lemma_update_snapshots_real_changes(s: StoreView, k: int, title: Seq<char>, body: Seq<char>, now: i64)
    requires
        s.valid(),
        0 <= k < s.entries.len(),
    ensures
        ({
            let r = s.entries[k];
            let t = s.with_entry_updated(r.id, title, body, now);
            &&& (r.title != title || r.body != body) ==> {
                &&& t.version_seq == (s.version_seq + 1) as i64
                &&& history(t.versions, r.id).len() > 0
                &&& history(t.versions, r.id)[0] == (VersionView {
                    id: (s.version_seq + 1) as i64,
                    title: r.title,
                    body: r.body,
                    saved_at: r.updated_at,
                })
            }
            &&& (r.title == title && r.body == body) ==> {
                &&& t.version_seq == s.version_seq
                &&& history(t.versions, r.id).len() <= history(s.versions, r.id).len()
            }
        }),
{
    let r = s.entries[k];
    let id = r.id;
    assert(exists|j: int| 0 <= j < s.entries.len() && #[trigger] s.entries[j].id == id);
    let j = choose|j: int| 0 <= j < s.entries.len() && #[trigger] s.entries[j].id == id;
    if j != k {
        if j < k {
            assert(s.entries[j].id < s.entries[k].id);
        } else {
            assert(s.entries[k].id < s.entries[j].id);
        }
    }
    assert(s.entry_with_id(id) == Some(r));
    lemma_update_history(s, id, title, body, now, id);
    let v = VersionView { id: (s.version_seq + 1) as i64, title: r.title, body: r.body, saved_at: r.updated_at };
    let h = seq![v] + history(s.versions, id);
    assert(h[0] == v);
    assert(newest(h, HISTORY_CAP as nat)[0] == v);
}

/// An entry's history is exactly its own version rows, newest (highest id)
/// first.
pub proof fn lemma_history_is_own_versions_newest_first(vs: Seq<VersionRowView>, eid: i64)
    requires
        version_ids_ascending(vs),
    ensures
        ({
            let h = history(vs, eid);
            &&& forall|i: int, j: int| 0 <= i < j < h.len() ==> (#[trigger] h[i]).id > (#[trigger] h[j]).id
            &&& forall|i: int|
                0 <= i < h.len() ==> exists|k: int|
                    0 <= k < vs.len() && vs[k].entry_id == eid && #[trigger] h[i] == version_view(#[trigger] vs[k])
            &&& forall|k: int| 0 <= k < vs.len() && (#[trigger] vs[k]).entry_id == eid ==> h.contains(version_view(vs[k]))
        }),
    decreases vs.len(),
{
    if vs.len() > 0 {
        let d = vs.drop_last();
        let l = vs.last();
        assert(version_ids_ascending(d)) by {
            assert forall|i: int, j: int| 0 <= i < j < d.len() implies (#[trigger] d[i]).id < (#[trigger] d[j]).id by {
                assert(d[i] == vs[i] && d[j] == vs[j]);
            }
        }
        lemma_history_is_own_versions_newest_first(d, eid);
        let hd = history(d, eid);
        let h = history(vs, eid);
        assert forall|i: int| 0 <= i < hd.len() implies (#[trigger] hd[i]).id < l.id by {
            let k = choose|k: int| 0 <= k < d.len() && d[k].entry_id == eid && hd[i] == version_view(d[k]);
            assert(d[k] == vs[k]);
        }
        if l.entry_id == eid {
            assert(h == seq![version_view(l)] + hd);
            assert forall|i: int| 0 <= i < h.len() implies exists|k: int|
                0 <= k < vs.len() && vs[k].entry_id == eid && #[trigger] h[i] == version_view(#[trigger] vs[k]) by {
                if i == 0 {
                    assert(h[0] == version_view(vs[vs.len() - 1]));
                } else {
                    assert(h[i] == hd[i - 1]);
                    let k = choose|k: int| 0 <= k < d.len() && d[k].entry_id == eid && hd[i - 1] == version_view(d[k]);
                    assert(d[k] == vs[k]);
                }
            }
            assert forall|k: int| 0 <= k < vs.len() && (#[trigger] vs[k]).entry_id == eid implies h.contains(version_view(vs[k])) by {
                if k == vs.len() - 1 {
                    assert(h[0] == version_view(vs[k]));
                } else {
                    assert(d[k] == vs[k]);
                    assert(hd.contains(version_view(d[k])));
                    let i = choose|i: int| 0 <= i < hd.len() && hd[i] == version_view(d[k]);
                    assert(h[i + 1] == hd[i]);
                }
            }
        } else {
            assert(h == hd);
            assert forall|i: int| 0 <= i < h.len() implies exists|k: int|
                0 <= k < vs.len() && vs[k].entry_id == eid && #[trigger] h[i] == version_view(#[trigger] vs[k]) by {
                let k = choose|k: int| 0 <= k < d.len() && d[k].entry_id == eid && hd[i] == version_view(d[k]);
                assert(d[k] == vs[k]);
            }
            assert forall|k: int| 0 <= k < vs.len() && (#[trigger] vs[k]).entry_id == eid implies h.contains(version_view(vs[k])) by {
                assert(d[k] == vs[k]);
            }
        }
    }
}

/// The time an entry was last pasted from is the latest `pasted_at` among
/// the log's rows for it, and there is none exactly when it has no row.
pub proof fn lemma_last_paste_is_latest(ps: Seq<PasteRowView>, id: i64)
    ensures
        last_paste(ps, id) is None <==> forall|k: int| 0 <= k < ps.len() ==> (#[trigger] ps[k]).entry_id != Some(id),
        last_paste(ps, id) matches Some(t) ==> {
            &&& exists|k: int| 0 <= k < ps.len() && (#[trigger] ps[k]).entry_id == Some(id) && ps[k].pasted_at == t
            &&& forall|k: int| 0 <= k < ps.len() && (#[trigger] ps[k]).entry_id == Some(id) ==> ps[k].pasted_at <= t
        },
    decreases ps.len(),
{
    if ps.len() > 0 {
        let d = ps.drop_last();
        lemma_last_paste_is_latest(d, id);
        assert forall|k: int| 0 <= k < d.len() implies #[trigger] d[k] == ps[k] by {}
        let l = ps.len() - 1;
        if last_paste(ps, id) is None {
            assert forall|k: int| 0 <= k < ps.len() implies (#[trigger] ps[k]).entry_id != Some(id) by {
                if k < l {
                    assert(d[k] == ps[k]);
                }
            }
        } else {
            if last_paste(d, id) is None {
                assert(ps[l].entry_id == Some(id));
            }
        }
        if forall|k: int| 0 <= k < ps.len() ==> (#[trigger] ps[k]).entry_id != Some(id) {
            assert forall|k: int| 0 <= k < d.len() implies (#[trigger] d[k]).entry_id != Some(id) by {
                assert(d[k] == ps[k]);
            }
            assert(ps[l].entry_id != Some(id));
        }
        if let Some(t) = last_paste(ps, id) {
            if ps[l].entry_id == Some(id) && (last_paste(d, id) is None || ps[l].pasted_at >= last_paste(d, id).unwrap()) {
                assert(ps[l].pasted_at == t);
            } else {
                let k = choose|k: int| 0 <= k < d.len() && (#[trigger] d[k]).entry_id == Some(id) && d[k].pasted_at == last_paste(d, id).unwrap();
                assert(ps[k] == d[k]);
            }
            assert forall|k: int| 0 <= k < ps.len() && (#[trigger] ps[k]).entry_id == Some(id) implies ps[k].pasted_at <= t by {
                if k < l {
                    assert(d[k] == ps[k]);
                }
            }
        }
    }
}

/// Recents order: the entry listed first was pasted from no earlier than
/// any paste from the entry listed after it.
pub proof fn lemma_recent_order(s: StoreView, a: EntryView, b: EntryView)
    requires
        before(s.recent_rank(a), s.recent_rank(b)),
        s.has_recent(a),
        s.has_recent(b),
    ensures
        forall|k: int|
            0 <= k < s.pastes.len() && (#[trigger] s.pastes[k]).entry_id == Some(b.id) ==> exists|j: int|
                0 <= j < s.pastes.len() && (#[trigger] s.pastes[j]).entry_id == Some(a.id)
                    && s.pastes[j].pasted_at >= s.pastes[k].pasted_at,
{
    let ka = choose|k: int| 0 <= k < s.entries.len() && is_live(s.entries[k])
        && last_paste(s.pastes, s.entries[k].id) is Some && a == entry_view(#[trigger] s.entries[k]);
    let kb = choose|k: int| 0 <= k < s.entries.len() && is_live(s.entries[k])
        && last_paste(s.pastes, s.entries[k].id) is Some && b == entry_view(#[trigger] s.entries[k]);
    assert(a.id == s.entries[ka].id);
    assert(b.id == s.entries[kb].id);
    lemma_last_paste_is_latest(s.pastes, a.id);
    lemma_last_paste_is_latest(s.pastes, b.id);
    let ta = last_paste(s.pastes, a.id).unwrap();
    let j = choose|j: int| 0 <= j < s.pastes.len() && (#[trigger] s.pastes[j]).entry_id == Some(a.id) && s.pastes[j].pasted_at == ta;
    assert forall|k: int| 0 <= k < s.pastes.len() && (#[trigger] s.pastes[k]).entry_id == Some(b.id) implies exists|j: int|
        0 <= j < s.pastes.len() && (#[trigger] s.pastes[j]).entry_id == Some(a.id)
            && s.pastes[j].pasted_at >= s.pastes[k].pasted_at by {
        assert(s.pastes[j].pasted_at >= s.pastes[k].pasted_at);
    }
}

/// The purge removes exactly the entries trashed more than 90 days ago and
/// the history of exactly those entries: live entries and younger trash
/// stay, with all their versions.
pub proof fn lemma_sweep_effect(s: StoreView, now: i64)
    requires
        s.valid(),
    ensures
        ({
            let t = s.swept(now);
            &&& t.valid()
            &&& forall|r: EntryRowView|
                #![trigger t.entries.contains(r)]
                #![trigger s.entries.contains(r)]
                t.entries.contains(r) <==> (s.entries.contains(r) && !expired(r, now))
            &&& forall|v: VersionRowView|
                #![trigger t.versions.contains(v)]
                #![trigger s.versions.contains(v)]
                t.versions.contains(v) <==> (s.versions.contains(v) && !expired_id(s.entries, v.entry_id, now))
            &&& forall|e: EntryView|
                #![trigger t.has_live(e)]
                #![trigger s.has_live(e)]
                t.has_live(e) <==> s.has_live(e)
        }),
{
    let t = s.swept(now);
    lemma_unexpired_members(s.entries, now);
    lemma_surviving_members(s.versions, s.entries, now);
    lemma_unexpired_sub(s.entries, now);
    lemma_surviving_sub(s.versions, s.entries, now);
    assert forall|i: int| 0 <= i < t.entries.len() implies #[trigger] t.entries[i].id <= t.entry_seq by {
        assert(s.entries.contains(t.entries[i]));
    }
    assert forall|i: int| 0 <= i < t.versions.len() implies #[trigger] t.versions[i].id <= t.version_seq by {
        assert(s.versions.contains(t.versions[i]));
    }
    assert forall|e: EntryView| t.has_live(e) <==> s.has_live(e) by {
        if t.has_live(e) {
            let k = choose|k: int| 0 <= k < t.entries.len() && is_live(t.entries[k]) && e == entry_view(#[trigger] t.entries[k]);
            assert(t.entries.contains(t.entries[k]));
            let j = choose|j: int| 0 <= j < s.entries.len() && s.entries[j] == t.entries[k];
            assert(e == entry_view(s.entries[j]));
        }
        if s.has_live(e) {
            let k = choose|k: int| 0 <= k < s.entries.len() && is_live(s.entries[k]) && e == entry_view(#[trigger] s.entries[k]);
            assert(s.entries.contains(s.entries[k]));
            assert(t.entries.contains(s.entries[k]));
            let j = choose|j: int| 0 <= j < t.entries.len() && t.entries[j] == s.entries[k];
            assert(e == entry_view(t.entries[j]));
        }
    }
}


/// Pasting from a live entry makes it one of the recently used entries.
pub proof fn lemma_paste_makes_recent(s: StoreView, k: int, text: Seq<char>, now: i64)
    requires
        0 <= k < s.entries.len(),
        is_live(s.entries[k]),
    ensures
        s.with_paste_recorded(Some(s.entries[k].id), text, now).has_recent(entry_view(s.entries[k])),
{
    let id = s.entries[k].id;
    let t = s.with_paste_recorded(Some(id), text, now);
    let pv = s.pastes.push(PasteRowView { id: (s.paste_seq + 1) as i64, entry_id: Some(id), text, pasted_at: now });
    assert(t.pastes.last() == pv.last()) by {
        if pv.len() > PASTE_CAP {
            assert(keep_last(pv, PASTE_CAP as nat).last() == pv.last());
        }
    }
    assert(t.pastes.len() > 0);
    assert(last_paste(t.pastes, id) is Some);
    assert(t.entries[k] == s.entries[k]);
}


/// Ids are never reused: no operation lowers the largest id a table has
/// handed out, and a new entry's id is above it.
pub proof fn lemma_ids_never_reused(
    s: StoreView,
    id: i64,
    title: Seq<char>,
    body: Seq<char>,
    text: Seq<char>,
    now: i64,
    b: BackupView,
)
    ensures
        s.entry_seq < i64::MAX ==> s.with_entry_added(title, body, now).entry_seq == s.entry_seq + 1,
        s.with_entry_updated(id, title, body, now).entry_seq == s.entry_seq,
        s.version_seq < i64::MAX ==> s.with_entry_updated(id, title, body, now).version_seq >= s.version_seq,
        s.with_entry_trashed(id, now).entry_seq == s.entry_seq,
        s.with_entry_restored(id).entry_seq == s.entry_seq,
        s.paste_seq < i64::MAX ==> s.with_paste_recorded(Some(id), text, now).paste_seq == s.paste_seq + 1,
        s.swept(now).entry_seq == s.entry_seq,
        s.restored(b).entry_seq >= s.entry_seq,
        s.restored(b).version_seq >= s.version_seq,
        s.restored(b).paste_seq >= s.paste_seq,
{
}

} // verus!
