//! The clipboard history: entries ordered most recent first, each with a
//! unique id, deduplicated by content hash and capped at `MAX_HISTORY`.
//!
//! Ordering is by timestamp, newest first; entries with equal timestamps are
//! ordered by id, largest first. Ids are handed out in increasing order from
//! a sequence counter that never goes back, so an id is never reused.

use vstd::prelude::*;
use vstd::utf8::encode_utf8;
use crate::codec::{hex_lower, lossy_text, md5_digest, md5_hex, utf8_lossy};
use crate::constants::{MAX_HISTORY, MIME_URI_LIST, PREVIEW_CHARS, SENSITIVE_MIME_HINTS};
use crate::like::{like, like_match, sql_text, sql_text_codes, str_text, LIKE_PATTERN_LIMIT};
use crate::text::{has_infix, str_contains, str_eq};

verus! {

/// One stored clipboard item.
pub struct ClipEntry {
    pub id: i64,
    pub timestamp: i64,
    pub mime: String,
    pub size: i64,
    pub preview: Option<String>,
    pub content: Vec<u8>,
    pub hash: String,
}

/// Mathematical value of a `ClipEntry`.
pub struct EntryView {
    pub id: i64,
    pub timestamp: i64,
    pub mime: Seq<char>,
    pub size: i64,
    pub preview: Option<Seq<char>>,
    pub content: Seq<u8>,
    pub hash: Seq<char>,
}

pub open spec fn opt_string_view(o: Option<String>) -> Option<Seq<char>> {
    match o {
        Some(s) => Some(s@),
        None => None,
    }
}

impl View for ClipEntry {
    type V = EntryView;

    open spec fn view(&self) -> EntryView {
        EntryView {
            id: self.id,
            timestamp: self.timestamp,
            mime: self.mime@,
            size: self.size,
            preview: opt_string_view(self.preview),
            content: self.content@,
            hash: self.hash@,
        }
    }
}

/// Metadata of an entry as listings show it: id, timestamp, MIME type, size
/// and preview.
pub open spec fn meta_of(e: EntryView) -> (i64, i64, Seq<char>, i64, Option<Seq<char>>) {
    (e.id, e.timestamp, e.mime, e.size, e.preview)
}

/// Metadata of each entry of `s`.
pub open spec fn meta_seq(s: Seq<EntryView>) -> Seq<(i64, i64, Seq<char>, i64, Option<Seq<char>>)> {
    Seq::new(s.len(), |k: int| meta_of(s[k]))
}

/// Value of each metadata tuple of `v`.
pub open spec fn meta_views(v: Seq<(i64, i64, String, i64, Option<String>)>) -> Seq<
    (i64, i64, Seq<char>, i64, Option<Seq<char>>),
> {
    Seq::new(v.len(), |k: int| meta_view(v[k]))
}

pub open spec fn meta_view(m: (i64, i64, String, i64, Option<String>)) -> (
    i64,
    i64,
    Seq<char>,
    i64,
    Option<Seq<char>>,
) {
    (m.0, m.1, m.2@, m.3, opt_string_view(m.4))
}

/// Mathematical value of the history: its entries in display order, the
/// largest id ever handed out, and where the history is stored.
pub struct HistoryView {
    pub entries: Seq<EntryView>,
    pub seq: i64,
    pub path: Seq<char>,
}

/// `a` is listed before `b`: newer, or equally new with a larger id.
pub open spec fn ranks_before(a: EntryView, b: EntryView) -> bool {
    a.timestamp > b.timestamp || (a.timestamp == b.timestamp && a.id > b.id)
}

pub open spec fn sorted(s: Seq<EntryView>) -> bool {
    forall|i: int, j: int| 0 <= i < j < s.len() ==> ranks_before(#[trigger] s[i], #[trigger] s[j])
}

pub open spec fn ids_unique(s: Seq<EntryView>) -> bool {
    forall|i: int, j: int| 0 <= i < s.len() && 0 <= j < s.len() && i != j ==> #[trigger] s[i].id
        != #[trigger] s[j].id
}

pub open spec fn ids_in_range(s: Seq<EntryView>, seq: i64) -> bool {
    forall|i: int| 0 <= i < s.len() ==> 1 <= #[trigger] s[i].id <= seq
}

/// Well-formed history: ordered, ids unique and at most the sequence value.
pub open spec fn history_wf(v: HistoryView) -> bool {
    &&& sorted(v.entries)
    &&& ids_unique(v.entries)
    &&& ids_in_range(v.entries, v.seq)
    &&& v.seq >= 0
}

/// Number of leading entries of `s` that are listed before `e`.
pub open spec fn insert_pos(s: Seq<EntryView>, e: EntryView) -> nat
    decreases s.len(),
{
    if s.len() == 0 {
        0
    } else if ranks_before(s[0], e) {
        1 + insert_pos(s.drop_first(), e)
    } else {
        0
    }
}

/// `s` with `e` put at its place in the order.
pub open spec fn place(s: Seq<EntryView>, e: EntryView) -> Seq<EntryView> {
    s.insert(insert_pos(s, e) as int, e)
}

pub open spec fn has_id(s: Seq<EntryView>, id: i64) -> bool {
    exists|i: int| 0 <= i < s.len() && #[trigger] s[i].id == id
}

/// Index of the entry with id `id`; meaningful when `has_id(s, id)`.
pub open spec fn index_of_id(s: Seq<EntryView>, id: i64) -> int {
    choose|i: int| 0 <= i < s.len() && #[trigger] s[i].id == id
}

/// The entry with id `id`, if any.
pub open spec fn lookup(s: Seq<EntryView>, id: i64) -> Option<EntryView> {
    if has_id(s, id) {
        Some(s[index_of_id(s, id)])
    } else {
        None
    }
}

/// `s` without the entry with id `id`.
pub open spec fn without_id(s: Seq<EntryView>, id: i64) -> Seq<EntryView> {
    if has_id(s, id) {
        s.remove(index_of_id(s, id))
    } else {
        s
    }
}

/// `s` with the entry of id `id` stamped `now` and moved to its new place.
pub open spec fn retimed(s: Seq<EntryView>, id: i64, now: i64) -> Seq<EntryView> {
    if has_id(s, id) {
        let i = index_of_id(s, id);
        place(s.remove(i), EntryView { timestamp: now, ..s[i] })
    } else {
        s
    }
}

/// Metadata of the first `limit` entries.
pub open spec fn metas(s: Seq<EntryView>, limit: nat) -> Seq<
    (i64, i64, Seq<char>, i64, Option<Seq<char>>),
> {
    let n = if limit < s.len() {
        limit
    } else {
        s.len()
    };
    meta_seq(s.take(n as int))
}


/// What a storing operation did.
#[derive(Debug, Clone, Copy, PartialEq, Eq, Structural)]
pub enum StoreOutcome {
    /// Nothing was stored: the payload was empty or marked sensitive.
    Skipped,
    /// The payload was already stored under this id; its timestamp was renewed.
    Refreshed(i64),
    /// The payload was stored as a new entry with this id.
    Inserted(i64),
}

/// Why a storing operation failed.
#[derive(Debug, Clone, Copy, PartialEq, Eq, Structural)]
pub enum DbError {
    /// Every id up to `i64::MAX` has been handed out.
    SequenceExhausted,
}

/// What a storing operation did, and the ids of the entries that it evicted
/// to keep the history within `MAX_HISTORY`.
pub struct StoreReport {
    pub outcome: StoreOutcome,
    pub evicted: Vec<i64>,
}

/// The MIME type carries one of the sensitive hints.
pub open spec fn hint_flagged(m: Seq<char>) -> bool {
    exists|i: int| 0 <= i < SENSITIVE_MIME_HINTS@.len() && has_infix(m, #[trigger] SENSITIVE_MIME_HINTS@[i]@)
}

/// The first `PREVIEW_CHARS` characters of the payload read as UTF-8, with
/// line breaks turned into spaces.
pub open spec fn preview_text(data: Seq<u8>) -> Seq<char> {
    let t = utf8_lossy(data);
    let k = if t.len() < PREVIEW_CHARS {
        t.len()
    } else {
        PREVIEW_CHARS as nat
    };
    t.take(k as int).map_values(|c: char| if c == '\n' { ' ' } else { c })
}

pub open spec fn has_hash(s: Seq<EntryView>, h: Seq<char>) -> bool {
    exists|i: int| 0 <= i < s.len() && #[trigger] s[i].hash == h
}

/// Entry `i` carries hash `h` and has the smallest id among those that do.
pub open spec fn hash_owner_at(s: Seq<EntryView>, h: Seq<char>, i: int) -> bool {
    &&& 0 <= i < s.len()
    &&& s[i].hash == h
    &&& forall|j: int| 0 <= j < s.len() && #[trigger] s[j].hash == h ==> s[i].id <= s[j].id
}

/// Index of the entry that a lookup by hash finds: among the entries with
/// hash `h`, the one with the smallest id.
pub open spec fn hash_owner(s: Seq<EntryView>, h: Seq<char>) -> int {
    choose|i: int| hash_owner_at(s, h, i)
}

/// The entry a new payload becomes.
pub open spec fn fresh_entry(
    v: HistoryView,
    mime: Seq<char>,
    data: Seq<u8>,
    hash: Seq<char>,
    now: i64,
    preview: Option<Seq<char>>,
) -> EntryView {
    EntryView {
        id: (v.seq + 1) as i64,
        timestamp: now,
        mime,
        size: data.len() as i64,
        preview,
        content: data,
        hash,
    }
}

/// The `MAX_HISTORY` first entries of `s`.
pub open spec fn capped(s: Seq<EntryView>) -> Seq<EntryView> {
    if s.len() <= MAX_HISTORY {
        s
    } else {
        s.take(MAX_HISTORY as int)
    }
}

/// Ids of the entries of `s` past the first `MAX_HISTORY`.
pub open spec fn overflow_ids(s: Seq<EntryView>) -> Seq<i64> {
    if s.len() <= MAX_HISTORY {
        Seq::empty()
    } else {
        s.skip(MAX_HISTORY as int).map_values(|e: EntryView| e.id)
    }
}

/// Preview kept by `insert_with_hash`: only for MIME types containing `text`.
pub open spec fn text_preview(mime: Seq<char>, data: Seq<u8>) -> Option<Seq<char>> {
    if has_infix(mime, "text"@) {
        Some(preview_text(data))
    } else {
        None
    }
}

/// Effect of `insert_with_hash(mime, data, hash, now)` on history `v`: the
/// new history, the outcome, and the evicted ids; or the error.
pub open spec fn insert_spec(
    v: HistoryView,
    mime: Seq<char>,
    data: Seq<u8>,
    hash: Seq<char>,
    now: i64,
) -> Result<(HistoryView, StoreOutcome, Seq<i64>), DbError> {
    if data.len() == 0 || hint_flagged(mime) {
        Ok((v, StoreOutcome::Skipped, Seq::empty()))
    } else if has_hash(v.entries, hash) {
        let id = v.entries[hash_owner(v.entries, hash)].id;
        let moved = retimed(v.entries, id, now);
        Ok((HistoryView { entries: capped(moved), ..v }, StoreOutcome::Refreshed(id), overflow_ids(moved)))
    } else if v.seq == i64::MAX {
        Err(DbError::SequenceExhausted)
    } else {
        let grown = place(v.entries, fresh_entry(v, mime, data, hash, now, text_preview(mime, data)));
        Ok(
            (
                HistoryView { entries: capped(grown), seq: (v.seq + 1) as i64, ..v },
                StoreOutcome::Inserted((v.seq + 1) as i64),
                overflow_ids(grown),
            ),
        )
    }
}

/// Preview kept for a captured selection: for MIME types containing `text`
/// and for URI lists.
pub open spec fn capture_preview(mime: Seq<char>, data: Seq<u8>) -> Option<Seq<char>> {
    if has_infix(mime, "text"@) || mime == MIME_URI_LIST@ {
        Some(preview_text(data))
    } else {
        None
    }
}

/// Effect of `record_capture(mime, data, now)`: a captured selection is
/// hashed with MD5; a known payload only has its timestamp renewed, a new one
/// is stored and the history is then cut to `MAX_HISTORY` entries.
pub open spec fn capture_spec(v: HistoryView, mime: Seq<char>, data: Seq<u8>, now: i64) -> Result<
    (HistoryView, StoreOutcome, Seq<i64>),
    DbError,
> {
    let hash = hex_lower(md5_digest(data));
    if data.len() == 0 {
        Ok((v, StoreOutcome::Skipped, Seq::empty()))
    } else if has_hash(v.entries, hash) {
        let id = v.entries[hash_owner(v.entries, hash)].id;
        Ok((HistoryView { entries: retimed(v.entries, id, now), ..v }, StoreOutcome::Refreshed(id), Seq::empty()))
    } else if v.seq == i64::MAX {
        Err(DbError::SequenceExhausted)
    } else {
        let grown = place(v.entries, fresh_entry(v, mime, data, hash, now, capture_preview(mime, data)));
        Ok(
            (
                HistoryView { entries: capped(grown), seq: (v.seq + 1) as i64, ..v },
                StoreOutcome::Inserted((v.seq + 1) as i64),
                overflow_ids(grown),
            ),
        )
    }
}

/// How a storing operation relates the history before and after it and its
/// result.
pub open spec fn store_matches(
    spec_result: Result<(HistoryView, StoreOutcome, Seq<i64>), DbError>,
    before: HistoryView,
    after: HistoryView,
    r: Result<StoreReport, DbError>,
) -> bool {
    match r {
        Ok(rep) => spec_result == Ok::<(HistoryView, StoreOutcome, Seq<i64>), DbError>((after, rep.outcome, rep.evicted@)),
        Err(e) => spec_result == Err::<(HistoryView, StoreOutcome, Seq<i64>), DbError>(e) && after == before,
    }
}


/// Bytes of the `LIKE` pattern `%query%`.
pub open spec fn pattern_bytes(q: Seq<char>) -> Seq<u8> {
    seq![0x25u8] + encode_utf8(q) + seq![0x25u8]
}

/// The MIME type is one that search looks into: it contains `text` or
/// `UTF8`, in any ASCII case.
pub open spec fn searchable_mime(m: Seq<char>) -> bool {
    like(str_text("%text%"@), str_text(m)) || like(str_text("%UTF8%"@), str_text(m))
}

/// Entry `e` matches pattern `pat`: its preview does, or, when it has none,
/// its content read as text does.
pub open spec fn search_hit(e: EntryView, pat: Seq<u32>) -> bool {
    searchable_mime(e.mime) && match e.preview {
        Some(p) => like(pat, str_text(p)),
        None => like(pat, sql_text(e.content)),
    }
}

/// The entries of `s` that match `pat`, in order.
pub open spec fn hits(s: Seq<EntryView>, pat: Seq<u32>) -> Seq<EntryView>
    decreases s.len(),
{
    if s.len() == 0 {
        Seq::empty()
    } else if search_hit(s.last(), pat) {
        hits(s.drop_last(), pat).push(s.last())
    } else {
        hits(s.drop_last(), pat)
    }
}

/// Result of `search_metadata(query, limit)`: metadata of the first `limit`
/// matching entries; nothing when the pattern is longer than SQLite accepts.
pub open spec fn search_spec(s: Seq<EntryView>, q: Seq<char>, limit: nat) -> Seq<
    (i64, i64, Seq<char>, i64, Option<Seq<char>>),
> {
    if pattern_bytes(q).len() > LIKE_PATTERN_LIMIT {
        Seq::empty()
    } else {
        metas(hits(s, sql_text(pattern_bytes(q))), limit)
    }
}

/// Rows, as read back from storage, form a well-formed history.
pub open spec fn rows_wf(rows: Seq<ClipEntry>, seq: i64) -> bool {
    history_wf(HistoryView { entries: rows.map_values(|e: ClipEntry| e@), seq, path: Seq::empty() })
}

proof fn lemma_capped_wf(v: HistoryView)
    requires
        history_wf(v),
    ensures
        history_wf(HistoryView { entries: capped(v.entries), ..v }),
{
}

proof fn lemma_insert_pos(s: Seq<EntryView>, e: EntryView, k: int)
    requires
        0 <= k <= s.len(),
        forall|j: int| 0 <= j < k ==> ranks_before(#[trigger] s[j], e),
        k == s.len() || !ranks_before(s[k], e),
    ensures
        insert_pos(s, e) == k,
    decreases k,
{
    if k > 0 {
        assert forall|j: int| 0 <= j < k - 1 implies ranks_before(#[trigger] s.drop_first()[j], e) by {
            assert(s.drop_first()[j] == s[j + 1]);
        }
        lemma_insert_pos(s.drop_first(), e, k - 1);
    }
}

/// Placing an entry with a fresh id keeps the history well formed.
pub(crate) proof fn lemma_place_wf(s: Seq<EntryView>, e: EntryView, seq: i64)
    requires
        history_wf(HistoryView { entries: s, seq, path: Seq::empty() }),
        1 <= e.id <= seq,
        !has_id(s, e.id),
    ensures
        history_wf(HistoryView { entries: place(s, e), seq, path: Seq::empty() }),
        place(s, e).len() == s.len() + 1,
{
    let k = place_index(s, e);
    let r = place(s, e);
    s.insert_ensures(k, e);
    assert forall|i: int| k <= i < s.len() implies ranks_before(e, #[trigger] s[i]) by {
        assert(s[k].id != e.id);
        if i > k {
            assert(ranks_before(s[k], s[i]));
        }
    }
    assert forall|i: int, j: int| 0 <= i < j < r.len() implies ranks_before(
        #[trigger] r[i],
        #[trigger] r[j],
    ) by {
        if j < k {
        } else if j == k {
        } else if i < k {
            assert(r[j] == s[j - 1]);
            assert(ranks_before(s[i], e));
        } else if i == k {
            assert(r[j] == s[j - 1]);
        } else {
            assert(r[i] == s[i - 1] && r[j] == s[j - 1]);
        }
    }
    assert forall|i: int, j: int| 0 <= i < r.len() && 0 <= j < r.len() && i != j implies #[trigger] r[i].id
        != #[trigger] r[j].id by {
        if i != k && j != k {
            let i0 = if i < k { i } else { i - 1 };
            let j0 = if j < k { j } else { j - 1 };
            assert(r[i] == s[i0] && r[j] == s[j0]);
        } else if i == k {
            let j0 = if j < k { j } else { j - 1 };
            assert(r[j] == s[j0]);
        } else {
            let i0 = if i < k { i } else { i - 1 };
            assert(r[i] == s[i0]);
        }
    }
    assert forall|i: int| 0 <= i < r.len() implies 1 <= #[trigger] r[i].id <= seq by {
        if i < k {
        } else if i > k {
            assert(r[i] == s[i - 1]);
        }
    }
}

/// Where `e` goes, and what holds of the entries on either side of it.
pub(crate) proof fn place_index(s: Seq<EntryView>, e: EntryView) -> (k: int)
    ensures
        k == insert_pos(s, e),
        0 <= k <= s.len(),
        forall|j: int| 0 <= j < k ==> ranks_before(#[trigger] s[j], e),
        k < s.len() ==> !ranks_before(s[k], e),
    decreases s.len(),
{
    if s.len() == 0 {
        0
    } else if ranks_before(s[0], e) {
        let k1 = place_index(s.drop_first(), e);
        assert forall|j: int| 0 <= j < k1 + 1 implies ranks_before(#[trigger] s[j], e) by {
            if j > 0 {
                assert(s[j] == s.drop_first()[j - 1]);
            }
        }
        k1 + 1
    } else {
        0
    }
}

/// Removing an entry keeps the history well formed.
pub(crate) proof fn lemma_remove_wf(s: Seq<EntryView>, i: int, seq: i64)
    requires
        history_wf(HistoryView { entries: s, seq, path: Seq::empty() }),
        0 <= i < s.len(),
    ensures
        history_wf(HistoryView { entries: s.remove(i), seq, path: Seq::empty() }),
        !has_id(s.remove(i), s[i].id),
{
    let r = s.remove(i);
    s.remove_ensures(i);
    assert forall|a: int, b: int| 0 <= a < b < r.len() implies ranks_before(
        #[trigger] r[a],
        #[trigger] r[b],
    ) by {
        let a0 = if a < i { a } else { a + 1 };
        let b0 = if b < i { b } else { b + 1 };
        assert(r[a] == s[a0] && r[b] == s[b0]);
    }
    assert forall|a: int, b: int| 0 <= a < r.len() && 0 <= b < r.len() && a != b implies #[trigger] r[a].id
        != #[trigger] r[b].id by {
        let a0 = if a < i { a } else { a + 1 };
        let b0 = if b < i { b } else { b + 1 };
        assert(r[a] == s[a0] && r[b] == s[b0]);
    }
    assert forall|a: int| 0 <= a < r.len() implies 1 <= #[trigger] r[a].id <= seq by {
        let a0 = if a < i { a } else { a + 1 };
        assert(r[a] == s[a0]);
    }
    if has_id(r, s[i].id) {
        let a = choose|a: int| 0 <= a < r.len() && #[trigger] r[a].id == s[i].id;
        let a0 = if a < i { a } else { a + 1 };
        assert(r[a] == s[a0]);
    }
}

/// With unique ids, the index of an id is the one holding it.
pub(crate) proof fn lemma_index_of_id(s: Seq<EntryView>, i: int)
    requires
        ids_unique(s),
        0 <= i < s.len(),
    ensures
        has_id(s, s[i].id),
        index_of_id(s, s[i].id) == i,
{
    assert(s[i].id == s[i].id);
    let j = index_of_id(s, s[i].id);
    assert(0 <= j < s.len() && s[j].id == s[i].id);
}

/// The clipboard history.
pub struct ClipboardDb {
    path: String,
    entries: Vec<ClipEntry>,
    seq: i64,
}

impl View for ClipboardDb {
    type V = HistoryView;

    closed spec fn view(&self) -> HistoryView {
        HistoryView {
            entries: self.entries@.map_values(|e: ClipEntry| e@),
            seq: self.seq,
            path: self.path@,
        }
    }
}

fn ranks_before_exec(a: &ClipEntry, b: &ClipEntry) -> (r: bool)
    ensures
        r == ranks_before(a@, b@),
{
    a.timestamp > b.timestamp || (a.timestamp == b.timestamp && a.id > b.id)
}

fn clone_opt_string(o: &Option<String>) -> (r: Option<String>)
    ensures
        opt_string_view(r) == opt_string_view(*o),
{
    match o {
        Some(s) => Some(s.clone()),
        None => None,
    }
}

impl ClipboardDb {
    pub open spec fn wf(&self) -> bool {
        history_wf(self@)
    }

    /// An empty history stored at `path`.
    pub fn new(path: String) -> (r: Self)
        ensures
            r.wf(),
            r@.entries == Seq::<EntryView>::empty(),
            r@.seq == 0,
            r@.path == path@,
    {
        let r = ClipboardDb { path, entries: Vec::new(), seq: 0 };
        assert(r@.entries =~= Seq::<EntryView>::empty());
        r
    }

    /// Where the history is stored.
    pub fn path(&self) -> (r: &String)
        ensures
            r@ == self@.path,
    {
        &self.path
    }

    /// Number of stored entries.
    pub fn get_total_count(&self) -> (r: usize)
        ensures
            r == self@.entries.len(),
    {
        self.entries.len()
    }

    /// The entries themselves, most recent first.
    pub fn entries(&self) -> (r: &[ClipEntry])
        ensures
            r@.map_values(|e: ClipEntry| e@) == self@.entries,
    {
        self.entries.as_slice()
    }

    /// Largest id handed out so far.
    pub fn sequence(&self) -> (r: i64)
        ensures
            r == self@.seq,
    {
        self.seq
    }

    /// Metadata of the `limit` most recent entries, most recent first.
    pub fn fetch_metadata(&self, limit: usize) -> (r: Vec<(i64, i64, String, i64, Option<String>)>)
        ensures
            meta_views(r@) == metas(
                self@.entries,
                limit as nat,
            ),
    {
        let n = if limit < self.entries.len() {
            limit
        } else {
            self.entries.len()
        };
        let mut r: Vec<(i64, i64, String, i64, Option<String>)> = Vec::new();
        let mut i: usize = 0;
        while i < n
            invariant
                n <= self.entries@.len(),
                i <= n,
                r@.len() == i,
                forall|j: int|
                    0 <= j < i ==> meta_view(#[trigger] r@[j]) == meta_of(self.entries@[j]@),
            decreases n - i,
        {
            let e = &self.entries[i];
            r.push((e.id, e.timestamp, e.mime.clone(), e.size, clone_opt_string(&e.preview)));
            i += 1;
        }
        assert(meta_views(r@) =~= metas(
            self@.entries,
            limit as nat,
        ));
        r
    }

    /// Content of the most recent entry.
    pub fn get_latest_data(&self) -> (r: Option<Vec<u8>>)
        ensures
            match r {
                Some(v) => self@.entries.len() > 0 && v@ == self@.entries[0].content,
                None => self@.entries.len() == 0,
            },
    {
        if self.entries.len() == 0 {
            None
        } else {
            Some(self.entries[0].content.clone())
        }
    }

    /// Index of the entry with id `id`.
    fn position_of(&self, id: i64) -> (r: Option<usize>)
        requires
            self.wf(),
        ensures
            match r {
                Some(i) => has_id(self@.entries, id) && i == index_of_id(self@.entries, id) && i
                    < self@.entries.len(),
                None => !has_id(self@.entries, id),
            },
    {
        let mut i: usize = 0;
        while i < self.entries.len()
            invariant
                self.wf(),
                i <= self@.entries.len(),
                forall|j: int| 0 <= j < i ==> #[trigger] self@.entries[j].id != id,
            decreases self@.entries.len() - i,
        {
            if self.entries[i].id == id {
                proof {
                    lemma_index_of_id(self@.entries, i as int);
                }
                return Some(i);
            }
            i += 1;
        }
        None
    }

    /// MIME type and content of the entry with id `id`.
    pub fn get_content_by_id(&self, id: i64) -> (r: Option<(String, Vec<u8>)>)
        requires
            self.wf(),
        ensures
            match r {
                Some((m, c)) => lookup(self@.entries, id) matches Some(e) && m@ == e.mime && c@
                    == e.content,
                None => lookup(self@.entries, id) is None,
            },
    {
        match self.position_of(id) {
            Some(i) => {
                let e = &self.entries[i];
                Some((e.mime.clone(), e.content.clone()))
            },
            None => None,
        }
    }

    /// Removes the entry with id `id`; true when there was one.
    pub fn delete_by_id(&mut self, id: i64) -> (r: bool)
        requires
            old(self).wf(),
        ensures
            final(self).wf(),
            r == has_id(old(self)@.entries, id),
            final(self)@.entries == without_id(old(self)@.entries, id),
            final(self)@.seq == old(self)@.seq,
            final(self)@.path == old(self)@.path,
    {
        match self.position_of(id) {
            Some(i) => {
                proof {
                    lemma_remove_wf(self@.entries, i as int, self.seq);
                }
                let ghost before = self@.entries;
                self.entries.remove(i);
                assert(self@.entries =~= before.remove(i as int));
                true
            },
            None => false,
        }
    }

    /// Removes every entry; the id sequence is kept, so ids are not reused.
    pub fn wipe(&mut self)
        requires
            old(self).wf(),
        ensures
            final(self).wf(),
            final(self)@.entries == Seq::<EntryView>::empty(),
            final(self)@.seq == old(self)@.seq,
            final(self)@.path == old(self)@.path,
    {
        self.entries.clear();
        assert(self@.entries =~= Seq::<EntryView>::empty());
    }

    /// Position at which `e` belongs.
    fn find_place(&self, e: &ClipEntry) -> (r: usize)
        ensures
            r == insert_pos(self@.entries, e@),
            r <= self@.entries.len(),
    {
        let mut k: usize = 0;
        while k < self.entries.len() && ranks_before_exec(&self.entries[k], e)
            invariant
                k <= self@.entries.len(),
                forall|j: int| 0 <= j < k ==> ranks_before(#[trigger] self@.entries[j], e@),
            decreases self@.entries.len() - k,
        {
            k += 1;
        }
        proof {
            lemma_insert_pos(self@.entries, e@, k as int);
        }
        k
    }

    /// Puts `e`, whose id is fresh, at its place in the order.
    fn put(&mut self, e: ClipEntry)
        requires
            old(self).wf(),
            1 <= e.id <= old(self).seq,
            !has_id(old(self)@.entries, e.id),
        ensures
            final(self).wf(),
            final(self)@.entries == place(old(self)@.entries, e@),
            final(self).seq == old(self).seq,
            final(self)@.path == old(self)@.path,
    {
        let k = self.find_place(&e);
        let ghost before = self@.entries;
        let ghost ev = e@;
        proof {
            lemma_place_wf(before, ev, self.seq);
        }
        self.entries.insert(k, e);
        assert(self@.entries =~= before.insert(k as int, ev));
    }

    /// Index of the entry that a lookup by hash finds.
    fn find_hash_owner(&self, hash: &str) -> (r: Option<usize>)
        requires
            self.wf(),
        ensures
            match r {
                Some(i) => has_hash(self@.entries, hash@) && i == hash_owner(self@.entries, hash@) && i
                    < self@.entries.len(),
                None => !has_hash(self@.entries, hash@),
            },
    {
        let ghost s = self@.entries;
        let mut best: Option<usize> = None;
        let mut i: usize = 0;
        while i < self.entries.len()
            invariant
                self.wf(),
                s == self@.entries,
                i <= s.len(),
                match best {
                    None => forall|j: int| 0 <= j < i ==> #[trigger] s[j].hash != hash@,
                    Some(b) => b < i && s[b as int].hash == hash@ && forall|j: int|
                        0 <= j < i && #[trigger] s[j].hash == hash@ ==> s[b as int].id <= s[j].id,
                },
            decreases s.len() - i,
        {
            if str_eq(self.entries[i].hash.as_str(), hash) {
                match best {
                    None => {
                        best = Some(i);
                    },
                    Some(b) => {
                        if self.entries[i].id < self.entries[b].id {
                            best = Some(i);
                        }
                    },
                }
            }
            i += 1;
        }
        match best {
            Some(b) => {
                proof {
                    assert(hash_owner_at(s, hash@, b as int));
                    let c = hash_owner(s, hash@);
                    assert(hash_owner_at(s, hash@, c));
                    assert(s[c].id == s[b as int].id);
                }
                best
            },
            None => None,
        }
    }

    /// Cuts the history to its `MAX_HISTORY` first entries, returning the ids
    /// of those that were cut off.
    fn evict_overflow(&mut self) -> (r: Vec<i64>)
        requires
            old(self).wf(),
        ensures
            final(self).wf(),
            final(self)@ == (HistoryView { entries: capped(old(self)@.entries), ..old(self)@ }),
            r@ == overflow_ids(old(self)@.entries),
    {
        let mut r: Vec<i64> = Vec::new();
        let n = self.entries.len();
        if n <= MAX_HISTORY {
            assert(r@ =~= overflow_ids(self@.entries));
            return r;
        }
        let ghost s = self@.entries;
        let mut i: usize = MAX_HISTORY;
        while i < n
            invariant
                n == self@.entries.len(),
                s == self@.entries,
                MAX_HISTORY <= i <= n,
                r@ == s.subrange(MAX_HISTORY as int, i as int).map_values(|e: EntryView| e.id),
            decreases n - i,
        {
            r.push(self.entries[i].id);
            assert(s.subrange(MAX_HISTORY as int, i + 1).map_values(|e: EntryView| e.id) =~= s.subrange(
                MAX_HISTORY as int,
                i as int,
            ).map_values(|e: EntryView| e.id).push(s[i as int].id));
            i += 1;
        }
        self.entries.truncate(MAX_HISTORY);
        proof {
            lemma_capped_wf(old(self)@);
        }
        assert(self@.entries =~= capped(s));
        assert(r@ =~= overflow_ids(s));
        r
    }

    /// Builds the entry a new payload becomes.
    fn fresh(&self, mime: &str, data: &[u8], hash: &str, now: i64, preview: Option<String>) -> (r: ClipEntry)
        requires
            self@.seq < i64::MAX,
            data@.len() <= i64::MAX,
        ensures
            r@ == fresh_entry(self@, mime@, data@, hash@, now, opt_string_view(preview)),
    {
        ClipEntry {
            id: self.seq + 1,
            timestamp: now,
            mime: mime.to_owned(),
            size: data.len() as i64,
            preview,
            content: vstd::slice::slice_to_vec(data),
            hash: hash.to_owned(),
        }
    }

    /// Stores `e`, a fresh entry with id `seq + 1`, then evicts the overflow.
    fn add_fresh(&mut self, e: ClipEntry) -> (r: Vec<i64>)
        requires
            old(self).wf(),
            old(self)@.seq < i64::MAX,
            e.id == old(self)@.seq + 1,
        ensures
            final(self).wf(),
            final(self)@ == (HistoryView {
                entries: capped(place(old(self)@.entries, e@)),
                seq: (old(self)@.seq + 1) as i64,
                ..old(self)@
            }),
            r@ == overflow_ids(place(old(self)@.entries, e@)),
    {
        self.seq = self.seq + 1;
        assert(!has_id(self@.entries, e.id)) by {
            if has_id(self@.entries, e.id) {
                let j = choose|j: int| 0 <= j < self@.entries.len() && #[trigger] self@.entries[j].id == e.id;
                assert(ids_in_range(old(self)@.entries, old(self)@.seq));
            }
        }
        assert(history_wf(self@)) by {
            assert forall|j: int| 0 <= j < self@.entries.len() implies 1 <= #[trigger] self@.entries[j].id <= self@.seq by {
                assert(self@.entries[j] == old(self)@.entries[j]);
            }
        }
        self.put(e);
        self.evict_overflow()
    }

    /// Stores a payload under a precomputed hash. Empty payloads and MIME
    /// types carrying a sensitive hint are skipped; a payload whose hash is
    /// already stored only has its timestamp renewed; a new payload becomes
    /// an entry with the next id, with a preview when its MIME type holds
    /// `text`. The history is then cut to `MAX_HISTORY` entries.
    pub fn insert_with_hash(&mut self, mime: &str, data: &[u8], hash: &str, now: i64) -> (r: Result<
        StoreReport,
        DbError,
    >)
        requires
            old(self).wf(),
            data@.len() <= i64::MAX,
        ensures
            final(self).wf(),
            store_matches(insert_spec(old(self)@, mime@, data@, hash@, now), old(self)@, final(self)@, r),
    {
        if data.len() == 0 || Self::flagged(mime) {
            let r = StoreReport { outcome: StoreOutcome::Skipped, evicted: Vec::new() };
            assert(r.evicted@ =~= Seq::<i64>::empty());
            return Ok(r);
        }
        match self.find_hash_owner(hash) {
            Some(i) => {
                let id = self.entries[i].id;
                proof {
                    lemma_index_of_id(self@.entries, i as int);
                }
                let ghost before = self@;
                self.update_timestamp(id, now);
                let ghost moved = self@;
                let evicted = self.evict_overflow();
                proof {
                    assert(moved == (HistoryView { entries: retimed(before.entries, id, now), ..before }));
                }
                Ok(StoreReport { outcome: StoreOutcome::Refreshed(id), evicted })
            },
            None => {
                if self.seq == i64::MAX {
                    return Err(DbError::SequenceExhausted);
                }
                let preview = if str_contains(mime, "text") {
                    Some(Self::preview_of(data))
                } else {
                    None
                };
                let e = self.fresh(mime, data, hash, now, preview);
                let id = e.id;
                let evicted = self.add_fresh(e);
                Ok(StoreReport { outcome: StoreOutcome::Inserted(id), evicted })
            },
        }
    }

    /// Hashes the payload with MD5 and stores it as `insert_with_hash` does.
    pub fn insert_raw(&mut self, mime: &str, data: &[u8], now: i64) -> (r: Result<StoreReport, DbError>)
        requires
            old(self).wf(),
            data@.len() <= i64::MAX,
        ensures
            final(self).wf(),
            store_matches(
                insert_spec(old(self)@, mime@, data@, hex_lower(md5_digest(data@)), now),
                old(self)@,
                final(self)@,
                r,
            ),
    {
        let hash = md5_hex(data);
        self.insert_with_hash(mime, data, hash.as_str(), now)
    }

    /// Stores a selection captured from the compositor: empty payloads are
    /// dropped; a payload whose MD5 is known only has its timestamp renewed;
    /// a new payload becomes an entry with the next id, with a preview for
    /// text and URI lists, and the history is cut to `MAX_HISTORY` entries.
    pub fn record_capture(&mut self, mime: &str, data: &[u8], now: i64) -> (r: Result<StoreReport, DbError>)
        requires
            old(self).wf(),
            data@.len() <= i64::MAX,
        ensures
            final(self).wf(),
            store_matches(capture_spec(old(self)@, mime@, data@, now), old(self)@, final(self)@, r),
    {
        if data.len() == 0 {
            let r = StoreReport { outcome: StoreOutcome::Skipped, evicted: Vec::new() };
            assert(r.evicted@ =~= Seq::<i64>::empty());
            return Ok(r);
        }
        let hash = md5_hex(data);
        match self.find_hash_owner(hash.as_str()) {
            Some(i) => {
                let id = self.entries[i].id;
                proof {
                    lemma_index_of_id(self@.entries, i as int);
                }
                self.update_timestamp(id, now);
                let r = StoreReport { outcome: StoreOutcome::Refreshed(id), evicted: Vec::new() };
                assert(r.evicted@ =~= Seq::<i64>::empty());
                Ok(r)
            },
            None => {
                if self.seq == i64::MAX {
                    return Err(DbError::SequenceExhausted);
                }
                let preview = if str_contains(mime, "text") || str_eq(mime, MIME_URI_LIST) {
                    Some(Self::preview_of(data))
                } else {
                    None
                };
                let e = self.fresh(mime, data, hash.as_str(), now, preview);
                let id = e.id;
                let evicted = self.add_fresh(e);
                Ok(StoreReport { outcome: StoreOutcome::Inserted(id), evicted })
            },
        }
    }

    /// Whether `mime` carries one of the sensitive hints.
    fn flagged(mime: &str) -> (r: bool)
        ensures
            r == hint_flagged(mime@),
    {
        let mut i: usize = 0;
        while i < SENSITIVE_MIME_HINTS.len()
            invariant
                i <= SENSITIVE_MIME_HINTS@.len(),
                forall|j: int| 0 <= j < i ==> !has_infix(mime@, #[trigger] SENSITIVE_MIME_HINTS@[j]@),
            decreases SENSITIVE_MIME_HINTS@.len() - i,
        {
            if str_contains(mime, SENSITIVE_MIME_HINTS[i]) {
                return true;
            }
            i += 1;
        }
        false
    }

    /// The preview of a payload.
    fn preview_of(data: &[u8]) -> (r: String)
        ensures
            r@ == preview_text(data@),
    {
        let t = lossy_text(data);
        let n = t.as_str().unicode_len();
        let k = if n < PREVIEW_CHARS {
            n
        } else {
            PREVIEW_CHARS
        };
        let ghost full = t@;
        let ghost want = full.take(k as int).map_values(|c: char| if c == '\n' { ' ' } else { c });
        let mut r = String::new();
        let mut i: usize = 0;
        while i < k
            invariant
                k <= full.len(),
                full == t@,
                i <= k,
                want == full.take(k as int).map_values(|c: char| if c == '\n' { ' ' } else { c }),
                r@ == want.take(i as int),
            decreases k - i,
        {
            let c = t.as_str().get_char(i);
            let d = if c == '\n' {
                ' '
            } else {
                c
            };
            crate::text::push_char_to(&mut r, d);
            assert(want.take(i + 1) =~= want.take(i as int).push(d));
            i += 1;
        }
        assert(want.take(k as int) =~= want);
        r
    }

    /// A history holding `rows`, in the order given, with id sequence `seq`;
    /// `None` when they do not form a well-formed history.
    pub fn from_rows(path: String, rows: Vec<ClipEntry>, seq: i64) -> (r: Option<Self>)
        ensures
            match r {
                Some(db) => db.wf() && db@ == (HistoryView {
                    entries: rows@.map_values(|e: ClipEntry| e@),
                    seq,
                    path: path@,
                }),
                None => !rows_wf(rows@, seq),
            },
    {
        let ghost s = rows@.map_values(|e: ClipEntry| e@);
        if seq < 0 {
            return None;
        }
        let n = rows.len();
        let mut i: usize = 0;
        while i < n
            invariant
                n == rows@.len(),
                s == rows@.map_values(|e: ClipEntry| e@),
                i <= n,
                forall|a: int, b: int| 0 <= a < i && a < b < n ==> ranks_before(#[trigger] s[a], #[trigger] s[b]) && s[a].id != s[b].id,
                forall|a: int| 0 <= a < i ==> 1 <= #[trigger] s[a].id <= seq,
            decreases n - i,
        {
            if rows[i].id < 1 || rows[i].id > seq {
                assert(!ids_in_range(s, seq)) by {
                    assert(s[i as int].id == rows@[i as int].id);
                }
                return None;
            }
            let mut j: usize = i + 1;
            while j < n
                invariant
                    n == rows@.len(),
                    s == rows@.map_values(|e: ClipEntry| e@),
                    i < j <= n,
                    forall|b: int| i < b < j ==> ranks_before(s[i as int], #[trigger] s[b]) && s[i as int].id != s[b].id,
                decreases n - j,
            {
                if !ranks_before_exec(&rows[i], &rows[j]) || rows[i].id == rows[j].id {
                    proof {
                        assert(s[i as int] == rows@[i as int]@ && s[j as int] == rows@[j as int]@);
                        if sorted(s) && ids_unique(s) {
                            assert(ranks_before(s[i as int], s[j as int]));
                            assert(s[i as int].id != s[j as int].id);
                        }
                    }
                    return None;
                }
                j += 1;
            }
            i += 1;
        }
        let db = ClipboardDb { path, entries: rows, seq };
        assert(db@.entries == s);
        assert forall|a: int, b: int| 0 <= a < s.len() && 0 <= b < s.len() && a != b implies #[trigger] s[a].id
            != #[trigger] s[b].id by {
            if a < b {
            } else {
                assert(ranks_before(s[b], s[a]) && s[b].id != s[a].id);
            }
        }
        Some(db)
    }

    /// Removes the entry shown at position `idx` of the listing of the
    /// `MAX_HISTORY` most recent entries; true when there is one.
    pub fn delete_by_index(&mut self, idx: usize) -> (r: bool)
        requires
            old(self).wf(),
        ensures
            final(self).wf(),
            r == (idx < old(self)@.entries.len() && idx < MAX_HISTORY),
            r ==> final(self)@.entries == old(self)@.entries.remove(idx as int),
            !r ==> final(self)@.entries == old(self)@.entries,
            final(self)@.seq == old(self)@.seq,
            final(self)@.path == old(self)@.path,
    {
        if idx < self.entries.len() && idx < MAX_HISTORY {
            proof {
                lemma_remove_wf(self@.entries, idx as int, self.seq);
            }
            let ghost before = self@.entries;
            self.entries.remove(idx);
            assert(self@.entries =~= before.remove(idx as int));
            true
        } else {
            false
        }
    }

    /// Metadata of the most recent `limit` entries of a text MIME type whose
    /// preview (or, without one, whose content) contains `query`, where `%`
    /// and `_` in `query` act as `LIKE` wildcards and ASCII case is ignored.
    pub fn search_metadata(&self, query: &str, limit: usize) -> (r: Vec<(i64, i64, String, i64, Option<String>)>)
        ensures
            meta_views(r@) == search_spec(
                self@.entries,
                query@,
                limit as nat,
            ),
    {
        let qb = query.as_bytes();
        let mut pb: Vec<u8> = Vec::new();
        pb.push(0x25u8);
        let mut k: usize = 0;
        while k < qb.len()
            invariant
                k <= qb@.len(),
                qb@ == encode_utf8(query@),
                pb@ == seq![0x25u8] + qb@.take(k as int),
            decreases qb@.len() - k,
        {
            pb.push(qb[k]);
            assert(qb@.take(k + 1) =~= qb@.take(k as int).push(qb@[k as int]));
            assert(seq![0x25u8] + qb@.take(k + 1) =~= (seq![0x25u8] + qb@.take(k as int)).push(qb@[k as int]));
            k += 1;
        }
        pb.push(0x25u8);
        assert(qb@.take(k as int) =~= qb@);
        assert(pb@ =~= pattern_bytes(query@));
        if pb.len() > LIKE_PATTERN_LIMIT {
            return Vec::new();
        }
        let pat = sql_text_codes(pb.as_slice());
        let text_pat = sql_text_codes("%text%".as_bytes());
        let utf8_pat = sql_text_codes("%UTF8%".as_bytes());
        let ghost s = self@.entries;
        let ghost pv = pat@;
        let mut found: Vec<(i64, i64, String, i64, Option<String>)> = Vec::new();
        let mut i: usize = 0;
        while i < self.entries.len()
            invariant
                s == self@.entries,
                pv == pat@,
                pv == sql_text(pattern_bytes(query@)),
                pattern_bytes(query@).len() <= LIKE_PATTERN_LIMIT,
                text_pat@ == str_text("%text%"@),
                utf8_pat@ == str_text("%UTF8%"@),
                i <= s.len(),
                meta_views(found@) == meta_seq(hits(s.take(i as int), pv)),
            decreases s.len() - i,
        {
            let e = &self.entries[i];
            let mc = sql_text_codes(e.mime.as_str().as_bytes());
            let mut hit = like_match(text_pat.as_slice(), mc.as_slice()) || like_match(
                utf8_pat.as_slice(),
                mc.as_slice(),
            );
            if hit {
                hit = match &e.preview {
                    Some(p) => {
                        let pc = sql_text_codes(p.as_str().as_bytes());
                        like_match(pat.as_slice(), pc.as_slice())
                    },
                    None => {
                        let tc = sql_text_codes(e.content.as_slice());
                        like_match(pat.as_slice(), tc.as_slice())
                    },
                };
            }
            let ghost old_found = found@;
            proof {
                assert(s.take(i + 1).drop_last() =~= s.take(i as int));
                assert(s.take(i + 1).last() == s[i as int]);
                assert(e@ == s[i as int]);
                assert(hit == search_hit(s[i as int], pv));
            }
            if hit {
                let tup = (e.id, e.timestamp, e.mime.clone(), e.size, clone_opt_string(&e.preview));
                assert(meta_view(tup) == meta_of(s[i as int]));
                assert(hits(s.take(i + 1), pv) == hits(s.take(i as int), pv).push(s[i as int]));
                found.push(tup);
                assert(found@ == old_found.push(tup));
                proof {
                    let fm = meta_views(found@);
                    let om = meta_views(old_found);
                    let h0 = meta_seq(hits(s.take(i as int), pv));
                    let h1 = meta_seq(hits(s.take(i + 1), pv));
                    assert(om == h0);
                    assert(om.len() == old_found.len());
                    assert(fm.len() == found@.len());
                    assert(h1.len() == h0.len() + 1);
                    assert(fm.len() == h1.len());
                    assert forall|k: int| 0 <= k < fm.len() implies fm[k] == h1[k] by {
                        if k < om.len() {
                            assert(fm[k] == om[k]);
                            assert(h1[k] == h0[k]);
                        }
                    }
                    assert(fm =~= h1);
                }
                assert(meta_views(found@) =~= meta_seq(hits(s.take(i + 1), pv)));
            } else {
                assert(hits(s.take(i + 1), pv) == hits(s.take(i as int), pv));
                assert(meta_views(found@) =~= meta_seq(hits(s.take(i + 1), pv)));
            }
            i += 1;
        }
        assert(s.take(i as int) =~= s);
        let ghost all = found@;
        let ghost hs = hits(s, pv);
        assert(meta_views(all) == meta_seq(hs));
        assert(all.len() == hs.len());
        assert forall|k: int| 0 <= k < all.len() implies meta_view(#[trigger] all[k]) == meta_of(hs[k]) by {
            assert(meta_views(all)[k] == meta_view(all[k]));
            assert(meta_seq(hs)[k] == meta_of(hs[k]));
        }
        found.truncate(limit);
        assert(meta_views(found@) =~= search_spec(
            s,
            query@,
            limit as nat,
        ));
        found
    }

    /// Stamps the entry with id `id` with time `now`, moving it to its new
    /// place in the order; nothing changes when there is no such entry.
    pub fn update_timestamp(&mut self, id: i64, now: i64)
        requires
            old(self).wf(),
        ensures
            final(self).wf(),
            final(self)@.entries == retimed(old(self)@.entries, id, now),
            final(self)@.seq == old(self)@.seq,
            final(self)@.path == old(self)@.path,
    {
        match self.position_of(id) {
            Some(i) => {
                let ghost before = self@.entries;
                proof {
                    lemma_remove_wf(before, i as int, self.seq);
                }
                let mut e = self.entries.remove(i);
                assert(self@.entries =~= before.remove(i as int));
                e.timestamp = now;
                assert(e@ == (EntryView { timestamp: now, ..before[i as int] }));
                self.put(e);
            },
            None => {},
        }
    }
}

} // verus!
