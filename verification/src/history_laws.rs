//! Laws of the clipboard history, stated over the operations' specifications.

use vstd::prelude::*;
use crate::constants::{MAX_HISTORY, MIME_URI_LIST, PREVIEW_CHARS};
use crate::codec::utf8_lossy;
use crate::text::has_infix;
use crate::like::{
    char_codes, codes_from, law_keyword_search, lemma_codes_concat, lemma_codes_encode, lemma_no_nul,
    lemma_str_text, no_wildcards, same_ignoring_case, sql_text, starts_clean, MATCH_ALL, MATCH_ONE,
};
use vstd::utf8::encode_utf8;
use crate::history::{
    capture_preview, capture_spec, fresh_entry, has_hash, has_id, hash_owner, hash_owner_at,
    history_wf, index_of_id, insert_pos, insert_spec, lemma_index_of_id, lemma_place_wf,
    lemma_remove_wf, lookup, place, place_index, retimed, text_preview, without_id, DbError,
    EntryView, HistoryView, StoreOutcome, hint_flagged, capped, overflow_ids, ranks_before, sorted,
    pattern_bytes, search_hit, searchable_mime, preview_text, metas, hits, search_spec,
};

verus! {

proof fn lemma_hash_owner_prefix(s: Seq<EntryView>, h: Seq<char>, n: int)
    requires
        0 <= n <= s.len(),
        exists|i: int| 0 <= i < n && #[trigger] s[i].hash == h,
    ensures
        exists|i: int|
            0 <= i < n && s[i].hash == h && forall|j: int|
                0 <= j < n && #[trigger] s[j].hash == h ==> s[i].id <= s[j].id,
    decreases n,
{
    if exists|i: int| 0 <= i < n - 1 && #[trigger] s[i].hash == h {
        lemma_hash_owner_prefix(s, h, n - 1);
        let i = choose|i: int|
            0 <= i < n - 1 && s[i].hash == h && forall|j: int|
                0 <= j < n - 1 && #[trigger] s[j].hash == h ==> s[i].id <= s[j].id;
        if s[n - 1].hash == h && s[n - 1].id < s[i].id {
            assert forall|j: int| 0 <= j < n && #[trigger] s[j].hash == h implies s[n - 1].id
                <= s[j].id by {
                if j < n - 1 {
                    assert(s[i].id <= s[j].id);
                }
            }
        } else {
            assert forall|j: int| 0 <= j < n && #[trigger] s[j].hash == h implies s[i].id
                <= s[j].id by {
                if j < n - 1 {
                }
            }
        }
    } else {
        assert(s[n - 1].hash == h);
        assert forall|j: int| 0 <= j < n && #[trigger] s[j].hash == h implies s[n - 1].id
            <= s[j].id by {
            if j < n - 1 {
                assert(s[j].hash != h);
            }
        }
    }
}

/// A lookup by hash finds an entry that carries the hash.
pub proof fn lemma_hash_owner(s: Seq<EntryView>, h: Seq<char>)
    requires
        has_hash(s, h),
    ensures
        hash_owner_at(s, h, hash_owner(s, h)),
        0 <= hash_owner(s, h) < s.len(),
        s[hash_owner(s, h)].hash == h,
{
    let i = choose|i: int| 0 <= i < s.len() && #[trigger] s[i].hash == h;
    lemma_hash_owner_prefix(s, h, s.len() as int);
    let k = choose|k: int|
        0 <= k < s.len() && s[k].hash == h && forall|j: int|
            0 <= j < s.len() && #[trigger] s[j].hash == h ==> s[k].id <= s[j].id;
    assert(hash_owner_at(s, h, k));
}

/// An entry stamped later than every stored entry goes first.
proof fn lemma_place_first(s: Seq<EntryView>, e: EntryView)
    requires
        forall|i: int| 0 <= i < s.len() ==> #[trigger] s[i].timestamp < e.timestamp,
    ensures
        place(s, e).len() == s.len() + 1,
        place(s, e)[0] == e,
{
    assert(insert_pos(s, e) == 0);
    s.insert_ensures(0, e);
}

/// Retiming the entry with hash `h` to a time later than every stored entry
/// brings it first.
proof fn lemma_retime_first(s: Seq<EntryView>, h: Seq<char>, seq: i64, now: i64)
    requires
        history_wf(HistoryView { entries: s, seq, path: Seq::empty() }),
        has_hash(s, h),
        forall|i: int| 0 <= i < s.len() ==> #[trigger] s[i].timestamp < now,
    ensures
        retimed(s, s[hash_owner(s, h)].id, now).len() == s.len(),
        retimed(s, s[hash_owner(s, h)].id, now)[0].hash == h,
        retimed(s, s[hash_owner(s, h)].id, now)[0].timestamp == now,
{
    lemma_hash_owner(s, h);
    let i = hash_owner(s, h);
    lemma_index_of_id(s, i);
    let r = s.remove(i);
    s.remove_ensures(i);
    assert forall|k: int| 0 <= k < r.len() implies #[trigger] r[k].timestamp < now by {
        let k0 = if k < i { k } else { k + 1 };
        assert(r[k] == s[k0]);
    }
    lemma_place_first(r, EntryView { timestamp: now, ..s[i] });
}

/// What is stored last is read back first: after `insert_with_hash` of a
/// non-empty payload that is not marked sensitive, at a time later than
/// every stored entry, the most recent entry carries the given hash, and it
/// holds exactly the given MIME type and payload when the payload was new;
/// a lookup by the new id then finds that entry.
pub proof fn law_insert_then_latest(
    v: HistoryView,
    mime: Seq<char>,
    data: Seq<u8>,
    hash: Seq<char>,
    now: i64,
)
    requires
        history_wf(v),
        data.len() > 0,
        !hint_flagged(mime),
        v.seq < i64::MAX,
        forall|i: int| 0 <= i < v.entries.len() ==> #[trigger] v.entries[i].timestamp < now,
    ensures
        insert_spec(v, mime, data, hash, now) matches Ok((w, outcome, _)) && w.entries.len() > 0
            && w.entries[0].hash == hash && w.entries[0].timestamp == now && (outcome matches StoreOutcome::Inserted(id)
            ==> w.entries[0].id == id && w.entries[0].content == data && w.entries[0].mime == mime
            && lookup(w.entries, id) == Some(w.entries[0])),
{
    if has_hash(v.entries, hash) {
        lemma_retime_first(v.entries, hash, v.seq, now);
    } else {
        let e = fresh_entry(v, mime, data, hash, now, text_preview(mime, data));
        lemma_place_first(v.entries, e);
        lemma_fresh_wf(v, e);
        let w = capped(place(v.entries, e));
        lemma_index_of_id(w, 0);
    }
}

/// Storing a fresh entry keeps the history well formed.
proof fn lemma_fresh_wf(v: HistoryView, e: EntryView)
    requires
        history_wf(v),
        v.seq < i64::MAX,
        e.id == v.seq + 1,
    ensures
        history_wf(HistoryView { entries: capped(place(v.entries, e)), seq: (v.seq + 1) as i64, path: Seq::empty() }),
{
    let seq1 = (v.seq + 1) as i64;
    assert(history_wf(HistoryView { entries: v.entries, seq: seq1, path: Seq::empty() })) by {
        assert forall|i: int| 0 <= i < v.entries.len() implies 1 <= #[trigger] v.entries[i].id <= seq1 by {}
    }
    assert(!has_id(v.entries, e.id));
    lemma_place_wf(v.entries, e, seq1);
}

/// The same law for selections captured by the daemon.
pub proof fn law_capture_then_latest(v: HistoryView, mime: Seq<char>, data: Seq<u8>, now: i64)
    requires
        history_wf(v),
        data.len() > 0,
        v.seq < i64::MAX,
        forall|i: int| 0 <= i < v.entries.len() ==> #[trigger] v.entries[i].timestamp < now,
    ensures
        capture_spec(v, mime, data, now) matches Ok((w, outcome, _)) && w.entries.len() > 0
            && w.entries[0].timestamp == now && (outcome matches StoreOutcome::Inserted(id)
            ==> w.entries[0].id == id && w.entries[0].content == data && w.entries[0].mime == mime
            && lookup(w.entries, id) == Some(w.entries[0])),
{
    let hash = crate::codec::hex_lower(crate::codec::md5_digest(data));
    if has_hash(v.entries, hash) {
        lemma_retime_first(v.entries, hash, v.seq, now);
    } else {
        let e = fresh_entry(v, mime, data, hash, now, capture_preview(mime, data));
        lemma_place_first(v.entries, e);
        lemma_fresh_wf(v, e);
        let w = capped(place(v.entries, e));
        lemma_index_of_id(w, 0);
    }
}

/// Storing never lets the history grow past `MAX_HISTORY` entries: after a
/// store that did not skip, at most `MAX_HISTORY` entries remain, and the
/// evicted entries are exactly those pushed past that bound.
pub proof fn law_capacity(v: HistoryView, mime: Seq<char>, data: Seq<u8>, hash: Seq<char>, now: i64)
    requires
        history_wf(v),
    ensures
        insert_spec(v, mime, data, hash, now) matches Ok((w, outcome, _)) ==> (outcome
            != StoreOutcome::Skipped ==> w.entries.len() <= MAX_HISTORY),
        v.entries.len() <= MAX_HISTORY ==> (capture_spec(v, mime, data, now) matches Ok((w, _, _))
            ==> w.entries.len() <= MAX_HISTORY),
{
    let h = crate::codec::hex_lower(crate::codec::md5_digest(data));
    if has_hash(v.entries, h) {
        lemma_hash_owner(v.entries, h);
        lemma_index_of_id(v.entries, hash_owner(v.entries, h));
        let i = hash_owner(v.entries, h);
        v.entries.remove_ensures(i);
        let r = v.entries.remove(i);
        let e = EntryView { timestamp: now, ..v.entries[i] };
        let k = place_index(r, e);
        r.insert_ensures(k, e);
    }
}

/// A payload whose hash is already stored adds no entry: the entry count
/// and the id sequence stay as they were.
pub proof fn law_dedup(v: HistoryView, mime: Seq<char>, data: Seq<u8>, hash: Seq<char>, now: i64)
    requires
        history_wf(v),
        v.entries.len() <= MAX_HISTORY,
        has_hash(v.entries, hash),
    ensures
        insert_spec(v, mime, data, hash, now) matches Ok((w, outcome, evicted)) && w.entries.len()
            == v.entries.len() && w.seq == v.seq && evicted.len() == 0 && (outcome
            matches StoreOutcome::Refreshed(id) ==> lookup(v.entries, id) matches Some(e) && e.hash
            == hash),
{
    lemma_hash_owner(v.entries, hash);
    let i = hash_owner(v.entries, hash);
    lemma_index_of_id(v.entries, i);
    v.entries.remove_ensures(i);
    let r = v.entries.remove(i);
    let e = EntryView { timestamp: now, ..v.entries[i] };
    if !(data.len() == 0 || hint_flagged(mime)) {
        assert(insert_pos(r, e) <= r.len()) by {
            let k = place_index(r, e);
        }
        r.insert_ensures(insert_pos(r, e) as int, e);
    }
}

/// Empty payloads and payloads whose MIME type carries a sensitive hint are
/// never stored: the history is left exactly as it was.
pub proof fn law_skipped_payloads(v: HistoryView, mime: Seq<char>, data: Seq<u8>, hash: Seq<char>, now: i64)
    requires
        data.len() == 0 || hint_flagged(mime),
    ensures
        insert_spec(v, mime, data, hash, now) == Ok::<(HistoryView, StoreOutcome, Seq<i64>), DbError>(
            (v, StoreOutcome::Skipped, Seq::empty()),
        ),
{
}

/// Ids are never reused: a new entry's id is larger than every id stored,
/// and the id sequence never goes back.
pub proof fn law_fresh_ids(v: HistoryView, mime: Seq<char>, data: Seq<u8>, hash: Seq<char>, now: i64)
    requires
        history_wf(v),
    ensures
        insert_spec(v, mime, data, hash, now) matches Ok((w, outcome, _)) ==> w.seq >= v.seq && (
        outcome matches StoreOutcome::Inserted(id) ==> id == w.seq && forall|i: int|
            0 <= i < v.entries.len() ==> #[trigger] v.entries[i].id < id),
        capture_spec(v, mime, data, now) matches Ok((w, outcome, _)) ==> w.seq >= v.seq && (
        outcome matches StoreOutcome::Inserted(id) ==> id == w.seq && forall|i: int|
            0 <= i < v.entries.len() ==> #[trigger] v.entries[i].id < id),
{
}

/// After `delete_by_id(id)` nothing is found under `id`, and every other
/// entry is still there.
pub proof fn law_delete_removes(s: Seq<EntryView>, seq: i64, id: i64)
    requires
        history_wf(HistoryView { entries: s, seq, path: Seq::empty() }),
    ensures
        lookup(without_id(s, id), id) is None,
        forall|other: i64| other != id ==> lookup(without_id(s, id), other) == lookup(s, other),
{
    if has_id(s, id) {
        let i = index_of_id(s, id);
        lemma_remove_wf(s, i, seq);
        let r = s.remove(i);
        s.remove_ensures(i);
        assert forall|other: i64| other != id implies lookup(r, other) == lookup(s, other) by {
            if has_id(s, other) {
                let j = index_of_id(s, other);
                lemma_index_of_id(s, j);
                let j0 = if j < i { j } else { j - 1 };
                assert(r[j0] == s[j]);
                lemma_index_of_id(r, j0);
            } else if has_id(r, other) {
                let j0 = index_of_id(r, other);
                let j = if j0 < i { j0 } else { j0 + 1 };
                assert(r[j0] == s[j]);
            }
        }
    }
}

/// Renewing a timestamp keeps every entry and only changes that entry's
/// time: the count is unchanged and the entry is found with the new time.
pub proof fn law_retime_keeps_entries(s: Seq<EntryView>, seq: i64, id: i64, now: i64)
    requires
        history_wf(HistoryView { entries: s, seq, path: Seq::empty() }),
    ensures
        retimed(s, id, now).len() == s.len(),
        has_id(s, id) ==> lookup(retimed(s, id, now), id) == Some(
            EntryView { timestamp: now, ..lookup(s, id).unwrap() },
        ),
{
    if has_id(s, id) {
        let i = index_of_id(s, id);
        lemma_remove_wf(s, i, seq);
        let r = s.remove(i);
        let e = EntryView { timestamp: now, ..s[i] };
        assert(1 <= e.id <= seq);
        lemma_place_wf(r, e, seq);
        let k = place_index(r, e);
        r.insert_ensures(k, e);
        lemma_index_of_id(place(r, e), k);
    }
}


/// Renewing a timestamp keeps the history well formed and keeps every id.
proof fn lemma_retimed_wf(s: Seq<EntryView>, seq: i64, id: i64, now: i64)
    requires
        history_wf(HistoryView { entries: s, seq, path: Seq::empty() }),
    ensures
        history_wf(HistoryView { entries: retimed(s, id, now), seq, path: Seq::empty() }),
        retimed(s, id, now).len() == s.len(),
        forall|j: int| 0 <= j < s.len() ==> has_id(retimed(s, id, now), #[trigger] s[j].id),
{
    if has_id(s, id) {
        let i = index_of_id(s, id);
        lemma_remove_wf(s, i, seq);
        let r = s.remove(i);
        s.remove_ensures(i);
        let e = EntryView { timestamp: now, ..s[i] };
        assert(1 <= e.id <= seq);
        lemma_place_wf(r, e, seq);
        let k = place_index(r, e);
        r.insert_ensures(k, e);
        let g = place(r, e);
        assert forall|j: int| 0 <= j < s.len() implies has_id(g, #[trigger] s[j].id) by {
            if j == i {
                assert(g[k].id == s[j].id);
            } else {
                let j0 = if j < i { j } else { j - 1 };
                assert(r[j0] == s[j]);
                let j1 = if j0 < k { j0 } else { j0 + 1 };
                assert(g[j1] == r[j0]);
            }
        }
    }
}

/// Placing an entry keeps every id already there.
proof fn lemma_place_keeps_ids(s: Seq<EntryView>, e: EntryView)
    ensures
        place(s, e).len() == s.len() + 1,
        has_id(place(s, e), e.id),
        forall|j: int| 0 <= j < s.len() ==> has_id(place(s, e), #[trigger] s[j].id),
{
    let k = place_index(s, e);
    s.insert_ensures(k, e);
    let g = place(s, e);
    assert(g[k] == e);
    assert forall|j: int| 0 <= j < s.len() implies has_id(g, #[trigger] s[j].id) by {
        let j1 = if j < k { j } else { j + 1 };
        assert(g[j1] == s[j]);
    }
}

/// Every store keeps the history well formed: ordered, with unique ids that
/// the id sequence covers.
pub proof fn law_insert_keeps_wf(v: HistoryView, mime: Seq<char>, data: Seq<u8>, hash: Seq<char>, now: i64)
    requires
        history_wf(v),
    ensures
        insert_spec(v, mime, data, hash, now) matches Ok((w, _, _)) ==> history_wf(w),
        capture_spec(v, mime, data, now) matches Ok((w, _, _)) ==> history_wf(w),
{
    let hc = crate::codec::hex_lower(crate::codec::md5_digest(data));
    if has_hash(v.entries, hash) {
        lemma_hash_owner(v.entries, hash);
        lemma_retimed_wf(v.entries, v.seq, v.entries[hash_owner(v.entries, hash)].id, now);
    } else if v.seq < i64::MAX {
        lemma_fresh_wf(v, fresh_entry(v, mime, data, hash, now, text_preview(mime, data)));
    }
    if has_hash(v.entries, hc) {
        lemma_hash_owner(v.entries, hc);
        lemma_retimed_wf(v.entries, v.seq, v.entries[hash_owner(v.entries, hc)].id, now);
    } else if v.seq < i64::MAX {
        lemma_fresh_wf(v, fresh_entry(v, mime, data, hc, now, capture_preview(mime, data)));
    }
}

/// `kept` and the ids `evicted` split the ordered entries `all`: `kept` is
/// the newest part of `all`, at most `MAX_HISTORY` entries and exactly that
/// many when anything was evicted, and every kept entry ranks before every
/// evicted one.
pub open spec fn newest_kept(all: Seq<EntryView>, kept: Seq<EntryView>, evicted: Seq<i64>) -> bool {
    &&& sorted(all)
    &&& kept.len() <= MAX_HISTORY
    &&& kept == all.take(kept.len() as int)
    &&& evicted == all.skip(kept.len() as int).map_values(|e: EntryView| e.id)
    &&& (evicted.len() > 0 ==> kept.len() == MAX_HISTORY)
    &&& forall|i: int, j: int| 0 <= i < kept.len() <= j < all.len() ==> ranks_before(
        #[trigger] all[i],
        #[trigger] all[j],
    )
}

/// The store that left `kept` and evicted `evicted` kept the newest of the
/// ordered entries it held, among them every entry of `before`.
pub open spec fn kept_newest(before: Seq<EntryView>, kept: Seq<EntryView>, evicted: Seq<i64>) -> bool {
    exists|all: Seq<EntryView>|
        newest_kept(all, kept, evicted) && forall|j: int|
            0 <= j < before.len() ==> has_id(all, #[trigger] before[j].id)
}

proof fn lemma_capped_split(all: Seq<EntryView>)
    requires
        sorted(all),
    ensures
        newest_kept(all, capped(all), overflow_ids(all)),
{
    if all.len() <= MAX_HISTORY {
        assert(all.take(all.len() as int) =~= all);
        assert(all.skip(all.len() as int).map_values(|e: EntryView| e.id) =~= Seq::<i64>::empty());
    }
}

/// Eviction keeps the newest entries: after a store that did not skip, the
/// entries kept and those evicted split the ordered entries (every entry
/// held before, with the new or renewed one) so that at most `MAX_HISTORY`
/// remain and every kept entry is newer than, or as new as and with a larger
/// id than, every evicted one.
pub proof fn law_eviction_keeps_newest(
    v: HistoryView,
    mime: Seq<char>,
    data: Seq<u8>,
    hash: Seq<char>,
    now: i64,
)
    requires
        history_wf(v),
    ensures
        insert_spec(v, mime, data, hash, now) matches Ok((w, outcome, evicted)) ==> (outcome
            != StoreOutcome::Skipped ==> kept_newest(v.entries, w.entries, evicted)),
        capture_spec(v, mime, data, now) matches Ok((w, outcome, evicted)) ==> (outcome
            matches StoreOutcome::Inserted(_) ==> kept_newest(v.entries, w.entries, evicted)),
{
    let hc = crate::codec::hex_lower(crate::codec::md5_digest(data));
    if !(data.len() == 0 || hint_flagged(mime)) {
        if has_hash(v.entries, hash) {
            lemma_hash_owner(v.entries, hash);
            let id = v.entries[hash_owner(v.entries, hash)].id;
            let g = retimed(v.entries, id, now);
            lemma_retimed_wf(v.entries, v.seq, id, now);
            lemma_capped_split(g);
            assert(newest_kept(g, capped(g), overflow_ids(g)) && forall|j: int|
                0 <= j < v.entries.len() ==> has_id(g, #[trigger] v.entries[j].id));
            assert(kept_newest(v.entries, capped(g), overflow_ids(g)));
        } else if v.seq < i64::MAX {
            let e = fresh_entry(v, mime, data, hash, now, text_preview(mime, data));
            let g = place(v.entries, e);
            lemma_place_wf_seq(v, e);
            lemma_place_keeps_ids(v.entries, e);
            lemma_capped_split(g);
            assert(newest_kept(g, capped(g), overflow_ids(g)) && forall|j: int|
                0 <= j < v.entries.len() ==> has_id(g, #[trigger] v.entries[j].id));
            assert(kept_newest(v.entries, capped(g), overflow_ids(g)));
        }
    }
    if data.len() != 0 && !has_hash(v.entries, hc) && v.seq < i64::MAX {
        let e = fresh_entry(v, mime, data, hc, now, capture_preview(mime, data));
        let g = place(v.entries, e);
        lemma_place_wf_seq(v, e);
        lemma_place_keeps_ids(v.entries, e);
        lemma_capped_split(g);
        assert(newest_kept(g, capped(g), overflow_ids(g)) && forall|j: int|
            0 <= j < v.entries.len() ==> has_id(g, #[trigger] v.entries[j].id));
        assert(kept_newest(v.entries, capped(g), overflow_ids(g)));
    }
}

/// Placing a fresh entry keeps the entries ordered.
proof fn lemma_place_wf_seq(v: HistoryView, e: EntryView)
    requires
        history_wf(v),
        v.seq < i64::MAX,
        e.id == v.seq + 1,
    ensures
        sorted(place(v.entries, e)),
{
    let seq1 = (v.seq + 1) as i64;
    assert(history_wf(HistoryView { entries: v.entries, seq: seq1, path: Seq::empty() })) by {
        assert forall|i: int| 0 <= i < v.entries.len() implies 1 <= #[trigger] v.entries[i].id <= seq1 by {}
    }
    assert(!has_id(v.entries, e.id));
    lemma_place_wf(v.entries, e, seq1);
}

/// Storing `data` under `hash` into `v1` at time `again` renews the entry
/// carrying `hash`: it succeeds, adds no entry, evicts nothing, keeps the id
/// sequence, and stamps that entry with `again`; when `again` is later than
/// every stored entry, that entry comes first.
pub open spec fn renews(v1: HistoryView, mime: Seq<char>, data: Seq<u8>, hash: Seq<char>, again: i64) -> bool {
    match insert_spec(v1, mime, data, hash, again) {
        Ok((w, StoreOutcome::Refreshed(id), evicted)) => {
            &&& w.entries.len() == v1.entries.len()
            &&& w.seq == v1.seq
            &&& evicted.len() == 0
            &&& lookup(w.entries, id) matches Some(e) && e.hash == hash && e.timestamp == again
            &&& (forall|i: int| 0 <= i < v1.entries.len() ==> #[trigger] v1.entries[i].timestamp < again)
                ==> w.entries[0].hash == hash && w.entries[0].timestamp == again
        },
        _ => false,
    }
}

/// Storing the same payload again renews it. The first store succeeds; the
/// payload is then held, unless older entries filled the history and it was
/// stamped earlier than all of them. While it is held, storing it again
/// succeeds, adds no entry, evicts nothing, keeps the id sequence, and
/// stamps the entry carrying its hash with the new time; when that time is
/// later than every stored entry, that entry comes first.
pub proof fn law_reinsert(
    v: HistoryView,
    mime: Seq<char>,
    data: Seq<u8>,
    hash: Seq<char>,
    first: i64,
    again: i64,
)
    requires
        history_wf(v),
        data.len() > 0,
        !hint_flagged(mime),
        v.seq < i64::MAX,
    ensures
        insert_spec(v, mime, data, hash, first) matches Ok((v1, _, _)) && ((v.entries.len() < MAX_HISTORY
            || forall|i: int| 0 <= i < v.entries.len() ==> #[trigger] v.entries[i].timestamp < first)
            ==> has_hash(v1.entries, hash)) && (has_hash(v1.entries, hash) ==> renews(v1, mime, data, hash, again)),
{
    law_insert_keeps_wf(v, mime, data, hash, first);
    law_capacity(v, mime, data, hash, first);
    let v1 = insert_spec(v, mime, data, hash, first).unwrap().0;
    if forall|i: int| 0 <= i < v.entries.len() ==> #[trigger] v.entries[i].timestamp < first {
        law_insert_then_latest(v, mime, data, hash, first);
        assert(v1.entries[0].hash == hash);
    }
    if v.entries.len() < MAX_HISTORY {
        if has_hash(v.entries, hash) {
            lemma_hash_owner(v.entries, hash);
            let id = v.entries[hash_owner(v.entries, hash)].id;
            law_retime_keeps_entries(v.entries, v.seq, id, first);
            lemma_index_of_id(v.entries, hash_owner(v.entries, hash));
            let g = retimed(v.entries, id, first);
            assert(capped(g) == g);
            let k = index_of_id(g, id);
            assert(g[k].hash == hash);
        } else {
            let e = fresh_entry(v, mime, data, hash, first, text_preview(mime, data));
            let k = place_index(v.entries, e);
            v.entries.insert_ensures(k, e);
            let g = place(v.entries, e);
            assert(capped(g) == g);
            assert(g[k].hash == hash);
        }
    }
    if has_hash(v1.entries, hash) {
        law_dedup(v1, mime, data, hash, again);
        lemma_hash_owner(v1.entries, hash);
        let id = v1.entries[hash_owner(v1.entries, hash)].id;
        lemma_index_of_id(v1.entries, hash_owner(v1.entries, hash));
        law_retime_keeps_entries(v1.entries, v1.seq, id, again);
        let g = retimed(v1.entries, id, again);
        assert(capped(g) == g);
        if forall|i: int| 0 <= i < v1.entries.len() ==> #[trigger] v1.entries[i].timestamp < again {
            lemma_retime_first(v1.entries, hash, v1.seq, again);
        }
    }
}

/// A keyword search finds an entry through its preview exactly when the
/// keyword occurs in the preview, ignoring ASCII case: for a keyword without
/// `%`, `_` or NUL and a preview without NUL, an entry of a searchable type
/// matches when some run of its preview equals the keyword up to ASCII
/// case; an entry of another type never matches.
pub proof fn law_search_finds_keyword(e: EntryView, q: Seq<char>)
    requires
        forall|k: int| 0 <= k < q.len() ==> #[trigger] q[k] != '%' && q[k] != '_' && q[k] != '\0',
        e.preview is Some,
        forall|k: int| 0 <= k < e.preview.unwrap().len() ==> #[trigger] e.preview.unwrap()[k] != '\0',
    ensures
        search_hit(e, sql_text(pattern_bytes(q))) == (searchable_mime(e.mime) && exists|i: int|
            0 <= i && i + q.len() <= e.preview.unwrap().len() && same_ignoring_case(
                #[trigger] char_codes(e.preview.unwrap()).subrange(i, i + q.len()),
                char_codes(q),
            )),
{
    let p = e.preview.unwrap();
    let pct = seq![0x25u8];
    let enc = encode_utf8(q);
    lemma_codes_encode(q);
    lemma_str_text(p);
    assert(codes_from(pct, 0) =~= seq![MATCH_ALL]) by {
        assert(codes_from(pct, 1) =~= Seq::<u32>::empty());
    }
    assert(starts_clean(pct));
    lemma_codes_concat(enc, pct, 0);
    assert(starts_clean(enc + pct)) by {
        if enc.len() > 0 {
            assert((enc + pct)[0] == enc[0]);
        } else {
            assert((enc + pct)[0] == pct[0]);
        }
    }
    lemma_codes_concat(pct, enc + pct, 0);
    let b = pattern_bytes(q);
    assert(b =~= pct + (enc + pct));
    assert forall|k: int| 0 <= k < b.len() implies #[trigger] b[k] != 0 by {
        if 0 < k < b.len() - 1 {
            assert(b[k] == enc[k - 1]);
        }
    }
    lemma_no_nul(b);
    let qc = char_codes(q);
    assert(sql_text(b) =~= seq![MATCH_ALL] + qc + seq![MATCH_ALL]);
    assert(no_wildcards(qc)) by {
        assert forall|k: int| 0 <= k < qc.len() implies #[trigger] qc[k] != MATCH_ALL && qc[k] != MATCH_ONE by {
            assert(qc[k] == q[k] as u32);
            vstd::utf8::char_u32_cast(q[k], qc[k]);
            vstd::utf8::char_u32_cast('%', '%' as u32);
            vstd::utf8::char_u32_cast('_', '_' as u32);
            assert('%' as u32 == 0x25);
            assert('_' as u32 == 0x5F);
        }
    }
    law_keyword_search(qc, char_codes(p));
}

/// A preview is the head of the payload's text: as many characters as the
/// text has, up to `PREVIEW_CHARS`, each the text's character at the same
/// place, with line breaks shown as spaces. So a short one-line text is its
/// own preview.
pub proof fn law_preview_is_head(data: Seq<u8>)
    ensures
        preview_text(data).len() == if utf8_lossy(data).len() < PREVIEW_CHARS {
            utf8_lossy(data).len()
        } else {
            PREVIEW_CHARS as nat
        },
        forall|k: int|
            0 <= k < preview_text(data).len() ==> #[trigger] preview_text(data)[k] == if utf8_lossy(data)[k]
                == '\n' {
                ' '
            } else {
                utf8_lossy(data)[k]
            },
        utf8_lossy(data).len() <= PREVIEW_CHARS && (forall|k: int|
            0 <= k < utf8_lossy(data).len() ==> #[trigger] utf8_lossy(data)[k] != '\n') ==> preview_text(data)
            == utf8_lossy(data),
{
    let t = utf8_lossy(data);
    if t.len() <= PREVIEW_CHARS && (forall|k: int| 0 <= k < t.len() ==> #[trigger] t[k] != '\n') {
        assert(preview_text(data) =~= t);
    }
}

/// Which preview a new entry keeps: `insert_with_hash` keeps the payload's
/// preview for a MIME type that contains `text` and none otherwise; a
/// captured selection keeps it for a MIME type that contains `text` and for
/// a URI list, and none otherwise. The entry stored under the new id holds
/// the given MIME type, payload and hash, stamped with the given time.
pub proof fn law_new_entry_preview(v: HistoryView, mime: Seq<char>, data: Seq<u8>, hash: Seq<char>, now: i64)
    requires
        history_wf(v),
    ensures
        insert_spec(v, mime, data, hash, now) matches Ok((w, outcome, _)) ==> (outcome matches StoreOutcome::Inserted(id)
            ==> (has_id(w.entries, id) ==> (lookup(w.entries, id) matches Some(e) && e.mime == mime && e.content == data
            && e.hash == hash && e.timestamp == now && e.preview == (if has_infix(mime, "text"@) {
            Some(preview_text(data))
        } else {
            None
        })))),
        capture_spec(v, mime, data, now) matches Ok((w, outcome, _)) ==> (outcome matches StoreOutcome::Inserted(id)
            ==> (has_id(w.entries, id) ==> (lookup(w.entries, id) matches Some(e) && e.mime == mime && e.content == data
            && e.timestamp == now && e.preview == (if has_infix(mime, "text"@) || mime == MIME_URI_LIST@ {
            Some(preview_text(data))
        } else {
            None
        })))),
{
    let hc = crate::codec::hex_lower(crate::codec::md5_digest(data));
    if !(data.len() == 0 || hint_flagged(mime)) && !has_hash(v.entries, hash) && v.seq < i64::MAX {
        let e = fresh_entry(v, mime, data, hash, now, text_preview(mime, data));
        lemma_new_entry_found(v, e);
    }
    if data.len() != 0 && !has_hash(v.entries, hc) && v.seq < i64::MAX {
        let e = fresh_entry(v, mime, data, hc, now, capture_preview(mime, data));
        lemma_new_entry_found(v, e);
    }
}

/// The entry found under a fresh id after it is placed and the history cut
/// is the placed entry.
proof fn lemma_new_entry_found(v: HistoryView, e: EntryView)
    requires
        history_wf(v),
        v.seq < i64::MAX,
        e.id == v.seq + 1,
    ensures
        has_id(capped(place(v.entries, e)), e.id) ==> lookup(capped(place(v.entries, e)), e.id) == Some(e),
{
    lemma_fresh_wf(v, e);
    let g = place(v.entries, e);
    let w = capped(g);
    let k = place_index(v.entries, e);
    v.entries.insert_ensures(k, e);
    if has_id(w, e.id) {
        let j = index_of_id(w, e.id);
        assert(w[j] == g[j]);
        if j != k {
            let j0 = if j < k { j } else { j - 1 };
            assert(g[j] == v.entries[j0]);
            assert(v.entries[j0].id <= v.seq);
        }
        assert(w[j] == e);
    }
}

/// A MIME type that mentions a password manager's hint, `password` or
/// `secret` is flagged as sensitive; so is an offer in which one lower-cased
/// type mentions one of them.
pub proof fn law_sensitive_hints(m: Seq<char>, lowered: Seq<Seq<char>>, j: int)
    ensures
        has_infix(m, "x-kde-passwordmanagerhint"@) ==> hint_flagged(m),
        has_infix(m, "password"@) ==> hint_flagged(m),
        has_infix(m, "secret"@) ==> hint_flagged(m),
        0 <= j < lowered.len() && (has_infix(lowered[j], "password"@) || has_infix(lowered[j], "secret"@)
            || has_infix(lowered[j], "x-kde-passwordmanagerhint"@)) ==> crate::mime::lowered_sensitive(lowered),
{
    assert(crate::constants::SENSITIVE_MIME_HINTS@[0]@ == "x-kde-passwordmanagerhint"@);
    assert(crate::constants::SENSITIVE_MIME_HINTS@[1]@ == "password"@);
    assert(crate::constants::SENSITIVE_MIME_HINTS@[2]@ == "secret"@);
}

/// Listing metadata: the first `limit` entries, or all when fewer are
/// stored, newest first, each with its own id, time, type, size and
/// preview.
pub proof fn law_metas(s: Seq<EntryView>, limit: nat)
    ensures
        metas(s, limit).len() == if limit < s.len() {
            limit
        } else {
            s.len()
        },
        forall|k: int| 0 <= k < metas(s, limit).len() ==> #[trigger] metas(s, limit)[k] == (
            s[k].id,
            s[k].timestamp,
            s[k].mime,
            s[k].size,
            s[k].preview,
        ),
{
}

/// A lookup by id finds the entry that carries that id, and nothing when
/// none does.
pub proof fn law_lookup(s: Seq<EntryView>, seq: i64, id: i64, i: int)
    requires
        history_wf(HistoryView { entries: s, seq, path: Seq::empty() }),
    ensures
        0 <= i < s.len() ==> lookup(s, s[i].id) == Some(s[i]),
        (forall|k: int| 0 <= k < s.len() ==> #[trigger] s[k].id != id) ==> lookup(s, id) is None,
        lookup(s, id) matches Some(e) ==> e.id == id && s.contains(e),
{
    if 0 <= i < s.len() {
        lemma_index_of_id(s, i);
    }
    if has_id(s, id) {
        let k = index_of_id(s, id);
        assert(s[k] == s[k]);
    }
}

/// Search results are entries that match, in listing order: no more than
/// are stored, each a stored entry that matches; all entries when all
/// match, none when none does.
pub proof fn law_hits(s: Seq<EntryView>, pat: Seq<u32>)
    ensures
        hits(s, pat).len() <= s.len(),
        forall|k: int| 0 <= k < hits(s, pat).len() ==> search_hit(#[trigger] hits(s, pat)[k], pat) && s.contains(hits(s, pat)[k]),
        (forall|k: int| 0 <= k < s.len() ==> search_hit(#[trigger] s[k], pat)) ==> hits(s, pat) == s,
        (forall|k: int| 0 <= k < s.len() ==> !search_hit(#[trigger] s[k], pat)) ==> hits(s, pat).len() == 0,
    decreases s.len(),
{
    if s.len() > 0 {
        let d = s.drop_last();
        law_hits(d, pat);
        let h = hits(s, pat);
        let hd = hits(d, pat);
        assert forall|k: int| 0 <= k < h.len() implies search_hit(#[trigger] h[k], pat) && s.contains(h[k]) by {
            if k < hd.len() {
                assert(h[k] == hd[k]);
                let j = choose|j: int| 0 <= j < d.len() && d[j] == hd[k];
                assert(s[j] == d[j]);
            } else {
                assert(h[k] == s.last());
                assert(s[s.len() - 1] == s.last());
            }
        }
        if forall|k: int| 0 <= k < s.len() ==> search_hit(#[trigger] s[k], pat) {
            assert forall|k: int| 0 <= k < d.len() implies search_hit(#[trigger] d[k], pat) by {
                assert(d[k] == s[k]);
            }
            assert(search_hit(s[s.len() - 1], pat));
            assert(s =~= d.push(s.last()));
        }
        if forall|k: int| 0 <= k < s.len() ==> !search_hit(#[trigger] s[k], pat) {
            assert forall|k: int| 0 <= k < d.len() implies !search_hit(#[trigger] d[k], pat) by {
                assert(d[k] == s[k]);
            }
            assert(!search_hit(s[s.len() - 1], pat));
        }
    }
}

/// A keyword search reads an entry without a preview through its content:
/// for a keyword without `%`, `_` or NUL and content that is the UTF-8 text
/// `c` without NUL, an entry of a searchable type matches when some run of
/// `c` equals the keyword up to ASCII case.
pub proof fn law_search_content(e: EntryView, q: Seq<char>, c: Seq<char>)
    requires
        forall|k: int| 0 <= k < q.len() ==> #[trigger] q[k] != '%' && q[k] != '_' && q[k] != '\0',
        e.preview is None,
        e.content == encode_utf8(c),
        forall|k: int| 0 <= k < c.len() ==> #[trigger] c[k] != '\0',
    ensures
        search_hit(e, sql_text(pattern_bytes(q))) == (searchable_mime(e.mime) && exists|i: int|
            0 <= i && i + q.len() <= c.len() && same_ignoring_case(
                #[trigger] char_codes(c).subrange(i, i + q.len()),
                char_codes(q),
            )),
{
    let pv = EntryView { preview: Some(c), ..e };
    law_search_finds_keyword(pv, q);
    lemma_str_text(c);
}

/// A captured selection already stored only renews its entry: the capture
/// succeeds, adds no entry, evicts nothing, keeps the id sequence, and
/// stamps the entry found by the payload's hash with the new time.
pub proof fn law_capture_dedup(v: HistoryView, mime: Seq<char>, data: Seq<u8>, now: i64)
    requires
        history_wf(v),
        data.len() > 0,
        has_hash(v.entries, crate::codec::hex_lower(crate::codec::md5_digest(data))),
    ensures
        capture_spec(v, mime, data, now) matches Ok((w, outcome, evicted)) && evicted.len() == 0 && w.seq == v.seq
            && w.entries.len() == v.entries.len() && (outcome matches StoreOutcome::Refreshed(id) && (lookup(
            w.entries,
            id,
        ) matches Some(e) && e.timestamp == now && e.hash == crate::codec::hex_lower(
            crate::codec::md5_digest(data),
        ))),
{
    let h = crate::codec::hex_lower(crate::codec::md5_digest(data));
    lemma_hash_owner(v.entries, h);
    let i = hash_owner(v.entries, h);
    lemma_index_of_id(v.entries, i);
    law_retime_keeps_entries(v.entries, v.seq, v.entries[i].id, now);
}

/// A search returns at most `limit` rows, the most recent matching entries
/// first, and nothing at all when the pattern `%query%` is longer than
/// SQLite accepts.
pub proof fn law_search_results(s: Seq<EntryView>, q: Seq<char>, limit: nat)
    ensures
        search_spec(s, q, limit).len() <= limit,
        pattern_bytes(q).len() == encode_utf8(q).len() + 2,
        pattern_bytes(q).len() > crate::like::LIKE_PATTERN_LIMIT ==> search_spec(s, q, limit).len() == 0,
        pattern_bytes(q).len() <= crate::like::LIKE_PATTERN_LIMIT ==> forall|k: int|
            0 <= k < search_spec(s, q, limit).len() ==> #[trigger] search_spec(s, q, limit)[k] == crate::history::meta_of(
                hits(s, sql_text(pattern_bytes(q)))[k],
            ),
{
    law_hits(s, sql_text(pattern_bytes(q)));
}

} // verus!
