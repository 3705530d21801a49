//! The laws the store and the capture loop obey, stated over the same
//! models the operations' contracts use and proved once and for all.

use vstd::prelude::*;
use crate::model::AppDataModel;
use crate::model::ClipboardItemModel;
use crate::model::IpHistoryItemModel;
use crate::model::unique_contents;
use crate::model::unique_ips;
use crate::model::sorted_by_timestamp_desc;
use crate::model::wf_app_data;
use crate::bytes::spec_is_blank;
use crate::fingerprint::spec_fingerprint;
use crate::store::spec_insert_history;
use crate::store::spec_insert_address;
use crate::store::purge_content;
use crate::store::purge_pred;
use crate::store::evict_oldest;
use crate::store::content_pred;
use crate::store::count_content;
use crate::store::captured_entry;
use crate::store::first_ip_index;
use crate::store::lemma_first_ip_index;
use crate::store::oldest_ip_index;
use crate::store::lemma_oldest_ip_index;
use crate::store::evict_addrs;
use crate::store::addr_insert_pos;
use crate::store::lemma_addr_insert_pos;
use crate::store::sorted_place;
use crate::store::touched_addr;
use crate::store::fresh_addr;
use crate::store::lemma_sorted_place_sorted;
use crate::store::lemma_insert_index;
use crate::store::lemma_filter_push;
use crate::store::spec_collapse_history;
use crate::store::spec_collapse_bookmarks;
use crate::store::unique_bm_keys;
use crate::monitor::ClipboardMonitorModel;
use crate::monitor::TickEventModel;
use crate::scan::spec_extract_ips;
use crate::monitor::spec_tick;
use crate::monitor::fold_addresses;
use crate::monitor::spec_text_tag;
use crate::codec::enc_app_data;
use crate::codec::p_document;
use crate::codec::lemma_codec_round_trip;

verus! {

/// Filtering a duplicate-free history leaves it duplicate-free.
proof fn lemma_filter_unique(s: Seq<ClipboardItemModel>, p: spec_fn(ClipboardItemModel) -> bool)
    requires
        unique_contents(s),
    ensures
        unique_contents(s.filter(p)),
    decreases s.len(),
{
    reveal(Seq::filter);
    if s.len() > 0 {
        let dl = s.drop_last();
        assert(unique_contents(dl));
        lemma_filter_unique(dl, p);
        if p(s.last()) {
            assert(s.filter(p) == dl.filter(p).push(s.last()));
            assert forall|g: int| 0 <= g < dl.filter(p).len() implies dl.filter(p)[g].content
                != s.last().content by {
                assert(dl.filter(p).contains(dl.filter(p)[g]));
                dl.lemma_filter_contains_rev(p, dl.filter(p)[g]);
                let idx = choose|idx: int| 0 <= idx < dl.len() && dl[idx] == dl.filter(p)[g];
                assert(s[idx] == dl[idx]);
                assert(s[idx].content != s[s.len() - 1].content);
            }
        }
    }
}

/// Capacity law of the history: whatever the history held before, even
/// after a settings change shrank the limit below its length, one
/// insertion evicts from the front down to the limit.
pub proof fn lemma_insert_history_bounded(
    h: Seq<ClipboardItemModel>,
    limit: int,
    item: ClipboardItemModel,
)
    requires
        limit >= 1,
    ensures
        spec_insert_history(h, limit, item).len() <= limit,
{
    let c = item.content;
    h.lemma_filter_len(purge_pred(c));
}

/// Deduplication law of the history: an insertion into a duplicate-free
/// history leaves it duplicate-free, and the new content occurs exactly
/// once.
pub proof fn lemma_insert_history_unique(
    h: Seq<ClipboardItemModel>,
    limit: int,
    item: ClipboardItemModel,
)
    requires
        limit >= 1,
        unique_contents(h),
    ensures
        unique_contents(spec_insert_history(h, limit, item)),
        count_content(spec_insert_history(h, limit, item), item.content) == 1,
    decreases h.len(),
{
    let c = item.content;
    let purged = purge_content(h, c);
    lemma_filter_unique(h, purge_pred(c));
    h.lemma_filter_len(purge_pred(c));
    let evicted = evict_oldest(purged, limit);
    let off: int = if purged.len() < limit {
        0
    } else {
        purged.len() - limit + 1
    };
    assert forall|g: int| 0 <= g < evicted.len() implies evicted[g] == purged[g + off] by {}
    assert(unique_contents(evicted));
    assert forall|g: int| 0 <= g < evicted.len() implies evicted[g].content != c by {
        h.lemma_filter_pred(purge_pred(c), g + off);
    }
    let r = evicted.push(item);
    assert(unique_contents(r));
    assert forall|g: int| 0 <= g < evicted.len() implies !content_pred(c)(evicted[g]) by {}
    evicted.lemma_all_neg_filter_empty(content_pred(c));
    lemma_filter_push(evicted, content_pred(c), item);
    assert(r.filter(content_pred(c)) == evicted.filter(content_pred(c)).push(item));
}

/// Eviction of the oldest sightings keeps the address log's invariants
/// and never reaches the limit.
proof fn lemma_evict_addrs_props(s: Seq<IpHistoryItemModel>, limit: int, ip: Seq<u8>)
    requires
        limit >= 1,
        unique_ips(s),
        sorted_by_timestamp_desc(s),
    ensures
        evict_addrs(s, limit).len() < limit,
        unique_ips(evict_addrs(s, limit)),
        sorted_by_timestamp_desc(evict_addrs(s, limit)),
        (forall|m: int| 0 <= m < s.len() ==> (#[trigger] s[m]).ip != ip) ==> (forall|m: int|
            0 <= m < evict_addrs(s, limit).len() ==> (#[trigger] evict_addrs(s, limit)[m]).ip
                != ip),
    decreases s.len(),
{
    if s.len() == 0 || s.len() < limit {
    } else {
        lemma_oldest_ip_index(s);
        let oi = oldest_ip_index(s);
        let s2 = s.remove(oi);
        assert forall|m: int| 0 <= m < s2.len() implies s2[m] == if m < oi {
            s[m]
        } else {
            s[m + 1]
        } by {}
        assert(unique_ips(s2));
        assert(sorted_by_timestamp_desc(s2));
        lemma_evict_addrs_props(s2, limit, ip);
    }
}

/// The address-log law: one recorded sighting keeps the log within its
/// limit, unique by ip, and sorted newest first.
pub proof fn lemma_insert_address_invariants(
    s: Seq<IpHistoryItemModel>,
    limit: int,
    ip: Seq<u8>,
    now: u64,
)
    requires
        limit >= 1,
        unique_ips(s),
        sorted_by_timestamp_desc(s),
        s.len() <= limit,
    ensures
        spec_insert_address(s, limit, ip, now).len() <= limit,
        unique_ips(spec_insert_address(s, limit, ip, now)),
        sorted_by_timestamp_desc(spec_insert_address(s, limit, ip, now)),
{
    lemma_first_ip_index(s, ip);
    let i = first_ip_index(s, ip);
    if i >= 0 {
        let s2 = s.remove(i);
        let e = touched_addr(s[i], now);
        assert forall|m: int| 0 <= m < s2.len() implies s2[m] == if m < i {
            s[m]
        } else {
            s[m + 1]
        } by {}
        assert(unique_ips(s2));
        assert(sorted_by_timestamp_desc(s2));
        assert forall|m: int| 0 <= m < s2.len() implies (#[trigger] s2[m]).ip != ip by {}
        lemma_sorted_place_sorted(s2, e);
        lemma_addr_insert_pos(s2, e.timestamp);
        let p = addr_insert_pos(s2, e.timestamp);
        let r = sorted_place(s2, e);
        assert forall|a: int, b: int| 0 <= a < b < r.len() implies r[a].ip != r[b].ip by {
            lemma_insert_index(s2, p, e, a);
            lemma_insert_index(s2, p, e, b);
        }
    } else {
        assert forall|m: int| 0 <= m < s.len() implies (#[trigger] s[m]).ip != ip by {}
        lemma_evict_addrs_props(s, limit, ip);
        let t = evict_addrs(s, limit);
        let e = fresh_addr(ip, now);
        lemma_sorted_place_sorted(t, e);
        lemma_addr_insert_pos(t, e.timestamp);
        let p = addr_insert_pos(t, e.timestamp);
        let r = sorted_place(t, e);
        assert forall|a: int, b: int| 0 <= a < b < r.len() implies r[a].ip != r[b].ip by {
            lemma_insert_index(t, p, e, a);
            lemma_insert_index(t, p, e, b);
        }
    }
}

/// A blank or whitespace-only sample never changes the store, whatever
/// state the monitor is in.
pub proof fn lemma_blank_sample_ignored(
    st: ClipboardMonitorModel,
    d: AppDataModel,
    t: Seq<u8>,
    id: Seq<u8>,
    now: u64,
)
    requires
        spec_is_blank(t),
    ensures
        spec_tick(st, d, TickEventModel::ReadOk(t), id, now).data == d,
{
}

/// Feeding the same sample on two consecutive ticks stores it exactly
/// once: the first capturing tick leaves one entry with that content,
/// and the second tick's fingerprint gate skips the store entirely.
pub proof fn lemma_repeated_sample_single_entry(
    st: ClipboardMonitorModel,
    d: AppDataModel,
    t: Seq<u8>,
    id1: Seq<u8>,
    now1: u64,
    id2: Seq<u8>,
    now2: u64,
)
    requires
        st.running,
        d.settings.history_limit >= 1,
        unique_contents(d.history),
        !spec_is_blank(t),
        st.last_fingerprint != Some(spec_fingerprint(t)),
        st.last_content != Some(t),
    ensures
        ({
            let r1 = spec_tick(st, d, TickEventModel::ReadOk(t), id1, now1);
            let r2 = spec_tick(r1.state, r1.data, TickEventModel::ReadOk(t), id2, now2);
            &&& count_content(r1.data.history, t) == 1
            &&& r2.data == r1.data
        }),
{
    let item = captured_entry(id1, t, spec_text_tag(), now1);
    lemma_insert_history_unique(d.history, d.settings.history_limit as int, item);
}

/// Recording any run of detected addresses keeps the log's invariants.
pub proof fn lemma_fold_addresses_invariants(
    s: Seq<IpHistoryItemModel>,
    limit: int,
    ips: Seq<Seq<u8>>,
    now: u64,
)
    requires
        limit >= 1,
        unique_ips(s),
        sorted_by_timestamp_desc(s),
        s.len() <= limit,
    ensures
        fold_addresses(s, limit, ips, now).len() <= limit,
        unique_ips(fold_addresses(s, limit, ips, now)),
        sorted_by_timestamp_desc(fold_addresses(s, limit, ips, now)),
    decreases ips.len(),
{
    if ips.len() > 0 {
        lemma_insert_address_invariants(s, limit, ips[0], now);
        lemma_fold_addresses_invariants(
            spec_insert_address(s, limit, ips[0], now),
            limit,
            ips.skip(1),
            now,
        );
    }
}

/// The running invariant: whatever event a tick digests, a well-formed
/// aggregate within its capacity bounds stays well-formed and within
/// them.
pub proof fn lemma_tick_preserves_invariants(
    st: ClipboardMonitorModel,
    d: AppDataModel,
    ev: TickEventModel,
    id: Seq<u8>,
    now: u64,
)
    requires
        wf_app_data(d),
        d.history.len() <= d.settings.history_limit,
        d.recent_ips.len() <= d.settings.ip_limit,
    ensures
        ({
            let r = spec_tick(st, d, ev, id, now);
            &&& wf_app_data(r.data)
            &&& r.data.history.len() <= r.data.settings.history_limit
            &&& r.data.recent_ips.len() <= r.data.settings.ip_limit
        }),
{
    let r = spec_tick(st, d, ev, id, now);
    if st.running {
        match ev {
            TickEventModel::ReadOk(t) => {
                let fp = spec_fingerprint(t);
                if !(spec_is_blank(t) || st.last_fingerprint == Some(fp)) && st.last_content
                    != Some(t) {
                    let item = captured_entry(id, t, spec_text_tag(), now);
                    let limit = d.settings.history_limit as int;
                    lemma_insert_history_bounded(d.history, limit, item);
                    lemma_insert_history_unique(d.history, limit, item);
                    lemma_fold_addresses_invariants(
                        d.recent_ips,
                        d.settings.ip_limit as int,
                        spec_extract_ips(t),
                        now,
                    );
                }
            },
            _ => {},
        }
    }
}

/// The persistence round trip: a save of a well-formed aggregate is
/// never blank (so the loader's empty-file gate cannot swallow it),
/// decodes back to it, and the startup reconciliation, which only
/// collapses duplicates a stale file may hold, leaves it untouched.
pub proof fn lemma_save_load_round_trip(d: AppDataModel)
    requires
        wf_app_data(d),
        unique_bm_keys(d.bookmarks),
    ensures
        !spec_is_blank(enc_app_data(d)),
        p_document(enc_app_data(d)) == Some(d),
        spec_collapse_history(d.history) == d.history,
        spec_collapse_bookmarks(d.bookmarks) == d.bookmarks,
{
    lemma_codec_round_trip(d);
    crate::codec::lemma_enc_app_data_not_blank(d);
}

} // verus!

