//! The bounded collection store: capacity and uniqueness enforcement for
//! the history, the bookmarks and the address log, plus the query and
//! maintenance operations of the command boundary.
//!
//! Every operation is specified against the sequence models of
//! [`crate::model`]; the capacity bounds are stated on the inserting
//! operations themselves so that they hold even after a settings change
//! shrank a limit below the current length.

use vstd::prelude::*;
use crate::model::AppData;
use crate::model::AppDataModel;
use crate::model::ClipboardItem;
use crate::model::ClipboardItemModel;
use crate::model::AppSettings;
use crate::model::BookmarkItem;
use crate::model::BookmarkItemModel;
use crate::model::IpHistoryItem;
use crate::model::IpHistoryItemModel;
use crate::model::wf_settings;
use crate::model::unique_contents;
use crate::model::unique_ips;
use crate::model::sorted_by_timestamp_desc;
use crate::model::group_deep_seq;
use crate::model::deep_seq;
use crate::bytes::bytes_eq;
use crate::bytes::clone_bytes;
use crate::bytes::contains_lower;
use crate::bytes::is_blank;
use crate::bytes::lemma_bytes_deep_view;
use crate::bytes::spec_contains_bytes;
use crate::bytes::spec_is_blank;
use crate::bytes::spec_lower;
use crate::bytes::to_lower;
use crate::outside::new_id;
use crate::outside::now_unix_millis;

verus! {

broadcast use group_deep_seq, lemma_bytes_deep_view;

/// Why a store operation was refused.
#[derive(PartialEq, Eq, Structural, Clone, Copy, Debug)]
pub enum StoreError {
    /// No entry carries the given identifier or address.
    NotFound,
    /// The input breaks the schema (a zero capacity, a malformed address).
    InvalidInput,
}

/// Unfolding of `filter` over a trailing element.
pub proof fn lemma_filter_push<A>(s: Seq<A>, p: spec_fn(A) -> bool, e: A)
    ensures
        (s.push(e)).filter(p) == if p(e) {
            s.filter(p).push(e)
        } else {
            s.filter(p)
        },
{
    reveal(Seq::filter);
    assert((s.push(e)).drop_last() =~= s);
}

/// `filter` of the empty sequence is empty.
pub proof fn lemma_filter_empty<A>(s: Seq<A>, p: spec_fn(A) -> bool)
    requires
        s.len() == 0,
    ensures
        s.filter(p) == Seq::<A>::empty(),
{
    reveal(Seq::filter);
    assert(s.filter(p) =~= Seq::<A>::empty());
}

/// Keep exactly the entries whose content differs from `c`.
pub open spec fn purge_pred(c: Seq<u8>) -> spec_fn(ClipboardItemModel) -> bool {
    |e: ClipboardItemModel| e.content != c
}

/// Everything except the new content purged away.
pub open spec fn purge_content(h: Seq<ClipboardItemModel>, c: Seq<u8>) -> Seq<ClipboardItemModel> {
    h.filter(purge_pred(c))
}

/// Drop entries from the front until strictly under the limit.
pub open spec fn evict_oldest(h: Seq<ClipboardItemModel>, limit: int) -> Seq<ClipboardItemModel> {
    if h.len() < limit {
        h
    } else {
        h.skip(h.len() - limit + 1)
    }
}

/// The canonical history insertion: full-duplicate purge, eviction of the
/// oldest entries until under the limit, then append.
pub open spec fn spec_insert_history(
    h: Seq<ClipboardItemModel>,
    limit: int,
    item: ClipboardItemModel,
) -> Seq<ClipboardItemModel> {
    evict_oldest(purge_content(h, item.content), limit).push(item)
}

/// The entry a capture produces: zero accesses, size equal to the content
/// length.
pub open spec fn captured_entry(
    idv: Seq<u8>,
    content: Seq<u8>,
    content_type: Seq<u8>,
    ts: u64,
) -> ClipboardItemModel {
    ClipboardItemModel {
        id: idv,
        content: content,
        content_type: content_type,
        timestamp: ts,
        size: content.len() as u64,
        access_count: 0,
        last_accessed: None,
    }
}

/// All fields of the aggregate other than the history agree.
pub open spec fn same_but_history(a: AppDataModel, b: AppDataModel) -> bool {
    &&& a.version == b.version
    &&& a.bookmarks == b.bookmarks
    &&& a.recent_ips == b.recent_ips
    &&& a.settings == b.settings
}

fn history_purge(h: &mut Vec<ClipboardItem>, content: &Vec<u8>)
    ensures
        final(h).deep_view() == purge_content(old(h).deep_view(), content@),
{
    let ghost orig: Seq<ClipboardItemModel> = deep_seq(h@);
    let ghost c: Seq<u8> = content@;
    let mut i: usize = 0;
    let ghost mut k: int = 0;
    proof {
        assert(orig.subrange(0, 0) =~= Seq::<ClipboardItemModel>::empty());
        lemma_filter_empty(orig.subrange(0, 0), purge_pred(c));
        assert(deep_seq(h@) =~= purge_content(orig.subrange(0, 0), c) + orig.skip(0));
    }
    while i < h.len()
        invariant
            c == content@,
            0 <= k <= orig.len(),
            i as int == purge_content(orig.subrange(0, k), c).len(),
            deep_seq(h@) == purge_content(orig.subrange(0, k), c) + orig.skip(k),
        decreases h@.len() - i,
    {
        let ghost prevv = h@;
        let ghost ei = prevv[i as int].deep_view();
        proof {
            assert(deep_seq(prevv)[i as int] == ei);
            assert(ei == orig.skip(k)[0]);
            assert(orig.skip(k)[0] == orig[k]);
            assert(orig.subrange(0, k + 1) =~= orig.subrange(0, k).push(orig[k]));
            lemma_filter_push(orig.subrange(0, k), purge_pred(c), orig[k]);
        }
        let entry_content = &h[i].content;
        let is_dup = bytes_eq(entry_content, content);
        proof {
            assert(entry_content@ == prevv[i as int].content@);
            assert(ei.content == prevv[i as int].content@);
            assert(is_dup == (ei.content == c));
        }
        if is_dup {
            h.remove(i);
            proof {
                assert(!purge_pred(c)(orig[k]));
                assert(deep_seq(h@) == deep_seq(prevv).remove(i as int));
                assert(deep_seq(h@) =~= purge_content(orig.subrange(0, k + 1), c) + orig.skip(
                    k + 1,
                ));
                k = k + 1;
            }
        } else {
            proof {
                assert(purge_pred(c)(orig[k]));
                assert(deep_seq(h@) =~= purge_content(orig.subrange(0, k + 1), c) + orig.skip(
                    k + 1,
                ));
                k = k + 1;
            }
            i = i + 1;
        }
    }
    proof {
        assert(k == orig.len());
        assert(orig.subrange(0, orig.len() as int) =~= orig);
        assert(deep_seq(h@) =~= purge_content(orig, c));
    }
}

fn history_evict(h: &mut Vec<ClipboardItem>, limit: usize)
    requires
        limit >= 1,
    ensures
        final(h).deep_view() == evict_oldest(old(h).deep_view(), limit as int),
{
    let ghost orig: Seq<ClipboardItemModel> = deep_seq(h@);
    let ghost mut j: int = 0;
    proof {
        assert(deep_seq(h@) =~= orig.skip(0));
    }
    while h.len() >= limit
        invariant
            limit >= 1,
            0 <= j <= orig.len(),
            deep_seq(h@) == orig.skip(j),
            j > 0 ==> orig.len() >= limit && orig.len() - j >= limit - 1,
        decreases h@.len(),
    {
        let ghost prevv = h@;
        h.remove(0);
        proof {
            assert(deep_seq(h@) == deep_seq(prevv).remove(0));
            assert(deep_seq(h@) =~= orig.skip(j + 1));
            j = j + 1;
        }
    }
    proof {
        if orig.len() < limit {
            assert(j == 0);
            assert(orig.skip(0) =~= orig);
        } else {
            assert(j == orig.len() - limit + 1);
        }
    }
}

/// All fields of the aggregate other than the address log agree.
pub open spec fn same_but_recent_ips(a: AppDataModel, b: AppDataModel) -> bool {
    &&& a.version == b.version
    &&& a.history == b.history
    &&& a.bookmarks == b.bookmarks
    &&& a.settings == b.settings
}

/// An address entry after a re-detection: count bumped (saturating at the
/// machine bound), last sighting refreshed.
pub open spec fn touched_addr(e: IpHistoryItemModel, now: u64) -> IpHistoryItemModel {
    IpHistoryItemModel {
        ip: e.ip,
        timestamp: now,
        count: if e.count == u32::MAX {
            e.count
        } else {
            (e.count + 1) as u32
        },
    }
}

/// A first-sighting entry.
pub open spec fn fresh_addr(ip: Seq<u8>, now: u64) -> IpHistoryItemModel {
    IpHistoryItemModel { ip: ip, timestamp: now, count: 1 }
}

/// The slot where an entry with this sighting time goes in a list sorted
/// newest first: after every entry at least as new, so that ties keep
/// their arrival order.
pub open spec fn addr_insert_pos(s: Seq<IpHistoryItemModel>, ts: u64) -> int
    decreases s.len(),
{
    if s.len() == 0 {
        0
    } else if ts > s[0].timestamp {
        0
    } else {
        1 + addr_insert_pos(s.skip(1), ts)
    }
}

/// What `addr_insert_pos` picks: the first slot whose entry is strictly
/// older, or the end.
pub proof fn lemma_addr_insert_pos(s: Seq<IpHistoryItemModel>, ts: u64)
    ensures
        0 <= addr_insert_pos(s, ts) <= s.len(),
        forall|m: int| 0 <= m < addr_insert_pos(s, ts) ==> s[m].timestamp >= ts,
        addr_insert_pos(s, ts) < s.len() ==> ts > s[addr_insert_pos(s, ts)].timestamp,
    decreases s.len(),
{
    if s.len() == 0 {
    } else if ts > s[0].timestamp {
    } else {
        lemma_addr_insert_pos(s.skip(1), ts);
        assert forall|m: int| 0 <= m < addr_insert_pos(s, ts) implies s[m].timestamp >= ts by {
            if m > 0 {
                assert(s.skip(1)[m - 1] == s[m]);
            }
        }
    }
}

/// Place an entry into the sorted address list.
pub open spec fn sorted_place(
    s: Seq<IpHistoryItemModel>,
    e: IpHistoryItemModel,
) -> Seq<IpHistoryItemModel> {
    s.insert(addr_insert_pos(s, e.timestamp), e)
}

/// The first index holding this ip, or -1.
pub open spec fn first_ip_index(s: Seq<IpHistoryItemModel>, ip: Seq<u8>) -> int
    decreases s.len(),
{
    if s.len() == 0 {
        -1
    } else if s[0].ip == ip {
        0
    } else {
        let r = first_ip_index(s.skip(1), ip);
        if r < 0 {
            -1
        } else {
            r + 1
        }
    }
}

/// What `first_ip_index` finds.
pub proof fn lemma_first_ip_index(s: Seq<IpHistoryItemModel>, ip: Seq<u8>)
    ensures
        first_ip_index(s, ip) == -1 ==> forall|m: int| 0 <= m < s.len() ==> s[m].ip != ip,
        first_ip_index(s, ip) != -1 ==> {
            let r = first_ip_index(s, ip);
            &&& 0 <= r < s.len()
            &&& s[r].ip == ip
            &&& forall|m: int| 0 <= m < r ==> s[m].ip != ip
        },
    decreases s.len(),
{
    if s.len() == 0 {
    } else if s[0].ip == ip {
    } else {
        lemma_first_ip_index(s.skip(1), ip);
        let r = first_ip_index(s, ip);
        if r == -1 {
            assert forall|m: int| 0 <= m < s.len() implies s[m].ip != ip by {
                if m > 0 {
                    assert(s.skip(1)[m - 1] == s[m]);
                }
            }
        } else {
            assert(s[r] == s.skip(1)[r - 1]);
            assert forall|m: int| 0 <= m < r implies s[m].ip != ip by {
                if m > 0 {
                    assert(s.skip(1)[m - 1] == s[m]);
                }
            }
        }
    }
}

/// The first index among those with the oldest sighting time.
pub open spec fn oldest_ip_index(s: Seq<IpHistoryItemModel>) -> int
    recommends
        s.len() >= 1,
    decreases s.len(),
{
    if s.len() <= 1 {
        0
    } else {
        let r = oldest_ip_index(s.drop_last());
        if s.last().timestamp < s[r].timestamp {
            s.len() - 1
        } else {
            r
        }
    }
}

/// What `oldest_ip_index` picks: a minimal sighting time, the earliest
/// slot among equals.
pub proof fn lemma_oldest_ip_index(s: Seq<IpHistoryItemModel>)
    requires
        s.len() >= 1,
    ensures
        0 <= oldest_ip_index(s) < s.len(),
        forall|m: int|
            0 <= m < s.len() ==> #[trigger] s[m].timestamp >= s[oldest_ip_index(s)].timestamp,
        forall|m: int|
            0 <= m < oldest_ip_index(s) ==> #[trigger] s[m].timestamp > s[
                oldest_ip_index(s)
            ].timestamp,
    decreases s.len(),
{
    if s.len() == 1 {
    } else {
        let t = s.drop_last();
        lemma_oldest_ip_index(t);
        assert forall|m: int| 0 <= m < t.len() implies t[m] == s[m] by {}
    }
}

/// Evict the oldest entries until strictly under the limit.
pub open spec fn evict_addrs(s: Seq<IpHistoryItemModel>, limit: int) -> Seq<IpHistoryItemModel>
    decreases s.len(),
{
    if s.len() == 0 || s.len() < limit {
        s
    } else {
        let oi = oldest_ip_index(s);
        if 0 <= oi < s.len() {
            evict_addrs(s.remove(oi), limit)
        } else {
            s
        }
    }
}

/// The canonical address insertion: merge by count increment when the ip
/// is present, otherwise evict the oldest sightings down to a free slot
/// and add a fresh entry; the list stays sorted newest first either way.
pub open spec fn spec_insert_address(
    s: Seq<IpHistoryItemModel>,
    limit: int,
    ip: Seq<u8>,
    now: u64,
) -> Seq<IpHistoryItemModel> {
    let i = first_ip_index(s, ip);
    if i >= 0 {
        sorted_place(s.remove(i), touched_addr(s[i], now))
    } else {
        sorted_place(evict_addrs(s, limit), fresh_addr(ip, now))
    }
}

fn addr_sorted_insert(v: &mut Vec<IpHistoryItem>, e: IpHistoryItem)
    ensures
        final(v).deep_view() == sorted_place(deep_seq(old(v)@), e.deep_view()),
{
    let ghost orig: Seq<IpHistoryItemModel> = deep_seq(v@);
    let ghost ts = e.deep_view().timestamp;
    let mut p: usize = 0;
    while p < v.len() && !(e.timestamp > v[p].timestamp)
        invariant
            ts == e.timestamp,
            orig == deep_seq(v@),
            0 <= p <= v@.len(),
            forall|m: int| 0 <= m < p ==> orig[m].timestamp >= ts,
        decreases v@.len() - p,
    {
        proof {
            assert(orig[p as int] == v@[p as int].deep_view());
        }
        p = p + 1;
    }
    proof {
        lemma_addr_insert_pos(orig, ts);
        let q = addr_insert_pos(orig, ts);
        if p < v@.len() {
            assert(orig[p as int] == v@[p as int].deep_view());
            assert(ts > orig[p as int].timestamp);
        }
        assert(p as int == q) by {
            if q < p {
                assert(orig[q].timestamp >= ts);
                assert(ts > orig[q].timestamp);
            }
            if p < q {
                assert(orig[p as int].timestamp >= ts);
            }
        }
    }
    let ghost prevv = v@;
    v.insert(p, e);
    proof {
        assert(deep_seq(v@) == deep_seq(prevv).insert(p as int, e.deep_view()));
    }
}

fn find_ip_index(v: &Vec<IpHistoryItem>, ip: &Vec<u8>) -> (r: Option<usize>)
    ensures
        match r {
            Some(i) => 0 <= i < v@.len() && first_ip_index(deep_seq(v@), ip@) == i as int,
            None => first_ip_index(deep_seq(v@), ip@) == -1,
        },
{
    let ghost s = deep_seq(v@);
    let mut i: usize = 0;
    proof {
        lemma_first_ip_index(s, ip@);
    }
    while i < v.len()
        invariant
            s == deep_seq(v@),
            0 <= i <= v@.len(),
            forall|m: int| 0 <= m < i ==> s[m].ip != ip@,
        decreases v@.len() - i,
    {
        proof {
            assert(s[i as int] == v@[i as int].deep_view());
        }
        if bytes_eq(&v[i].ip, ip) {
            proof {
                lemma_first_ip_index(s, ip@);
            }
            return Some(i);
        }
        i = i + 1;
    }
    proof {
        lemma_first_ip_index(s, ip@);
    }
    None
}

fn find_oldest_index(v: &Vec<IpHistoryItem>) -> (r: usize)
    requires
        v@.len() >= 1,
    ensures
        0 <= r < v@.len(),
        r as int == oldest_ip_index(deep_seq(v@)),
{
    let ghost s = deep_seq(v@);
    let mut best: usize = 0;
    let mut i: usize = 1;
    while i < v.len()
        invariant
            s == deep_seq(v@),
            v@.len() >= 1,
            0 <= best < i <= v@.len(),
            forall|m: int| 0 <= m < i ==> s[m].timestamp >= s[best as int].timestamp,
            forall|m: int| 0 <= m < best ==> s[m].timestamp > s[best as int].timestamp,
        decreases v@.len() - i,
    {
        proof {
            assert(s[i as int] == v@[i as int].deep_view());
            assert(s[best as int] == v@[best as int].deep_view());
        }
        if v[i].timestamp < v[best].timestamp {
            best = i;
        }
        i = i + 1;
    }
    proof {
        lemma_oldest_ip_index(s);
        let q = oldest_ip_index(s);
        assert(best as int == q) by {
            if q < best {
                assert(s[q].timestamp > s[best as int].timestamp);
                assert(s[q].timestamp >= s[best as int].timestamp);
                assert(s[best as int].timestamp >= s[q].timestamp);
            }
            if best < q {
                assert(s[best as int].timestamp > s[q].timestamp);
                assert(s[q].timestamp >= s[best as int].timestamp);
            }
        }
    }
    best
}

impl AppData {
    /// Record a detected address: an already known ip has its count bumped
    /// and its sighting time refreshed; a new ip takes a slot freed, if
    /// necessary, by evicting the oldest sightings. The list is kept
    /// sorted newest first, ties keeping their arrival order.
    pub fn add_ip_to_history(&mut self, ip: Vec<u8>, now: u64)
        requires
            old(self).settings.ip_limit >= 1,
        ensures
            final(self).deep_view().recent_ips == spec_insert_address(
                old(self).deep_view().recent_ips,
                old(self).settings.ip_limit as int,
                ip@,
                now,
            ),
            same_but_recent_ips(final(self).deep_view(), old(self).deep_view()),
    {
        let ghost s0 = deep_seq(self.recent_ips@);
        let limit = self.settings.ip_limit;
        match find_ip_index(&self.recent_ips, &ip) {
            Some(i) => {
                let ghost prevv = self.recent_ips@;
                let mut e = self.recent_ips.remove(i);
                proof {
                    assert(deep_seq(self.recent_ips@) == deep_seq(prevv).remove(i as int));
                    assert(e.deep_view() == s0[i as int]);
                }
                e.timestamp = now;
                if e.count < u32::MAX {
                    e.count = e.count + 1;
                }
                proof {
                    assert(e.deep_view() == touched_addr(s0[i as int], now));
                }
                addr_sorted_insert(&mut self.recent_ips, e);
            },
            None => {
                let ghost orig = deep_seq(self.recent_ips@);
                while self.recent_ips.len() >= limit
                    invariant
                        limit >= 1,
                        self.history == old(self).history,
                        self.bookmarks == old(self).bookmarks,
                        self.settings == old(self).settings,
                        self.version == old(self).version,
                        evict_addrs(orig, limit as int) == evict_addrs(
                            deep_seq(self.recent_ips@),
                            limit as int,
                        ),
                    decreases self.recent_ips@.len(),
                {
                    let ghost prevv = self.recent_ips@;
                    let oi = find_oldest_index(&self.recent_ips);
                    self.recent_ips.remove(oi);
                    proof {
                        lemma_oldest_ip_index(deep_seq(prevv));
                        assert(deep_seq(self.recent_ips@) == deep_seq(prevv).remove(oi as int));
                    }
                }
                let entry = IpHistoryItem { ip: ip, timestamp: now, count: 1 };
                proof {
                    assert(entry.deep_view() == fresh_addr(entry.ip@, now));
                    assert(evict_addrs(deep_seq(self.recent_ips@), limit as int) == deep_seq(
                        self.recent_ips@,
                    ));
                }
                addr_sorted_insert(&mut self.recent_ips, entry);
            },
        }
    }
}

impl AppData {
    /// Insert one captured entry: purge every older entry with the same
    /// content, evict the oldest entries until strictly under the history
    /// limit, then append the new entry.
    pub fn insert_history(&mut self, item: ClipboardItem)
        requires
            old(self).settings.history_limit >= 1,
        ensures
            final(self).deep_view().history == spec_insert_history(
                old(self).deep_view().history,
                old(self).settings.history_limit as int,
                item.deep_view(),
            ),
            same_but_history(final(self).deep_view(), old(self).deep_view()),
    {
        let ghost h0 = self.deep_view().history;
        let ghost iv = item.deep_view();
        let limit = self.settings.history_limit;
        history_purge(&mut self.history, &item.content);
        history_evict(&mut self.history, limit);
        self.history.push(item);
        proof {
            assert(self.deep_view().history =~= evict_oldest(
                purge_content(h0, iv.content),
                limit as int,
            ).push(iv));
        }
    }

    /// Capture a sample into the history under a fresh identifier and the
    /// current instant. The identifier and the instant come from the
    /// process environment, so only their shape is pinned down.
    pub fn add_item(&mut self, content: Vec<u8>, content_type: Vec<u8>)
        requires
            old(self).settings.history_limit >= 1,
        ensures
            exists|idv: Seq<u8>, ts: u64|
                idv.len() == 36 && final(self).deep_view().history == spec_insert_history(
                    old(self).deep_view().history,
                    old(self).settings.history_limit as int,
                    #[trigger] captured_entry(idv, content@, content_type@, ts),
                ),
            same_but_history(final(self).deep_view(), old(self).deep_view()),
    {
        let id = new_id();
        let now = now_unix_millis();
        let ghost idv = id@;
        let ghost ts = now;
        let ghost cv = content@;
        let ghost ctv = content_type@;
        let item = ClipboardItem::new(id, content, content_type, now);
        self.insert_history(item);
        proof {
            assert(item.deep_view() == captured_entry(idv, cv, ctv, ts));
            assert(final(self).deep_view().history == spec_insert_history(
                old(self).deep_view().history,
                old(self).settings.history_limit as int,
                captured_entry(idv, cv, ctv, ts),
            ));
        }
    }
}

/// The first index holding this entry identifier, or -1.
pub open spec fn first_id_index(s: Seq<ClipboardItemModel>, id: Seq<u8>) -> int
    decreases s.len(),
{
    if s.len() == 0 {
        -1
    } else if s[0].id == id {
        0
    } else {
        let r = first_id_index(s.skip(1), id);
        if r < 0 {
            -1
        } else {
            r + 1
        }
    }
}

/// What `first_id_index` finds.
pub proof fn lemma_first_id_index(s: Seq<ClipboardItemModel>, id: Seq<u8>)
    ensures
        first_id_index(s, id) == -1 ==> forall|m: int| 0 <= m < s.len() ==> s[m].id != id,
        first_id_index(s, id) != -1 ==> {
            let r = first_id_index(s, id);
            &&& 0 <= r < s.len()
            &&& s[r].id == id
            &&& forall|m: int| 0 <= m < r ==> s[m].id != id
        },
    decreases s.len(),
{
    if s.len() == 0 {
    } else if s[0].id == id {
    } else {
        lemma_first_id_index(s.skip(1), id);
        let r = first_id_index(s, id);
        if r == -1 {
            assert forall|m: int| 0 <= m < s.len() implies s[m].id != id by {
                if m > 0 {
                    assert(s.skip(1)[m - 1] == s[m]);
                }
            }
        } else {
            assert(s[r] == s.skip(1)[r - 1]);
            assert forall|m: int| 0 <= m < r implies s[m].id != id by {
                if m > 0 {
                    assert(s.skip(1)[m - 1] == s[m]);
                }
            }
        }
    }
}

/// An entry after one access: count bumped (saturating at the machine
/// bound), access instant recorded.
pub open spec fn accessed_entry(e: ClipboardItemModel, now: u64) -> ClipboardItemModel {
    ClipboardItemModel {
        access_count: if e.access_count == u32::MAX {
            e.access_count
        } else {
            (e.access_count + 1) as u32
        },
        last_accessed: Some(now),
        ..e
    }
}

/// The slot where an entry with this capture time goes in a list sorted
/// newest first, after every entry at least as new.
pub open spec fn hist_insert_pos(s: Seq<ClipboardItemModel>, ts: u64) -> int
    decreases s.len(),
{
    if s.len() == 0 {
        0
    } else if ts > s[0].timestamp {
        0
    } else {
        1 + hist_insert_pos(s.skip(1), ts)
    }
}

/// What `hist_insert_pos` picks.
pub proof fn lemma_hist_insert_pos(s: Seq<ClipboardItemModel>, ts: u64)
    ensures
        0 <= hist_insert_pos(s, ts) <= s.len(),
        forall|m: int| 0 <= m < hist_insert_pos(s, ts) ==> s[m].timestamp >= ts,
        hist_insert_pos(s, ts) < s.len() ==> ts > s[hist_insert_pos(s, ts)].timestamp,
    decreases s.len(),
{
    if s.len() == 0 {
    } else if ts > s[0].timestamp {
    } else {
        lemma_hist_insert_pos(s.skip(1), ts);
        assert forall|m: int| 0 <= m < hist_insert_pos(s, ts) implies s[m].timestamp >= ts by {
            if m > 0 {
                assert(s.skip(1)[m - 1] == s[m]);
            }
        }
    }
}

/// Place an entry into a list of entries sorted newest first.
pub open spec fn hist_sorted_place(
    s: Seq<ClipboardItemModel>,
    e: ClipboardItemModel,
) -> Seq<ClipboardItemModel> {
    s.insert(hist_insert_pos(s, e.timestamp), e)
}

/// Stable newest-first ordering of history entries: entries are placed
/// one by one, each after all entries at least as new.
pub open spec fn sort_hist_desc(s: Seq<ClipboardItemModel>) -> Seq<ClipboardItemModel>
    decreases s.len(),
{
    if s.len() == 0 {
        s
    } else {
        hist_sorted_place(sort_hist_desc(s.drop_last()), s.last())
    }
}

/// The search predicate: the folded query occurs in the folded content or
/// in the folded content type.
pub open spec fn search_pred(q: Seq<u8>) -> spec_fn(ClipboardItemModel) -> bool {
    |e: ClipboardItemModel|
        spec_contains_bytes(spec_lower(e.content), spec_lower(q)) || spec_contains_bytes(
            spec_lower(e.content_type),
            spec_lower(q),
        )
}

/// What a history search returns: everything for a blank query, otherwise
/// the matches ordered newest first.
pub open spec fn spec_search_history(
    h: Seq<ClipboardItemModel>,
    q: Seq<u8>,
) -> Seq<ClipboardItemModel> {
    if spec_is_blank(q) {
        h
    } else {
        sort_hist_desc(h.filter(search_pred(q)))
    }
}

/// Keep entries no larger than the threshold.
pub open spec fn small_pred(threshold: u64) -> spec_fn(ClipboardItemModel) -> bool {
    |e: ClipboardItemModel| e.size <= threshold
}

/// Keep entries captured strictly after the cutoff.
pub open spec fn recent_pred(cutoff: u64) -> spec_fn(ClipboardItemModel) -> bool {
    |e: ClipboardItemModel| e.timestamp > cutoff
}

/// Saturating 64-bit addition.
pub open spec fn sat_add(a: u64, b: u64) -> u64 {
    if a + b > u64::MAX {
        u64::MAX
    } else {
        (a + b) as u64
    }
}

/// The byte total of all entries, saturating at the machine bound.
pub open spec fn spec_total_size(h: Seq<ClipboardItemModel>) -> u64
    decreases h.len(),
{
    if h.len() == 0 {
        0
    } else {
        sat_add(spec_total_size(h.drop_last()), h.last().size)
    }
}

/// Summary counters over the history.
pub struct ClipboardStats {
    pub total_items: usize,
    pub total_size: u64,
    pub average_size: u64,
    pub most_recent: Option<u64>,
}

fn hist_sorted_insert(v: &mut Vec<ClipboardItem>, e: ClipboardItem)
    ensures
        final(v).deep_view() == hist_sorted_place(deep_seq(old(v)@), e.deep_view()),
{
    let ghost orig: Seq<ClipboardItemModel> = deep_seq(v@);
    let ghost ts = e.deep_view().timestamp;
    let mut p: usize = 0;
    while p < v.len() && !(e.timestamp > v[p].timestamp)
        invariant
            ts == e.timestamp,
            orig == deep_seq(v@),
            0 <= p <= v@.len(),
            forall|m: int| 0 <= m < p ==> orig[m].timestamp >= ts,
        decreases v@.len() - p,
    {
        proof {
            assert(orig[p as int] == v@[p as int].deep_view());
        }
        p = p + 1;
    }
    proof {
        lemma_hist_insert_pos(orig, ts);
        let q = hist_insert_pos(orig, ts);
        if p < v@.len() {
            assert(orig[p as int] == v@[p as int].deep_view());
            assert(ts > orig[p as int].timestamp);
        }
        assert(p as int == q) by {
            if q < p {
                assert(orig[q].timestamp >= ts);
                assert(ts > orig[q].timestamp);
            }
            if p < q {
                assert(orig[p as int].timestamp >= ts);
            }
        }
    }
    let ghost prevv = v@;
    v.insert(p, e);
    proof {
        assert(deep_seq(v@) == deep_seq(prevv).insert(p as int, e.deep_view()));
    }
}

impl AppData {
    /// Remove the first entry carrying this identifier.
    pub fn delete_clipboard_item(&mut self, item_id: &Vec<u8>) -> (r: Result<(), StoreError>)
        ensures
            ({
                let h0 = old(self).deep_view().history;
                let ix = first_id_index(h0, item_id@);
                if ix >= 0 {
                    r == Ok::<(), StoreError>(()) && final(self).deep_view().history == h0.remove(
                        ix,
                    )
                } else {
                    r == Err::<(), StoreError>(StoreError::NotFound) && final(self).deep_view()
                        == old(self).deep_view()
                }
            }),
            same_but_history(final(self).deep_view(), old(self).deep_view()),
    {
        let ghost h0 = deep_seq(self.history@);
        let mut i: usize = 0;
        proof {
            lemma_first_id_index(h0, item_id@);
        }
        while i < self.history.len()
            invariant
                h0 == deep_seq(self.history@),
                self.history == old(self).history,
                self.bookmarks == old(self).bookmarks,
                self.recent_ips == old(self).recent_ips,
                self.settings == old(self).settings,
                self.version == old(self).version,
                0 <= i <= self.history@.len(),
                forall|m: int| 0 <= m < i ==> h0[m].id != item_id@,
            decreases self.history@.len() - i,
        {
            proof {
                assert(h0[i as int] == self.history@[i as int].deep_view());
            }
            if bytes_eq(&self.history[i].id, item_id) {
                let ghost prevv = self.history@;
                self.history.remove(i);
                proof {
                    lemma_first_id_index(h0, item_id@);
                    assert(first_id_index(h0, item_id@) == i as int);
                    assert(deep_seq(self.history@) == deep_seq(prevv).remove(i as int));
                }
                return Ok(());
            }
            i = i + 1;
        }
        proof {
            lemma_first_id_index(h0, item_id@);
        }
        Err(StoreError::NotFound)
    }

    /// Drop the whole history; the count removed is reported back.
    pub fn clear_clipboard_history(&mut self) -> (n: usize)
        ensures
            n == old(self).deep_view().history.len(),
            final(self).deep_view().history == Seq::<ClipboardItemModel>::empty(),
            same_but_history(final(self).deep_view(), old(self).deep_view()),
    {
        let n = self.history.len();
        self.history.clear();
        proof {
            assert(deep_seq(self.history@) =~= Seq::<ClipboardItemModel>::empty());
        }
        n
    }

    /// Search the history: every entry for a blank query, otherwise the
    /// entries whose content or content type contains the query under
    /// ASCII case folding, ordered newest first.
    pub fn search_clipboard_history(&self, query: &Vec<u8>) -> (r: Vec<ClipboardItem>)
        ensures
            r.deep_view() == spec_search_history(self.deep_view().history, query@),
    {
        let ghost h0 = deep_seq(self.history@);
        if is_blank(query) {
            let mut out: Vec<ClipboardItem> = Vec::new();
            let mut i: usize = 0;
            while i < self.history.len()
                invariant
                    h0 == deep_seq(self.history@),
                    0 <= i <= self.history@.len(),
                    deep_seq(out@) == h0.subrange(0, i as int),
                decreases self.history@.len() - i,
            {
                let ghost prevo = out@;
                out.push(self.history[i].clone());
                proof {
                    assert(h0[i as int] == self.history@[i as int].deep_view());
                    assert(deep_seq(out@) =~= h0.subrange(0, i + 1 as int));
                }
                i = i + 1;
            }
            proof {
                assert(h0.subrange(0, h0.len() as int) =~= h0);
            }
            out
        } else {
            let qlow = to_lower(query);
            let ghost q = query@;
            let mut out: Vec<ClipboardItem> = Vec::new();
            let mut i: usize = 0;
            proof {
                assert(h0.subrange(0, 0) =~= Seq::<ClipboardItemModel>::empty());
                lemma_filter_empty(h0.subrange(0, 0), search_pred(q));
            }
            while i < self.history.len()
                invariant
                    h0 == deep_seq(self.history@),
                    q == query@,
                    qlow@ == spec_lower(q),
                    0 <= i <= self.history@.len(),
                    deep_seq(out@) == sort_hist_desc(h0.subrange(0, i as int).filter(search_pred(q))),
                decreases self.history@.len() - i,
            {
                let ghost e = h0[i as int];
                proof {
                    assert(h0[i as int] == self.history@[i as int].deep_view());
                    assert(h0.subrange(0, i + 1 as int) =~= h0.subrange(0, i as int).push(e));
                    lemma_filter_push(h0.subrange(0, i as int), search_pred(q), e);
                }
                let hit = contains_lower(&self.history[i].content, &qlow) || contains_lower(
                    &self.history[i].content_type,
                    &qlow,
                );
                proof {
                    assert(hit == search_pred(q)(e));
                }
                if hit {
                    let ghost fs = h0.subrange(0, i as int).filter(search_pred(q));
                    proof {
                        assert(fs.push(e).drop_last() =~= fs);
                    }
                    hist_sorted_insert(&mut out, self.history[i].clone());
                }
                i = i + 1;
            }
            proof {
                assert(h0.subrange(0, h0.len() as int) =~= h0);
            }
            out
        }
    }

    /// Drop entries above the size threshold; the count removed is
    /// reported back.
    pub fn cleanup_memory(&mut self, threshold_bytes: u64) -> (removed: usize)
        ensures
            final(self).deep_view().history == old(self).deep_view().history.filter(
                small_pred(threshold_bytes),
            ),
            removed == old(self).deep_view().history.len() - final(self).deep_view().history.len(),
            same_but_history(final(self).deep_view(), old(self).deep_view()),
    {
        let ghost h0 = deep_seq(self.history@);
        let mut kept: Vec<ClipboardItem> = Vec::new();
        let mut i: usize = 0;
        proof {
            assert(h0.subrange(0, 0) =~= Seq::<ClipboardItemModel>::empty());
            lemma_filter_empty(h0.subrange(0, 0), small_pred(threshold_bytes));
        }
        while i < self.history.len()
            invariant
                h0 == deep_seq(self.history@),
                self.history == old(self).history,
                self.bookmarks == old(self).bookmarks,
                self.recent_ips == old(self).recent_ips,
                self.settings == old(self).settings,
                self.version == old(self).version,
                0 <= i <= self.history@.len(),
                deep_seq(kept@) == h0.subrange(0, i as int).filter(small_pred(threshold_bytes)),
                kept@.len() <= i,
            decreases self.history@.len() - i,
        {
            let ghost e = h0[i as int];
            proof {
                assert(h0[i as int] == self.history@[i as int].deep_view());
                assert(h0.subrange(0, i + 1 as int) =~= h0.subrange(0, i as int).push(e));
                lemma_filter_push(h0.subrange(0, i as int), small_pred(threshold_bytes), e);
            }
            if self.history[i].size <= threshold_bytes {
                kept.push(self.history[i].clone());
            }
            i = i + 1;
        }
        proof {
            assert(h0.subrange(0, h0.len() as int) =~= h0);
        }
        let removed = self.history.len() - kept.len();
        self.history = kept;
        removed
    }

    /// Drop entries captured at or before the cutoff instant; the count
    /// removed is reported back.
    pub fn cleanup_old_items(&mut self, cutoff: u64) -> (removed: usize)
        ensures
            final(self).deep_view().history == old(self).deep_view().history.filter(
                recent_pred(cutoff),
            ),
            removed == old(self).deep_view().history.len() - final(self).deep_view().history.len(),
            same_but_history(final(self).deep_view(), old(self).deep_view()),
    {
        let ghost h0 = deep_seq(self.history@);
        let mut kept: Vec<ClipboardItem> = Vec::new();
        let mut i: usize = 0;
        proof {
            assert(h0.subrange(0, 0) =~= Seq::<ClipboardItemModel>::empty());
            lemma_filter_empty(h0.subrange(0, 0), recent_pred(cutoff));
        }
        while i < self.history.len()
            invariant
                h0 == deep_seq(self.history@),
                self.history == old(self).history,
                self.bookmarks == old(self).bookmarks,
                self.recent_ips == old(self).recent_ips,
                self.settings == old(self).settings,
                self.version == old(self).version,
                0 <= i <= self.history@.len(),
                deep_seq(kept@) == h0.subrange(0, i as int).filter(recent_pred(cutoff)),
                kept@.len() <= i,
            decreases self.history@.len() - i,
        {
            let ghost e = h0[i as int];
            proof {
                assert(h0[i as int] == self.history@[i as int].deep_view());
                assert(h0.subrange(0, i + 1 as int) =~= h0.subrange(0, i as int).push(e));
                lemma_filter_push(h0.subrange(0, i as int), recent_pred(cutoff), e);
            }
            if self.history[i].timestamp > cutoff {
                kept.push(self.history[i].clone());
            }
            i = i + 1;
        }
        proof {
            assert(h0.subrange(0, h0.len() as int) =~= h0);
        }
        let removed = self.history.len() - kept.len();
        self.history = kept;
        removed
    }

    /// Summary counters: entry count, saturating byte total, mean size,
    /// and the capture instant of the newest entry.
    pub fn get_clipboard_stats(&self) -> (r: ClipboardStats)
        ensures
            r.total_items == self.deep_view().history.len(),
            r.total_size == spec_total_size(self.deep_view().history),
            r.average_size == if self.deep_view().history.len() > 0 {
                spec_total_size(self.deep_view().history) / (self.deep_view().history.len() as u64)
            } else {
                0u64
            },
            r.most_recent == if self.deep_view().history.len() > 0 {
                Some(self.deep_view().history.last().timestamp)
            } else {
                None::<u64>
            },
    {
        let ghost h0 = deep_seq(self.history@);
        let mut total: u64 = 0;
        let mut i: usize = 0;
        while i < self.history.len()
            invariant
                h0 == deep_seq(self.history@),
                0 <= i <= self.history@.len(),
                total == spec_total_size(h0.subrange(0, i as int)),
            decreases self.history@.len() - i,
        {
            proof {
                assert(h0[i as int] == self.history@[i as int].deep_view());
                assert(h0.subrange(0, i + 1 as int).drop_last() =~= h0.subrange(0, i as int));
            }
            total = total.saturating_add(self.history[i].size);
            i = i + 1;
        }
        proof {
            assert(h0.subrange(0, h0.len() as int) =~= h0);
        }
        let n = self.history.len();
        let average: u64 = if n > 0 {
            total / (n as u64)
        } else {
            0
        };
        let most_recent: Option<u64> = if n > 0 {
            proof {
                assert(h0[n - 1 as int] == self.history@[n - 1 as int].deep_view());
            }
            Some(self.history[n - 1].timestamp)
        } else {
            None
        };
        ClipboardStats { total_items: n, total_size: total, average_size: average, most_recent }
    }

    /// Remove the address record for this ip.
    pub fn remove_ip_from_recent(&mut self, ip: &Vec<u8>) -> (r: Result<(), StoreError>)
        ensures
            ({
                let s0 = old(self).deep_view().recent_ips;
                let ix = first_ip_index(s0, ip@);
                if ix >= 0 {
                    r == Ok::<(), StoreError>(()) && final(self).deep_view().recent_ips
                        == s0.remove(ix)
                } else {
                    r == Err::<(), StoreError>(StoreError::NotFound) && final(self).deep_view()
                        == old(self).deep_view()
                }
            }),
            same_but_recent_ips(final(self).deep_view(), old(self).deep_view()),
    {
        let ghost s0 = deep_seq(self.recent_ips@);
        match find_ip_index(&self.recent_ips, ip) {
            Some(i) => {
                let ghost prevv = self.recent_ips@;
                self.recent_ips.remove(i);
                proof {
                    assert(deep_seq(self.recent_ips@) == deep_seq(prevv).remove(i as int));
                }
                Ok(())
            },
            None => Err(StoreError::NotFound),
        }
    }

    /// Reset the sighting count of this ip to one; the sighting time and
    /// the order of the list are untouched.
    pub fn reset_ip_count(&mut self, ip: &Vec<u8>) -> (r: Result<(), StoreError>)
        ensures
            ({
                let s0 = old(self).deep_view().recent_ips;
                let ix = first_ip_index(s0, ip@);
                if ix >= 0 {
                    r == Ok::<(), StoreError>(()) && final(self).deep_view().recent_ips
                        == s0.update(ix, IpHistoryItemModel { count: 1u32, ..s0[ix] })
                } else {
                    r == Err::<(), StoreError>(StoreError::NotFound) && final(self).deep_view()
                        == old(self).deep_view()
                }
            }),
            same_but_recent_ips(final(self).deep_view(), old(self).deep_view()),
    {
        let ghost s0 = deep_seq(self.recent_ips@);
        match find_ip_index(&self.recent_ips, ip) {
            Some(i) => {
                let ghost prevv = self.recent_ips@;
                let mut e = self.recent_ips.remove(i);
                proof {
                    assert(e.deep_view() == s0[i as int]);
                }
                e.count = 1;
                let ghost midv = self.recent_ips@;
                self.recent_ips.insert(i, e);
                proof {
                    assert(deep_seq(midv) == deep_seq(prevv).remove(i as int));
                    assert(deep_seq(self.recent_ips@) == deep_seq(midv).insert(
                        i as int,
                        e.deep_view(),
                    ));
                    assert(deep_seq(self.recent_ips@) =~= s0.update(
                        i as int,
                        IpHistoryItemModel { count: 1u32, ..s0[i as int] },
                    ));
                }
                Ok(())
            },
            None => Err(StoreError::NotFound),
        }
    }

    /// Drop the whole address log; the count removed is reported back.
    pub fn clear_ip_history(&mut self) -> (n: usize)
        ensures
            n == old(self).deep_view().recent_ips.len(),
            final(self).deep_view().recent_ips == Seq::<IpHistoryItemModel>::empty(),
            same_but_recent_ips(final(self).deep_view(), old(self).deep_view()),
    {
        let n = self.recent_ips.len();
        self.recent_ips.clear();
        proof {
            assert(deep_seq(self.recent_ips@) =~= Seq::<IpHistoryItemModel>::empty());
        }
        n
    }

    /// Bump the access counters of the entry or bookmark carrying this
    /// identifier.
    pub fn update_item_access(&mut self, item_id: &Vec<u8>, is_bookmark: bool, now: u64) -> (r:
        Result<(), StoreError>)
        ensures
            ({
                let h0 = old(self).deep_view().history;
                let ix = first_id_index(h0, item_id@);
                !is_bookmark ==> {
                    if ix >= 0 {
                        r == Ok::<(), StoreError>(()) && final(self).deep_view().history
                            == h0.update(ix, accessed_entry(h0[ix], now)) && same_but_history(
                            final(self).deep_view(),
                            old(self).deep_view(),
                        )
                    } else {
                        r == Err::<(), StoreError>(StoreError::NotFound) && final(self).deep_view()
                            == old(self).deep_view()
                    }
                }
            }),
            ({
                let b0 = old(self).deep_view().bookmarks;
                let ix = first_bm_id_index(b0, item_id@);
                is_bookmark ==> {
                    if ix >= 0 {
                        r == Ok::<(), StoreError>(()) && final(self).deep_view().bookmarks
                            == b0.update(ix, accessed_bookmark(b0[ix], now)) && same_but_bookmarks(
                            final(self).deep_view(),
                            old(self).deep_view(),
                        )
                    } else {
                        r == Err::<(), StoreError>(StoreError::NotFound) && final(self).deep_view()
                            == old(self).deep_view()
                    }
                }
            }),
    {
        if is_bookmark {
            let ghost b0 = deep_seq(self.bookmarks@);
            match find_bm_id_index_exec(&self.bookmarks, item_id) {
                Some(i) => {
                    let ghost prevv = self.bookmarks@;
                    let mut e = self.bookmarks.remove(i);
                    proof {
                        assert(e.deep_view() == b0[i as int]);
                    }
                    e.last_accessed = Some(now);
                    if e.access_count < u32::MAX {
                        e.access_count = e.access_count + 1;
                    }
                    let ghost midv = self.bookmarks@;
                    self.bookmarks.insert(i, e);
                    proof {
                        assert(e.deep_view() == accessed_bookmark(b0[i as int], now));
                        assert(deep_seq(midv) == deep_seq(prevv).remove(i as int));
                        assert(deep_seq(self.bookmarks@) == deep_seq(midv).insert(
                            i as int,
                            e.deep_view(),
                        ));
                        assert(deep_seq(self.bookmarks@) =~= b0.update(
                            i as int,
                            accessed_bookmark(b0[i as int], now),
                        ));
                    }
                    return Ok(());
                },
                None => {
                    return Err(StoreError::NotFound);
                },
            }
        }
        let ghost h0 = deep_seq(self.history@);
        match find_hist_id_index(&self.history, item_id) {
            Some(i) => {
                let ghost prevv = self.history@;
                let mut e = self.history.remove(i);
                proof {
                    assert(e.deep_view() == h0[i as int]);
                }
                e.last_accessed = Some(now);
                if e.access_count < u32::MAX {
                    e.access_count = e.access_count + 1;
                }
                let ghost midv = self.history@;
                self.history.insert(i, e);
                proof {
                    assert(e.deep_view() == accessed_entry(h0[i as int], now));
                    assert(deep_seq(midv) == deep_seq(prevv).remove(i as int));
                    assert(deep_seq(self.history@) == deep_seq(midv).insert(
                        i as int,
                        e.deep_view(),
                    ));
                    assert(deep_seq(self.history@) =~= h0.update(
                        i as int,
                        accessed_entry(h0[i as int], now),
                    ));
                }
                Ok(())
            },
            None => Err(StoreError::NotFound),
        }
    }
}


fn find_hist_id_index(v: &Vec<ClipboardItem>, id: &Vec<u8>) -> (r: Option<usize>)
    ensures
        match r {
            Some(i) => 0 <= i < v@.len() && first_id_index(deep_seq(v@), id@) == i as int,
            None => first_id_index(deep_seq(v@), id@) == -1,
        },
{
    let ghost s = deep_seq(v@);
    let mut i: usize = 0;
    while i < v.len()
        invariant
            s == deep_seq(v@),
            0 <= i <= v@.len(),
            forall|m: int| 0 <= m < i ==> s[m].id != id@,
        decreases v@.len() - i,
    {
        proof {
            assert(s[i as int] == v@[i as int].deep_view());
        }
        if bytes_eq(&v[i].id, id) {
            proof {
                lemma_first_id_index(s, id@);
            }
            return Some(i);
        }
        i = i + 1;
    }
    proof {
        lemma_first_id_index(s, id@);
    }
    None
}

/// All fields of the aggregate other than the bookmarks agree.
pub open spec fn same_but_bookmarks(a: AppDataModel, b: AppDataModel) -> bool {
    &&& a.version == b.version
    &&& a.history == b.history
    &&& a.recent_ips == b.recent_ips
    &&& a.settings == b.settings
}

/// The first index holding this bookmark identifier, or -1.
pub open spec fn first_bm_id_index(s: Seq<BookmarkItemModel>, id: Seq<u8>) -> int
    decreases s.len(),
{
    if s.len() == 0 {
        -1
    } else if s[0].id == id {
        0
    } else {
        let r = first_bm_id_index(s.skip(1), id);
        if r < 0 {
            -1
        } else {
            r + 1
        }
    }
}

/// What `first_bm_id_index` finds.
pub proof fn lemma_first_bm_id_index(s: Seq<BookmarkItemModel>, id: Seq<u8>)
    ensures
        first_bm_id_index(s, id) == -1 ==> forall|m: int| 0 <= m < s.len() ==> s[m].id != id,
        first_bm_id_index(s, id) != -1 ==> {
            let r = first_bm_id_index(s, id);
            &&& 0 <= r < s.len()
            &&& s[r].id == id
            &&& forall|m: int| 0 <= m < r ==> s[m].id != id
        },
    decreases s.len(),
{
    if s.len() == 0 {
    } else if s[0].id == id {
    } else {
        lemma_first_bm_id_index(s.skip(1), id);
        let r = first_bm_id_index(s, id);
        if r == -1 {
            assert forall|m: int| 0 <= m < s.len() implies s[m].id != id by {
                if m > 0 {
                    assert(s.skip(1)[m - 1] == s[m]);
                }
            }
        } else {
            assert(s[r] == s.skip(1)[r - 1]);
            assert forall|m: int| 0 <= m < r implies s[m].id != id by {
                if m > 0 {
                    assert(s.skip(1)[m - 1] == s[m]);
                }
            }
        }
    }
}

/// A bookmark after one access.
pub open spec fn accessed_bookmark(e: BookmarkItemModel, now: u64) -> BookmarkItemModel {
    BookmarkItemModel {
        access_count: if e.access_count == u32::MAX {
            e.access_count
        } else {
            (e.access_count + 1) as u32
        },
        last_accessed: Some(now),
        ..e
    }
}

fn find_bm_id_index_exec(v: &Vec<BookmarkItem>, id: &Vec<u8>) -> (r: Option<usize>)
    ensures
        match r {
            Some(i) => 0 <= i < v@.len() && first_bm_id_index(deep_seq(v@), id@) == i as int,
            None => first_bm_id_index(deep_seq(v@), id@) == -1,
        },
{
    let ghost s = deep_seq(v@);
    let mut i: usize = 0;
    while i < v.len()
        invariant
            s == deep_seq(v@),
            0 <= i <= v@.len(),
            forall|m: int| 0 <= m < i ==> s[m].id != id@,
        decreases v@.len() - i,
    {
        proof {
            assert(s[i as int] == v@[i as int].deep_view());
        }
        if bytes_eq(&v[i].id, id) {
            proof {
                lemma_first_bm_id_index(s, id@);
            }
            return Some(i);
        }
        i = i + 1;
    }
    proof {
        lemma_first_bm_id_index(s, id@);
    }
    None
}

/// A bookmark after an edit: present fields replaced, the access instant
/// recorded.
pub open spec fn edited_bookmark(
    e: BookmarkItemModel,
    name: Option<Seq<u8>>,
    content: Option<Seq<u8>>,
    tags: Option<Seq<Seq<u8>>>,
    now: u64,
) -> BookmarkItemModel {
    BookmarkItemModel {
        name: if name is Some {
            name.unwrap()
        } else {
            e.name
        },
        content: if content is Some {
            content.unwrap()
        } else {
            e.content
        },
        tags: if tags is Some {
            tags.unwrap()
        } else {
            e.tags
        },
        last_accessed: Some(now),
        ..e
    }
}

/// The suffix a duplicated bookmark's label receives.
pub open spec fn spec_copy_suffix() -> Seq<u8> {
    // a space, an opening parenthesis, the three-character katakana word
    // for "copy" in UTF-8, and a closing parenthesis
    seq![32u8, 40u8, 227u8, 130u8, 179u8, 227u8, 131u8, 148u8, 227u8, 131u8, 188u8, 41u8]
}

/// The duplicate of a bookmark: fresh identifier and capture instant,
/// suffixed label, access counters reset.
pub open spec fn duplicated_bookmark(
    e: BookmarkItemModel,
    idv: Seq<u8>,
    now: u64,
) -> BookmarkItemModel {
    BookmarkItemModel {
        id: idv,
        name: e.name + spec_copy_suffix(),
        content: e.content,
        content_type: e.content_type,
        timestamp: now,
        tags: e.tags,
        access_count: 0,
        last_accessed: None,
    }
}

/// The bookmark search predicate: the folded query occurs in the folded
/// label, in the folded content, or in any folded tag.
pub open spec fn bm_search_pred(q: Seq<u8>) -> spec_fn(BookmarkItemModel) -> bool {
    |e: BookmarkItemModel|
        spec_contains_bytes(spec_lower(e.name), spec_lower(q)) || spec_contains_bytes(
            spec_lower(e.content),
            spec_lower(q),
        ) || exists|t: int|
            0 <= t < e.tags.len() && spec_contains_bytes(spec_lower(e.tags[t]), spec_lower(q))
}

/// The slot where a bookmark with this capture time goes, newest first.
pub open spec fn bm_insert_pos(s: Seq<BookmarkItemModel>, ts: u64) -> int
    decreases s.len(),
{
    if s.len() == 0 {
        0
    } else if ts > s[0].timestamp {
        0
    } else {
        1 + bm_insert_pos(s.skip(1), ts)
    }
}

/// What `bm_insert_pos` picks.
pub proof fn lemma_bm_insert_pos(s: Seq<BookmarkItemModel>, ts: u64)
    ensures
        0 <= bm_insert_pos(s, ts) <= s.len(),
        forall|m: int| 0 <= m < bm_insert_pos(s, ts) ==> s[m].timestamp >= ts,
        bm_insert_pos(s, ts) < s.len() ==> ts > s[bm_insert_pos(s, ts)].timestamp,
    decreases s.len(),
{
    if s.len() == 0 {
    } else if ts > s[0].timestamp {
    } else {
        lemma_bm_insert_pos(s.skip(1), ts);
        assert forall|m: int| 0 <= m < bm_insert_pos(s, ts) implies s[m].timestamp >= ts by {
            if m > 0 {
                assert(s.skip(1)[m - 1] == s[m]);
            }
        }
    }
}

/// Place a bookmark into a list sorted newest first.
pub open spec fn bm_sorted_place(
    s: Seq<BookmarkItemModel>,
    e: BookmarkItemModel,
) -> Seq<BookmarkItemModel> {
    s.insert(bm_insert_pos(s, e.timestamp), e)
}

/// Stable newest-first ordering of bookmarks.
pub open spec fn sort_bm_desc(s: Seq<BookmarkItemModel>) -> Seq<BookmarkItemModel>
    decreases s.len(),
{
    if s.len() == 0 {
        s
    } else {
        bm_sorted_place(sort_bm_desc(s.drop_last()), s.last())
    }
}

/// What a bookmark search returns.
pub open spec fn spec_search_bookmarks(
    b: Seq<BookmarkItemModel>,
    q: Seq<u8>,
) -> Seq<BookmarkItemModel> {
    if spec_is_blank(q) {
        b
    } else {
        sort_bm_desc(b.filter(bm_search_pred(q)))
    }
}

fn bm_sorted_insert(v: &mut Vec<BookmarkItem>, e: BookmarkItem)
    ensures
        final(v).deep_view() == bm_sorted_place(deep_seq(old(v)@), e.deep_view()),
{
    let ghost orig: Seq<BookmarkItemModel> = deep_seq(v@);
    let ghost ts = e.deep_view().timestamp;
    let mut p: usize = 0;
    while p < v.len() && !(e.timestamp > v[p].timestamp)
        invariant
            ts == e.timestamp,
            orig == deep_seq(v@),
            0 <= p <= v@.len(),
            forall|m: int| 0 <= m < p ==> orig[m].timestamp >= ts,
        decreases v@.len() - p,
    {
        proof {
            assert(orig[p as int] == v@[p as int].deep_view());
        }
        p = p + 1;
    }
    proof {
        lemma_bm_insert_pos(orig, ts);
        let q = bm_insert_pos(orig, ts);
        if p < v@.len() {
            assert(orig[p as int] == v@[p as int].deep_view());
            assert(ts > orig[p as int].timestamp);
        }
        assert(p as int == q) by {
            if q < p {
                assert(orig[q].timestamp >= ts);
                assert(ts > orig[q].timestamp);
            }
            if p < q {
                assert(orig[p as int].timestamp >= ts);
            }
        }
    }
    let ghost prevv = v@;
    v.insert(p, e);
    proof {
        assert(deep_seq(v@) == deep_seq(prevv).insert(p as int, e.deep_view()));
    }
}

fn tags_match(tags: &Vec<Vec<u8>>, qlow: &Vec<u8>) -> (r: bool)
    ensures
        r == exists|t: int|
            0 <= t < tags.deep_view().len() && spec_contains_bytes(
                spec_lower(tags.deep_view()[t]),
                qlow@,
            ),
{
    let mut t: usize = 0;
    while t < tags.len()
        invariant
            0 <= t <= tags@.len(),
            forall|m: int|
                0 <= m < t ==> !spec_contains_bytes(spec_lower(tags.deep_view()[m]), qlow@),
        decreases tags@.len() - t,
    {
        proof {
            assert(tags.deep_view()[t as int] == tags@[t as int].deep_view());
            assert(tags@[t as int].deep_view() == tags@[t as int]@);
        }
        if contains_lower(&tags[t], qlow) {
            return true;
        }
        t = t + 1;
    }
    false
}

impl AppData {
    /// Append a bookmark.
    pub fn insert_bookmark(&mut self, item: BookmarkItem)
        ensures
            final(self).deep_view().bookmarks == old(self).deep_view().bookmarks.push(
                item.deep_view(),
            ),
            same_but_bookmarks(final(self).deep_view(), old(self).deep_view()),
    {
        let ghost iv = item.deep_view();
        let ghost prevv = self.bookmarks@;
        self.bookmarks.push(item);
        proof {
            assert(deep_seq(self.bookmarks@) == deep_seq(prevv).push(iv));
        }
    }

    /// Create a bookmark under a fresh identifier and the current
    /// instant and append it.
    pub fn add_bookmark(&mut self, name: Vec<u8>, content: Vec<u8>, content_type: Vec<u8>, tags: Vec<
        Vec<u8>,
    >)
        ensures
            exists|idv: Seq<u8>, ts: u64|
                idv.len() == 36 && final(self).deep_view().bookmarks == old(
                    self,
                ).deep_view().bookmarks.push(
                    #[trigger] fresh_bookmark(
                        idv,
                        name@,
                        content@,
                        content_type@,
                        tags.deep_view(),
                        ts,
                    ),
                ),
            same_but_bookmarks(final(self).deep_view(), old(self).deep_view()),
    {
        let id = new_id();
        let now = now_unix_millis();
        let ghost idv = id@;
        let ghost ts = now;
        let ghost nv = name@;
        let ghost cv = content@;
        let ghost ctv = content_type@;
        let ghost tv = tags.deep_view();
        let item = BookmarkItem::new(id, name, content, content_type, tags, now);
        proof {
            assert(item.deep_view() == fresh_bookmark(idv, nv, cv, ctv, tv, ts));
        }
        self.insert_bookmark(item);
    }

    /// Remove the bookmark carrying this identifier.
    pub fn delete_bookmark(&mut self, bookmark_id: &Vec<u8>) -> (r: Result<(), StoreError>)
        ensures
            ({
                let b0 = old(self).deep_view().bookmarks;
                let ix = first_bm_id_index(b0, bookmark_id@);
                if ix >= 0 {
                    r == Ok::<(), StoreError>(()) && final(self).deep_view().bookmarks
                        == b0.remove(ix)
                } else {
                    r == Err::<(), StoreError>(StoreError::NotFound) && final(self).deep_view()
                        == old(self).deep_view()
                }
            }),
            same_but_bookmarks(final(self).deep_view(), old(self).deep_view()),
    {
        match find_bm_id_index_exec(&self.bookmarks, bookmark_id) {
            Some(i) => {
                let ghost prevv = self.bookmarks@;
                self.bookmarks.remove(i);
                proof {
                    assert(deep_seq(self.bookmarks@) == deep_seq(prevv).remove(i as int));
                }
                Ok(())
            },
            None => Err(StoreError::NotFound),
        }
    }

    /// Edit the bookmark carrying this identifier: the fields handed in
    /// replace the stored ones, and the access instant is recorded.
    pub fn update_bookmark(
        &mut self,
        bookmark_id: &Vec<u8>,
        name: Option<Vec<u8>>,
        content: Option<Vec<u8>>,
        tags: Option<Vec<Vec<u8>>>,
        now: u64,
    ) -> (r: Result<(), StoreError>)
        ensures
            ({
                let b0 = old(self).deep_view().bookmarks;
                let ix = first_bm_id_index(b0, bookmark_id@);
                if ix >= 0 {
                    r == Ok::<(), StoreError>(()) && final(self).deep_view().bookmarks
                        == b0.update(
                        ix,
                        edited_bookmark(
                            b0[ix],
                            name.deep_view(),
                            content.deep_view(),
                            tags.deep_view(),
                            now,
                        ),
                    )
                } else {
                    r == Err::<(), StoreError>(StoreError::NotFound) && final(self).deep_view()
                        == old(self).deep_view()
                }
            }),
            same_but_bookmarks(final(self).deep_view(), old(self).deep_view()),
    {
        let ghost b0 = deep_seq(self.bookmarks@);
        match find_bm_id_index_exec(&self.bookmarks, bookmark_id) {
            Some(i) => {
                let ghost prevv = self.bookmarks@;
                let mut e = self.bookmarks.remove(i);
                proof {
                    assert(e.deep_view() == b0[i as int]);
                }
                match name {
                    Some(n) => {
                        e.name = n;
                    },
                    None => {},
                }
                match content {
                    Some(c) => {
                        e.content = c;
                    },
                    None => {},
                }
                match tags {
                    Some(t) => {
                        e.tags = t;
                    },
                    None => {},
                }
                e.last_accessed = Some(now);
                let ghost midv = self.bookmarks@;
                self.bookmarks.insert(i, e);
                proof {
                    assert(deep_seq(midv) == deep_seq(prevv).remove(i as int));
                    assert(deep_seq(self.bookmarks@) == deep_seq(midv).insert(
                        i as int,
                        e.deep_view(),
                    ));
                    assert(deep_seq(self.bookmarks@) =~= b0.update(
                        i as int,
                        edited_bookmark(
                            b0[i as int],
                            name.deep_view(),
                            content.deep_view(),
                            tags.deep_view(),
                            now,
                        ),
                    ));
                }
                Ok(())
            },
            None => Err(StoreError::NotFound),
        }
    }

    /// Search the bookmarks: everything for a blank query, otherwise the
    /// matches on label, content or tags, ordered newest first.
    pub fn search_bookmarks(&self, query: &Vec<u8>) -> (r: Vec<BookmarkItem>)
        ensures
            r.deep_view() == spec_search_bookmarks(self.deep_view().bookmarks, query@),
    {
        let ghost b0 = deep_seq(self.bookmarks@);
        if is_blank(query) {
            let mut out: Vec<BookmarkItem> = Vec::new();
            let mut i: usize = 0;
            while i < self.bookmarks.len()
                invariant
                    b0 == deep_seq(self.bookmarks@),
                    0 <= i <= self.bookmarks@.len(),
                    deep_seq(out@) == b0.subrange(0, i as int),
                decreases self.bookmarks@.len() - i,
            {
                out.push(self.bookmarks[i].clone());
                proof {
                    assert(b0[i as int] == self.bookmarks@[i as int].deep_view());
                    assert(deep_seq(out@) =~= b0.subrange(0, i + 1 as int));
                }
                i = i + 1;
            }
            proof {
                assert(b0.subrange(0, b0.len() as int) =~= b0);
            }
            out
        } else {
            let qlow = to_lower(query);
            let ghost q = query@;
            let mut out: Vec<BookmarkItem> = Vec::new();
            let mut i: usize = 0;
            proof {
                assert(b0.subrange(0, 0) =~= Seq::<BookmarkItemModel>::empty());
                lemma_filter_empty(b0.subrange(0, 0), bm_search_pred(q));
            }
            while i < self.bookmarks.len()
                invariant
                    b0 == deep_seq(self.bookmarks@),
                    q == query@,
                    qlow@ == spec_lower(q),
                    0 <= i <= self.bookmarks@.len(),
                    deep_seq(out@) == sort_bm_desc(b0.subrange(0, i as int).filter(bm_search_pred(q))),
                decreases self.bookmarks@.len() - i,
            {
                let ghost e = b0[i as int];
                proof {
                    assert(b0[i as int] == self.bookmarks@[i as int].deep_view());
                    assert(b0.subrange(0, i + 1 as int) =~= b0.subrange(0, i as int).push(e));
                    lemma_filter_push(b0.subrange(0, i as int), bm_search_pred(q), e);
                }
                let hit = contains_lower(&self.bookmarks[i].name, &qlow) || contains_lower(
                    &self.bookmarks[i].content,
                    &qlow,
                ) || tags_match(&self.bookmarks[i].tags, &qlow);
                proof {
                    assert(hit == bm_search_pred(q)(e)) by {
                        assert(e.tags == self.bookmarks@[i as int].tags.deep_view());
                        assert(e.name == self.bookmarks@[i as int].name@);
                        assert(e.content == self.bookmarks@[i as int].content@);
                        assert(qlow@ == spec_lower(q));
                        if exists|t: int|
                            0 <= t < self.bookmarks@[i as int].tags.deep_view().len()
                                && spec_contains_bytes(
                                spec_lower(self.bookmarks@[i as int].tags.deep_view()[t]),
                                qlow@,
                            ) {
                            let w = choose|t: int|
                                0 <= t < self.bookmarks@[i as int].tags.deep_view().len()
                                    && spec_contains_bytes(
                                    spec_lower(self.bookmarks@[i as int].tags.deep_view()[t]),
                                    qlow@,
                                );
                            assert(spec_contains_bytes(spec_lower(e.tags[w]), spec_lower(q)));
                        }
                        if exists|t: int|
                            0 <= t < e.tags.len() && spec_contains_bytes(
                                spec_lower(e.tags[t]),
                                spec_lower(q),
                            ) {
                            let w = choose|t: int|
                                0 <= t < e.tags.len() && spec_contains_bytes(
                                    spec_lower(e.tags[t]),
                                    spec_lower(q),
                                );
                            assert(spec_contains_bytes(
                                spec_lower(self.bookmarks@[i as int].tags.deep_view()[w]),
                                qlow@,
                            ));
                        }
                    }
                }
                if hit {
                    let ghost fs = b0.subrange(0, i as int).filter(bm_search_pred(q));
                    proof {
                        assert(fs.push(e).drop_last() =~= fs);
                    }
                    bm_sorted_insert(&mut out, self.bookmarks[i].clone());
                }
                i = i + 1;
            }
            proof {
                assert(b0.subrange(0, b0.len() as int) =~= b0);
            }
            out
        }
    }

    /// Duplicate the bookmark carrying this identifier under a fresh
    /// identifier, a suffixed label and reset access counters.
    pub fn duplicate_bookmark(&mut self, bookmark_id: &Vec<u8>) -> (r: Result<(), StoreError>)
        ensures
            ({
                let b0 = old(self).deep_view().bookmarks;
                let ix = first_bm_id_index(b0, bookmark_id@);
                if ix >= 0 {
                    r == Ok::<(), StoreError>(()) && exists|idv: Seq<u8>, ts: u64|
                        idv.len() == 36 && final(self).deep_view().bookmarks == b0.push(
                            #[trigger] duplicated_bookmark(b0[ix], idv, ts),
                        )
                } else {
                    r == Err::<(), StoreError>(StoreError::NotFound) && final(self).deep_view()
                        == old(self).deep_view()
                }
            }),
            same_but_bookmarks(final(self).deep_view(), old(self).deep_view()),
    {
        let ghost b0 = deep_seq(self.bookmarks@);
        match find_bm_id_index_exec(&self.bookmarks, bookmark_id) {
            Some(i) => {
                let id = new_id();
                let now = now_unix_millis();
                let ghost idv = id@;
                let ghost ts = now;
                let mut name = clone_bytes(&self.bookmarks[i].name);
                name.push(32);
                name.push(40);
                name.push(227);
                name.push(130);
                name.push(179);
                name.push(227);
                name.push(131);
                name.push(148);
                name.push(227);
                name.push(131);
                name.push(188);
                name.push(41);
                proof {
                    assert(name@ =~= b0[i as int].name + spec_copy_suffix());
                    assert(b0[i as int] == self.bookmarks@[i as int].deep_view());
                }
                let dup = BookmarkItem {
                    id,
                    name,
                    content: clone_bytes(&self.bookmarks[i].content),
                    content_type: clone_bytes(&self.bookmarks[i].content_type),
                    timestamp: now,
                    tags: crate::bytes::clone_byte_list(&self.bookmarks[i].tags),
                    access_count: 0,
                    last_accessed: None,
                };
                proof {
                    assert(dup.deep_view() == duplicated_bookmark(b0[i as int], idv, ts));
                }
                let ghost prevv = self.bookmarks@;
                self.bookmarks.push(dup);
                proof {
                    assert(deep_seq(self.bookmarks@) == deep_seq(prevv).push(
                        duplicated_bookmark(b0[i as int], idv, ts),
                    ));
                }
                Ok(())
            },
            None => Err(StoreError::NotFound),
        }
    }

    /// Drop all bookmarks; the count removed is reported back.
    pub fn clear_all_bookmarks(&mut self) -> (n: usize)
        ensures
            n == old(self).deep_view().bookmarks.len(),
            final(self).deep_view().bookmarks == Seq::<BookmarkItemModel>::empty(),
            same_but_bookmarks(final(self).deep_view(), old(self).deep_view()),
    {
        let n = self.bookmarks.len();
        self.bookmarks.clear();
        proof {
            assert(deep_seq(self.bookmarks@) =~= Seq::<BookmarkItemModel>::empty());
        }
        n
    }

    /// A copy of the current settings.
    pub fn get_settings(&self) -> (r: AppSettings)
        ensures
            r.deep_view() == self.deep_view().settings,
    {
        self.settings.clone()
    }

    /// Replace the settings; refused when a capacity bound is zero, since
    /// every store operation relies on positive limits.
    pub fn update_settings(&mut self, new_settings: AppSettings) -> (r: Result<(), StoreError>)
        ensures
            if wf_settings(new_settings.deep_view()) {
                r == Ok::<(), StoreError>(()) && final(self).deep_view().settings
                    == new_settings.deep_view() && final(self).deep_view().history == old(
                    self,
                ).deep_view().history && final(self).deep_view().bookmarks == old(
                    self,
                ).deep_view().bookmarks && final(self).deep_view().recent_ips == old(
                    self,
                ).deep_view().recent_ips && final(self).deep_view().version == old(
                    self,
                ).deep_view().version
            } else {
                r == Err::<(), StoreError>(StoreError::InvalidInput) && final(self).deep_view()
                    == old(self).deep_view()
            },
    {
        if new_settings.history_limit >= 1 && new_settings.ip_limit >= 1 {
            self.settings = new_settings;
            Ok(())
        } else {
            Err(StoreError::InvalidInput)
        }
    }
}

/// Entries whose content equals `c`.
pub open spec fn content_pred(c: Seq<u8>) -> spec_fn(ClipboardItemModel) -> bool {
    |e: ClipboardItemModel| e.content == c
}

/// How many entries carry this content.
pub open spec fn count_content(h: Seq<ClipboardItemModel>, c: Seq<u8>) -> int {
    h.filter(content_pred(c)).len() as int
}

/// The identifiers of a run of entries, in order.
pub open spec fn ids_of(s: Seq<ClipboardItemModel>) -> Seq<Seq<u8>> {
    s.map_values(|e: ClipboardItemModel| e.id)
}

/// Position `i` opens a duplicate group: its content was not seen before
/// and occurs at least twice overall.
pub open spec fn is_first_dup(h: Seq<ClipboardItemModel>, i: int) -> bool {
    &&& forall|k: int| 0 <= k < i ==> h[k].content != h[i].content
    &&& count_content(h, h[i].content) >= 2
}

/// Mathematical view of a [`DuplicateGroup`].
pub struct DuplicateGroupModel {
    pub content: Seq<u8>,
    pub count: int,
    pub ids: Seq<Seq<u8>>,
}

/// One group of history entries sharing identical content.
pub struct DuplicateGroup {
    pub content: Vec<u8>,
    pub count: usize,
    pub ids: Vec<Vec<u8>>,
}

impl DeepView for DuplicateGroup {
    type V = DuplicateGroupModel;

    open spec fn deep_view(&self) -> DuplicateGroupModel {
        DuplicateGroupModel {
            content: self.content@,
            count: self.count as int,
            ids: self.ids.deep_view(),
        }
    }
}

/// The group opened by a content value.
pub open spec fn group_of(h: Seq<ClipboardItemModel>, c: Seq<u8>) -> DuplicateGroupModel {
    DuplicateGroupModel {
        content: c,
        count: count_content(h, c),
        ids: ids_of(h.filter(content_pred(c))),
    }
}

/// The duplicate groups found among the first `n` entries, in order of
/// first occurrence.
pub open spec fn groups_upto(h: Seq<ClipboardItemModel>, n: int) -> Seq<DuplicateGroupModel>
    decreases n,
{
    if n <= 0 {
        Seq::empty()
    } else {
        groups_upto(h, n - 1) + if is_first_dup(h, n - 1) {
            seq![group_of(h, h[n - 1].content)]
        } else {
            Seq::empty()
        }
    }
}

/// All duplicate groups of the history.
pub open spec fn spec_duplicate_groups(h: Seq<ClipboardItemModel>) -> Seq<DuplicateGroupModel> {
    groups_upto(h, h.len() as int)
}

/// Bookmarks whose label and content both match.
pub open spec fn bm_key_pred(n: Seq<u8>, c: Seq<u8>) -> spec_fn(BookmarkItemModel) -> bool {
    |e: BookmarkItemModel| e.name == n && e.content == c
}

/// The bookmark identifiers of a run, in order.
pub open spec fn bm_ids_of(s: Seq<BookmarkItemModel>) -> Seq<Seq<u8>> {
    s.map_values(|e: BookmarkItemModel| e.id)
}

/// Position `i` opens a duplicate bookmark group.
pub open spec fn is_first_bm_dup(b: Seq<BookmarkItemModel>, i: int) -> bool {
    &&& forall|k: int| 0 <= k < i ==> !(b[k].name == b[i].name && b[k].content == b[i].content)
    &&& b.filter(bm_key_pred(b[i].name, b[i].content)).len() >= 2
}

/// Mathematical view of a [`BmDuplicateGroup`].
pub struct BmDuplicateGroupModel {
    pub name: Seq<u8>,
    pub content: Seq<u8>,
    pub count: int,
    pub ids: Seq<Seq<u8>>,
}

/// One group of bookmarks sharing label and content.
pub struct BmDuplicateGroup {
    pub name: Vec<u8>,
    pub content: Vec<u8>,
    pub count: usize,
    pub ids: Vec<Vec<u8>>,
}

impl DeepView for BmDuplicateGroup {
    type V = BmDuplicateGroupModel;

    open spec fn deep_view(&self) -> BmDuplicateGroupModel {
        BmDuplicateGroupModel {
            name: self.name@,
            content: self.content@,
            count: self.count as int,
            ids: self.ids.deep_view(),
        }
    }
}

/// The bookmark group opened by a label and content pair.
pub open spec fn bm_group_of(
    b: Seq<BookmarkItemModel>,
    n: Seq<u8>,
    c: Seq<u8>,
) -> BmDuplicateGroupModel {
    BmDuplicateGroupModel {
        name: n,
        content: c,
        count: b.filter(bm_key_pred(n, c)).len() as int,
        ids: bm_ids_of(b.filter(bm_key_pred(n, c))),
    }
}

/// The duplicate bookmark groups found among the first `n` bookmarks.
pub open spec fn bm_groups_upto(b: Seq<BookmarkItemModel>, n: int) -> Seq<BmDuplicateGroupModel>
    decreases n,
{
    if n <= 0 {
        Seq::empty()
    } else {
        bm_groups_upto(b, n - 1) + if is_first_bm_dup(b, n - 1) {
            seq![bm_group_of(b, b[n - 1].name, b[n - 1].content)]
        } else {
            Seq::empty()
        }
    }
}

/// All duplicate bookmark groups.
pub open spec fn spec_duplicate_bm_groups(b: Seq<BookmarkItemModel>) -> Seq<
    BmDuplicateGroupModel,
> {
    bm_groups_upto(b, b.len() as int)
}

impl AppData {
    /// Report the groups of history entries sharing identical content, in
    /// order of first occurrence, each with its member count and the
    /// member identifiers in order.
    pub fn find_duplicate_clipboard_items(&self) -> (r: Vec<DuplicateGroup>)
        ensures
            r.deep_view() == spec_duplicate_groups(self.deep_view().history),
    {
        let ghost h0 = deep_seq(self.history@);
        let n = self.history.len();
        let mut out: Vec<DuplicateGroup> = Vec::new();
        let mut i: usize = 0;
        while i < n
            invariant
                h0 == deep_seq(self.history@),
                n == self.history@.len(),
                0 <= i <= n,
                out.deep_view() == groups_upto(h0, i as int),
            decreases n - i,
        {
            let ghost e = h0[i as int];
            proof {
                assert(h0[i as int] == self.history@[i as int].deep_view());
            }
            let mut seen = false;
            let mut j: usize = 0;
            while j < i
                invariant
                    h0 == deep_seq(self.history@),
                    n == self.history@.len(),
                    0 <= j <= i < n,
                    e == h0[i as int],
                    seen == exists|k: int| 0 <= k < j && h0[k].content == e.content,
                decreases i - j,
            {
                proof {
                    assert(h0[j as int] == self.history@[j as int].deep_view());
                    assert(h0[i as int] == self.history@[i as int].deep_view());
                }
                if bytes_eq(&self.history[j].content, &self.history[i].content) {
                    seen = true;
                }
                j = j + 1;
            }
            if !seen {
                let mut cnt: usize = 0;
                let mut ids: Vec<Vec<u8>> = Vec::new();
                let mut m: usize = 0;
                proof {
                    assert(h0.subrange(0, 0) =~= Seq::<ClipboardItemModel>::empty());
                    lemma_filter_empty(h0.subrange(0, 0), content_pred(e.content));
                    assert(ids_of(h0.subrange(0, 0).filter(content_pred(e.content)))
                        =~= Seq::<Seq<u8>>::empty());
                    assert(ids.deep_view() =~= Seq::<Seq<u8>>::empty());
                }
                while m < n
                    invariant
                        h0 == deep_seq(self.history@),
                        n == self.history@.len(),
                        0 <= m <= n,
                        i < n,
                        e == h0[i as int],
                        cnt as int == h0.subrange(0, m as int).filter(
                            content_pred(e.content),
                        ).len(),
                        ids.deep_view() == ids_of(
                            h0.subrange(0, m as int).filter(content_pred(e.content)),
                        ),
                    decreases n - m,
                {
                    let ghost em = h0[m as int];
                    proof {
                        assert(h0[m as int] == self.history@[m as int].deep_view());
                        assert(h0.subrange(0, m + 1 as int) =~= h0.subrange(0, m as int).push(em));
                        lemma_filter_push(h0.subrange(0, m as int), content_pred(e.content), em);
                    }
                    if bytes_eq(&self.history[m].content, &self.history[i].content) {
                        cnt = cnt + 1;
                        let ghost previds = ids@;
                        ids.push(clone_bytes(&self.history[m].id));
                        proof {
                            let fs = h0.subrange(0, m as int).filter(content_pred(e.content));
                            assert(ids_of(fs.push(em)) =~= ids_of(fs).push(em.id));
                            assert(ids.deep_view() =~= deep_seq(previds).push(em.id));
                        }
                    }
                    m = m + 1;
                }
                proof {
                    assert(h0.subrange(0, n as int) =~= h0);
                }
                if cnt >= 2 {
                    let group = DuplicateGroup {
                        content: clone_bytes(&self.history[i].content),
                        count: cnt,
                        ids,
                    };
                    let ghost prevo = out@;
                    proof {
                        assert(group.deep_view() == group_of(h0, e.content));
                        assert(is_first_dup(h0, i as int));
                    }
                    out.push(group);
                    proof {
                        assert(out.deep_view() =~= groups_upto(h0, i + 1 as int));
                    }
                } else {
                    proof {
                        assert(!is_first_dup(h0, i as int));
                        assert(out.deep_view() =~= groups_upto(h0, i + 1 as int));
                    }
                }
            } else {
                proof {
                    assert(!is_first_dup(h0, i as int));
                    assert(out.deep_view() =~= groups_upto(h0, i + 1 as int));
                }
            }
            i = i + 1;
        }
        out
    }

    /// Report the groups of bookmarks sharing label and content, in order
    /// of first occurrence.
    pub fn find_duplicate_bookmarks(&self) -> (r: Vec<BmDuplicateGroup>)
        ensures
            r.deep_view() == spec_duplicate_bm_groups(self.deep_view().bookmarks),
    {
        let ghost b0 = deep_seq(self.bookmarks@);
        let n = self.bookmarks.len();
        let mut out: Vec<BmDuplicateGroup> = Vec::new();
        let mut i: usize = 0;
        while i < n
            invariant
                b0 == deep_seq(self.bookmarks@),
                n == self.bookmarks@.len(),
                0 <= i <= n,
                out.deep_view() == bm_groups_upto(b0, i as int),
            decreases n - i,
        {
            let ghost e = b0[i as int];
            proof {
                assert(b0[i as int] == self.bookmarks@[i as int].deep_view());
            }
            let mut seen = false;
            let mut j: usize = 0;
            while j < i
                invariant
                    b0 == deep_seq(self.bookmarks@),
                    n == self.bookmarks@.len(),
                    0 <= j <= i < n,
                    e == b0[i as int],
                    seen == exists|k: int|
                        0 <= k < j && b0[k].name == e.name && b0[k].content == e.content,
                decreases i - j,
            {
                proof {
                    assert(b0[j as int] == self.bookmarks@[j as int].deep_view());
                    assert(b0[i as int] == self.bookmarks@[i as int].deep_view());
                }
                if bytes_eq(&self.bookmarks[j].name, &self.bookmarks[i].name) && bytes_eq(
                    &self.bookmarks[j].content,
                    &self.bookmarks[i].content,
                ) {
                    seen = true;
                }
                j = j + 1;
            }
            if !seen {
                let mut cnt: usize = 0;
                let mut ids: Vec<Vec<u8>> = Vec::new();
                let mut m: usize = 0;
                proof {
                    assert(b0.subrange(0, 0) =~= Seq::<BookmarkItemModel>::empty());
                    lemma_filter_empty(b0.subrange(0, 0), bm_key_pred(e.name, e.content));
                    assert(bm_ids_of(b0.subrange(0, 0).filter(bm_key_pred(e.name, e.content)))
                        =~= Seq::<Seq<u8>>::empty());
                    assert(ids.deep_view() =~= Seq::<Seq<u8>>::empty());
                }
                while m < n
                    invariant
                        b0 == deep_seq(self.bookmarks@),
                        n == self.bookmarks@.len(),
                        0 <= m <= n,
                        i < n,
                        e == b0[i as int],
                        cnt as int == b0.subrange(0, m as int).filter(
                            bm_key_pred(e.name, e.content),
                        ).len(),
                        ids.deep_view() == bm_ids_of(
                            b0.subrange(0, m as int).filter(bm_key_pred(e.name, e.content)),
                        ),
                    decreases n - m,
                {
                    let ghost em = b0[m as int];
                    proof {
                        assert(b0[m as int] == self.bookmarks@[m as int].deep_view());
                        assert(b0.subrange(0, m + 1 as int) =~= b0.subrange(0, m as int).push(em));
                        lemma_filter_push(
                            b0.subrange(0, m as int),
                            bm_key_pred(e.name, e.content),
                            em,
                        );
                    }
                    if bytes_eq(&self.bookmarks[m].name, &self.bookmarks[i].name) && bytes_eq(
                        &self.bookmarks[m].content,
                        &self.bookmarks[i].content,
                    ) {
                        cnt = cnt + 1;
                        let ghost previds = ids@;
                        ids.push(clone_bytes(&self.bookmarks[m].id));
                        proof {
                            let fs = b0.subrange(0, m as int).filter(
                                bm_key_pred(e.name, e.content),
                            );
                            assert(bm_ids_of(fs.push(em)) =~= bm_ids_of(fs).push(em.id));
                            assert(ids.deep_view() =~= deep_seq(previds).push(em.id));
                        }
                    }
                    m = m + 1;
                }
                proof {
                    assert(b0.subrange(0, n as int) =~= b0);
                }
                if cnt >= 2 {
                    let group = BmDuplicateGroup {
                        name: clone_bytes(&self.bookmarks[i].name),
                        content: clone_bytes(&self.bookmarks[i].content),
                        count: cnt,
                        ids,
                    };
                    proof {
                        assert(group.deep_view() == bm_group_of(b0, e.name, e.content));
                        assert(is_first_bm_dup(b0, i as int));
                    }
                    out.push(group);
                    proof {
                        assert(out.deep_view() =~= bm_groups_upto(b0, i + 1 as int));
                    }
                } else {
                    proof {
                        assert(!is_first_bm_dup(b0, i as int));
                        assert(out.deep_view() =~= bm_groups_upto(b0, i + 1 as int));
                    }
                }
            } else {
                proof {
                    assert(!is_first_bm_dup(b0, i as int));
                    assert(out.deep_view() =~= bm_groups_upto(b0, i + 1 as int));
                }
            }
            i = i + 1;
        }
        out
    }
}

/// The duplicate-collapse rule at position `k`, judged from position `i`:
/// an entry sharing `i`'s content must be strictly older, or as old and
/// later in the sequence, for `i` to survive.
pub open spec fn hist_yields(h: Seq<ClipboardItemModel>, i: int, k: int) -> bool {
    (k != i && h[k].content == h[i].content) ==> (h[k].timestamp < h[i].timestamp || (
    h[k].timestamp == h[i].timestamp && k > i))
}

/// Entry `i` survives the duplicate collapse: among entries with its
/// content it carries the latest capture time, the earliest position on
/// ties.
pub open spec fn keep_hist(h: Seq<ClipboardItemModel>, i: int) -> bool {
    forall|k: int| 0 <= k < h.len() ==> hist_yields(h, i, k)
}

/// The survivors of the duplicate collapse among the first `n` entries.
pub open spec fn dedup_hist_upto(h: Seq<ClipboardItemModel>, n: int) -> Seq<ClipboardItemModel>
    decreases n,
{
    if n <= 0 {
        Seq::empty()
    } else {
        dedup_hist_upto(h, n - 1) + if keep_hist(h, n - 1) {
            seq![h[n - 1]]
        } else {
            Seq::empty()
        }
    }
}

/// The history after the duplicate collapse: one survivor per content, in
/// position order.
pub open spec fn dedup_hist(h: Seq<ClipboardItemModel>) -> Seq<ClipboardItemModel> {
    dedup_hist_upto(h, h.len() as int)
}

/// The position, among the first `n` entries, that survivor `g` of the
/// duplicate collapse came from.
pub open spec fn hist_source(h: Seq<ClipboardItemModel>, n: int, g: int) -> int
    decreases n,
{
    if n <= 0 {
        -1
    } else if g < dedup_hist_upto(h, n - 1).len() {
        hist_source(h, n - 1, g)
    } else {
        n - 1
    }
}

/// The duplicate collapse yields unique contents, and every survivor is
/// one of the original entries, found by `hist_source`.
pub proof fn lemma_dedup_hist_props(h: Seq<ClipboardItemModel>, n: int)
    requires
        0 <= n <= h.len(),
    ensures
        unique_contents(dedup_hist_upto(h, n)),
        forall|g: int|
            0 <= g < dedup_hist_upto(h, n).len() ==> {
                let i = #[trigger] hist_source(h, n, g);
                0 <= i < n && keep_hist(h, i) && dedup_hist_upto(h, n)[g] == h[i]
            },
    decreases n,
{
    if n > 0 {
        lemma_dedup_hist_props(h, n - 1);
        let prev = dedup_hist_upto(h, n - 1);
        let cur = dedup_hist_upto(h, n);
        if keep_hist(h, n - 1) {
            assert(cur =~= prev.push(h[n - 1]));
            assert forall|g: int| 0 <= g < prev.len() implies prev[g].content != h[n - 1].content
                by {
                let i = hist_source(h, n - 1, g);
                if h[i].content == h[n - 1].content {
                    assert(hist_yields(h, i, n - 1));
                    assert(hist_yields(h, n - 1, i));
                    assert(false);
                }
            }
            assert forall|g: int| 0 <= g < cur.len() implies {
                let i = #[trigger] hist_source(h, n, g);
                0 <= i < n && keep_hist(h, i) && cur[g] == h[i]
            } by {
                if g < prev.len() {
                    assert(hist_source(h, n, g) == hist_source(h, n - 1, g));
                    assert(cur[g] == prev[g]);
                } else {
                    assert(hist_source(h, n, g) == n - 1);
                    assert(cur[g] == h[n - 1]);
                }
            }
        } else {
            assert(cur =~= prev);
            assert forall|g: int| 0 <= g < cur.len() implies {
                let i = #[trigger] hist_source(h, n, g);
                0 <= i < n && keep_hist(h, i) && cur[g] == h[i]
            } by {
                assert(hist_source(h, n, g) == hist_source(h, n - 1, g));
                assert(cur[g] == prev[g]);
            }
        }
    }
}

/// The history after the collapse, or the history itself where it is
/// already free of duplicates.
pub open spec fn spec_collapse_history(h: Seq<ClipboardItemModel>) -> Seq<ClipboardItemModel> {
    if unique_contents(h) {
        h
    } else {
        dedup_hist(h)
    }
}

fn contents_unique(v: &Vec<ClipboardItem>) -> (r: bool)
    ensures
        r == unique_contents(deep_seq(v@)),
{
    let ghost s = deep_seq(v@);
    let mut i: usize = 0;
    while i < v.len()
        invariant
            s == deep_seq(v@),
            0 <= i <= v@.len(),
            forall|a: int, b: int| 0 <= a < b < i ==> s[a].content != s[b].content,
        decreases v@.len() - i,
    {
        let mut j: usize = 0;
        while j < i
            invariant
                s == deep_seq(v@),
                0 <= j <= i < v@.len(),
                forall|a: int| 0 <= a < j ==> s[a].content != s[i as int].content,
            decreases i - j,
        {
            proof {
                assert(s[j as int] == v@[j as int].deep_view());
                assert(s[i as int] == v@[i as int].deep_view());
            }
            if bytes_eq(&v[j].content, &v[i].content) {
                return false;
            }
            j = j + 1;
        }
        i = i + 1;
    }
    true
}

/// The bookmark duplicate-collapse rule: a later bookmark with the same
/// label and content displaces an earlier one.
pub open spec fn keep_bm(b: Seq<BookmarkItemModel>, i: int) -> bool {
    forall|k: int|
        i < k < b.len() ==> !((#[trigger] b[k]).name == b[i].name && b[k].content == b[i].content)
}

/// No two bookmarks share label and content.
pub open spec fn unique_bm_keys(b: Seq<BookmarkItemModel>) -> bool {
    forall|i: int, j: int|
        0 <= i < j < b.len() ==> !(b[i].name == b[j].name && b[i].content == b[j].content)
}

/// The survivors of the bookmark collapse among the first `n` bookmarks.
pub open spec fn dedup_bm_upto(b: Seq<BookmarkItemModel>, n: int) -> Seq<BookmarkItemModel>
    decreases n,
{
    if n <= 0 {
        Seq::empty()
    } else {
        dedup_bm_upto(b, n - 1) + if keep_bm(b, n - 1) {
            seq![b[n - 1]]
        } else {
            Seq::empty()
        }
    }
}

/// The bookmarks after the collapse: the most recently added of each
/// label and content pair, in position order.
pub open spec fn dedup_bm(b: Seq<BookmarkItemModel>) -> Seq<BookmarkItemModel> {
    dedup_bm_upto(b, b.len() as int)
}

/// The position, among the first `n` bookmarks, that survivor `g` of the
/// bookmark collapse came from.
pub open spec fn bm_source(b: Seq<BookmarkItemModel>, n: int, g: int) -> int
    decreases n,
{
    if n <= 0 {
        -1
    } else if g < dedup_bm_upto(b, n - 1).len() {
        bm_source(b, n - 1, g)
    } else {
        n - 1
    }
}

/// The bookmark collapse yields unique keys, and every survivor is one of
/// the original bookmarks, found by `bm_source`.
pub proof fn lemma_dedup_bm_props(b: Seq<BookmarkItemModel>, n: int)
    requires
        0 <= n <= b.len(),
    ensures
        unique_bm_keys(dedup_bm_upto(b, n)),
        forall|g: int|
            0 <= g < dedup_bm_upto(b, n).len() ==> {
                let i = #[trigger] bm_source(b, n, g);
                0 <= i < n && keep_bm(b, i) && dedup_bm_upto(b, n)[g] == b[i]
            },
    decreases n,
{
    if n > 0 {
        lemma_dedup_bm_props(b, n - 1);
        let prev = dedup_bm_upto(b, n - 1);
        let cur = dedup_bm_upto(b, n);
        if keep_bm(b, n - 1) {
            assert(cur =~= prev.push(b[n - 1]));
            assert forall|g: int| 0 <= g < prev.len() implies !(prev[g].name == b[n - 1].name
                && prev[g].content == b[n - 1].content) by {
                let i = bm_source(b, n - 1, g);
                assert(keep_bm(b, i));
                assert(prev[g] == b[i]);
            }
            assert forall|g: int| 0 <= g < cur.len() implies {
                let i = #[trigger] bm_source(b, n, g);
                0 <= i < n && keep_bm(b, i) && cur[g] == b[i]
            } by {
                if g < prev.len() {
                    assert(bm_source(b, n, g) == bm_source(b, n - 1, g));
                    assert(cur[g] == prev[g]);
                } else {
                    assert(bm_source(b, n, g) == n - 1);
                    assert(cur[g] == b[n - 1]);
                }
            }
        } else {
            assert(cur =~= prev);
            assert forall|g: int| 0 <= g < cur.len() implies {
                let i = #[trigger] bm_source(b, n, g);
                0 <= i < n && keep_bm(b, i) && cur[g] == b[i]
            } by {
                assert(bm_source(b, n, g) == bm_source(b, n - 1, g));
                assert(cur[g] == prev[g]);
            }
        }
    }
}

/// The bookmarks after the collapse, or the list itself where the keys
/// are already unique.
pub open spec fn spec_collapse_bookmarks(b: Seq<BookmarkItemModel>) -> Seq<BookmarkItemModel> {
    if unique_bm_keys(b) {
        b
    } else {
        dedup_bm(b)
    }
}

fn bm_keys_unique(v: &Vec<BookmarkItem>) -> (r: bool)
    ensures
        r == unique_bm_keys(deep_seq(v@)),
{
    let ghost s = deep_seq(v@);
    let mut i: usize = 0;
    while i < v.len()
        invariant
            s == deep_seq(v@),
            0 <= i <= v@.len(),
            forall|a: int, b: int|
                0 <= a < b < i ==> !(s[a].name == s[b].name && s[a].content == s[b].content),
        decreases v@.len() - i,
    {
        let mut j: usize = 0;
        while j < i
            invariant
                s == deep_seq(v@),
                0 <= j <= i < v@.len(),
                forall|a: int|
                    0 <= a < j ==> !(s[a].name == s[i as int].name && s[a].content == s[i as int].content),
            decreases i - j,
        {
            proof {
                assert(s[j as int] == v@[j as int].deep_view());
                assert(s[i as int] == v@[i as int].deep_view());
            }
            if bytes_eq(&v[j].name, &v[i].name) && bytes_eq(&v[j].content, &v[i].content) {
                return false;
            }
            j = j + 1;
        }
        i = i + 1;
    }
    true
}

impl AppData {
    /// Collapse same-content groups, keeping for each content the entry
    /// with the latest capture time (the earliest on ties); a history
    /// already free of duplicates is left untouched. The count removed is
    /// reported back.
    pub fn collapse_duplicate_history(&mut self) -> (removed: usize)
        ensures
            final(self).deep_view().history == spec_collapse_history(
                old(self).deep_view().history,
            ),
            unique_contents(final(self).deep_view().history),
            removed == old(self).deep_view().history.len() - final(self).deep_view().history.len(),
            same_but_history(final(self).deep_view(), old(self).deep_view()),
    {
        let ghost h0 = deep_seq(self.history@);
        if contents_unique(&self.history) {
            return 0;
        }
        let n = self.history.len();
        let mut kept: Vec<ClipboardItem> = Vec::new();
        let mut i: usize = 0;
        while i < n
            invariant
                h0 == deep_seq(self.history@),
                self.history == old(self).history,
                self.bookmarks == old(self).bookmarks,
                self.recent_ips == old(self).recent_ips,
                self.settings == old(self).settings,
                self.version == old(self).version,
                n == self.history@.len(),
                0 <= i <= n,
                deep_seq(kept@) == dedup_hist_upto(h0, i as int),
                kept@.len() <= i,
            decreases n - i,
        {
            proof {
                assert(h0[i as int] == self.history@[i as int].deep_view());
            }
            let mut ok = true;
            let mut j: usize = 0;
            while j < n
                invariant
                    h0 == deep_seq(self.history@),
                    n == self.history@.len(),
                    0 <= j <= n,
                    i < n,
                    ok == forall|k: int| 0 <= k < j ==> hist_yields(h0, i as int, k),
                decreases n - j,
            {
                proof {
                    assert(h0[j as int] == self.history@[j as int].deep_view());
                    assert(h0[i as int] == self.history@[i as int].deep_view());
                }
                let mut violates = false;
                if j != i && bytes_eq(&self.history[j].content, &self.history[i].content) {
                    if self.history[j].timestamp > self.history[i].timestamp || (
                    self.history[j].timestamp == self.history[i].timestamp && j < i) {
                        violates = true;
                    }
                }
                proof {
                    assert(violates == !hist_yields(h0, i as int, j as int));
                }
                if violates {
                    ok = false;
                }
                j = j + 1;
            }
            if ok {
                let ghost prevk = kept@;
                kept.push(self.history[i].clone());
                proof {
                    assert(keep_hist(h0, i as int));
                    assert(deep_seq(kept@) =~= dedup_hist_upto(h0, i + 1 as int));
                }
            } else {
                proof {
                    assert(!keep_hist(h0, i as int));
                    assert(deep_seq(kept@) =~= dedup_hist_upto(h0, i + 1 as int));
                }
            }
            i = i + 1;
        }
        proof {
            lemma_dedup_hist_props(h0, n as int);
        }
        let removed = self.history.len() - kept.len();
        self.history = kept;
        removed
    }

    /// Collapse bookmarks sharing label and content, keeping the most
    /// recently added of each pair; a list already free of duplicates is
    /// left untouched. The count removed is reported back.
    pub fn collapse_duplicate_bookmarks(&mut self) -> (removed: usize)
        ensures
            final(self).deep_view().bookmarks == spec_collapse_bookmarks(
                old(self).deep_view().bookmarks,
            ),
            unique_bm_keys(final(self).deep_view().bookmarks),
            removed == old(self).deep_view().bookmarks.len() - final(self).deep_view().bookmarks.len(),
            same_but_bookmarks(final(self).deep_view(), old(self).deep_view()),
    {
        let ghost b0 = deep_seq(self.bookmarks@);
        if bm_keys_unique(&self.bookmarks) {
            return 0;
        }
        let n = self.bookmarks.len();
        let mut kept: Vec<BookmarkItem> = Vec::new();
        let mut i: usize = 0;
        while i < n
            invariant
                b0 == deep_seq(self.bookmarks@),
                self.history == old(self).history,
                self.bookmarks == old(self).bookmarks,
                self.recent_ips == old(self).recent_ips,
                self.settings == old(self).settings,
                self.version == old(self).version,
                n == self.bookmarks@.len(),
                0 <= i <= n,
                deep_seq(kept@) == dedup_bm_upto(b0, i as int),
                kept@.len() <= i,
            decreases n - i,
        {
            proof {
                assert(b0[i as int] == self.bookmarks@[i as int].deep_view());
            }
            let mut ok = true;
            let mut j: usize = i + 1;
            while j < n
                invariant
                    b0 == deep_seq(self.bookmarks@),
                    n == self.bookmarks@.len(),
                    i < j <= n || (j == i + 1 && j >= n),
                    i < n,
                    ok == forall|k: int|
                        i < k < j ==> !((#[trigger] b0[k]).name == b0[i as int].name && b0[k].content
                            == b0[i as int].content),
                decreases n - j,
            {
                proof {
                    assert(b0[j as int] == self.bookmarks@[j as int].deep_view());
                    assert(b0[i as int] == self.bookmarks@[i as int].deep_view());
                }
                if bytes_eq(&self.bookmarks[j].name, &self.bookmarks[i].name) && bytes_eq(
                    &self.bookmarks[j].content,
                    &self.bookmarks[i].content,
                ) {
                    ok = false;
                }
                j = j + 1;
            }
            if ok {
                kept.push(self.bookmarks[i].clone());
                proof {
                    assert(keep_bm(b0, i as int));
                    assert(deep_seq(kept@) =~= dedup_bm_upto(b0, i + 1 as int));
                }
            } else {
                proof {
                    assert(!keep_bm(b0, i as int));
                    assert(deep_seq(kept@) =~= dedup_bm_upto(b0, i + 1 as int));
                }
            }
            i = i + 1;
        }
        proof {
            lemma_dedup_bm_props(b0, n as int);
        }
        let removed = self.bookmarks.len() - kept.len();
        self.bookmarks = kept;
        removed
    }
}

/// Indexing after an insertion.
pub proof fn lemma_insert_index<A>(s: Seq<A>, p: int, e: A, g: int)
    requires
        0 <= p <= s.len(),
        0 <= g <= s.len(),
    ensures
        s.insert(p, e).len() == s.len() + 1,
        s.insert(p, e)[g] == if g < p {
            s[g]
        } else if g == p {
            e
        } else {
            s[g - 1]
        },
{
}

/// Placing an entry into a sorted address list keeps it sorted.
pub proof fn lemma_sorted_place_sorted(s: Seq<IpHistoryItemModel>, e: IpHistoryItemModel)
    requires
        sorted_by_timestamp_desc(s),
    ensures
        sorted_by_timestamp_desc(sorted_place(s, e)),
{
    lemma_addr_insert_pos(s, e.timestamp);
    let p = addr_insert_pos(s, e.timestamp);
    let r = s.insert(p, e);
    assert forall|a: int, b: int| 0 <= a < b < r.len() implies r[a].timestamp
        >= r[b].timestamp by {
        lemma_insert_index(s, p, e, a);
        lemma_insert_index(s, p, e, b);
    }
}

impl AppData {
    /// Restore the address-log invariants where a stale file violated
    /// them: drop repeated ips (keeping the first record of each) and
    /// re-sort newest first. A log already unique and sorted is left
    /// untouched.
    pub fn repair_address_log(&mut self)
        ensures
            unique_ips(final(self).deep_view().recent_ips),
            sorted_by_timestamp_desc(final(self).deep_view().recent_ips),
            (unique_ips(old(self).deep_view().recent_ips) && sorted_by_timestamp_desc(
                old(self).deep_view().recent_ips,
            )) ==> final(self).deep_view().recent_ips == old(self).deep_view().recent_ips,
            forall|g: int|
                0 <= g < final(self).deep_view().recent_ips.len()
                    ==> old(self).deep_view().recent_ips.contains(
                    #[trigger] final(self).deep_view().recent_ips[g],
                ),
            same_but_recent_ips(final(self).deep_view(), old(self).deep_view()),
    {
        let ghost s0 = deep_seq(self.recent_ips@);
        let n = self.recent_ips.len();
        if ips_unique(&self.recent_ips) && ips_sorted(&self.recent_ips) {
            return ;
        }
        let mut out: Vec<IpHistoryItem> = Vec::new();
        let mut i2: usize = 0;
        while i2 < n
            invariant
                s0 == deep_seq(self.recent_ips@),
                self.history == old(self).history,
                self.bookmarks == old(self).bookmarks,
                self.recent_ips == old(self).recent_ips,
                self.settings == old(self).settings,
                self.version == old(self).version,
                n == self.recent_ips@.len(),
                0 <= i2 <= n,
                unique_ips(deep_seq(out@)),
                sorted_by_timestamp_desc(deep_seq(out@)),
                forall|g: int|
                    0 <= g < deep_seq(out@).len() ==> exists|m: int|
                        0 <= m < i2 && (forall|k: int| 0 <= k < m ==> s0[k].ip != s0[m].ip)
                            && #[trigger] deep_seq(out@)[g] == s0[m],
            decreases n - i2,
        {
            proof {
                assert(s0[i2 as int] == self.recent_ips@[i2 as int].deep_view());
            }
            let mut first = true;
            let mut j: usize = 0;
            while j < i2
                invariant
                    s0 == deep_seq(self.recent_ips@),
                    n == self.recent_ips@.len(),
                    0 <= j <= i2 < n,
                    first == forall|k: int| 0 <= k < j ==> s0[k].ip != s0[i2 as int].ip,
                decreases i2 - j,
            {
                proof {
                    assert(s0[j as int] == self.recent_ips@[j as int].deep_view());
                    assert(s0[i2 as int] == self.recent_ips@[i2 as int].deep_view());
                }
                if bytes_eq(&self.recent_ips[j].ip, &self.recent_ips[i2].ip) {
                    first = false;
                }
                j = j + 1;
            }
            if first {
                let ghost prevout = deep_seq(out@);
                let ghost e = s0[i2 as int];
                proof {
                    lemma_addr_insert_pos(prevout, e.timestamp);
                    lemma_sorted_place_sorted(prevout, e);
                    let p = addr_insert_pos(prevout, e.timestamp);
                    assert forall|a: int, b: int|
                        0 <= a < b < sorted_place(prevout, e).len() implies sorted_place(
                        prevout,
                        e,
                    )[a].ip != sorted_place(prevout, e)[b].ip by {
                        lemma_insert_index(prevout, p, e, a);
                        lemma_insert_index(prevout, p, e, b);
                        if a != p && b != p {
                            let ga = if a < p {
                                a
                            } else {
                                a - 1
                            };
                            let gb = if b < p {
                                b
                            } else {
                                b - 1
                            };
                            assert(sorted_place(prevout, e)[a] == prevout[ga]);
                            assert(sorted_place(prevout, e)[b] == prevout[gb]);
                        } else {
                            let other = if a == p {
                                b
                            } else {
                                a
                            };
                            let go = if other < p {
                                other
                            } else {
                                other - 1
                            };
                            assert(sorted_place(prevout, e)[other] == prevout[go]);
                            let m = choose|m: int|
                                0 <= m < i2 && (forall|k: int| 0 <= k < m ==> s0[k].ip != s0[m].ip)
                                    && #[trigger] prevout[go] == s0[m];
                            assert(s0[m].ip != s0[i2 as int].ip);
                        }
                    }
                }
                addr_sorted_insert(&mut out, self.recent_ips[i2].clone());
                proof {
                    let p = addr_insert_pos(prevout, e.timestamp);
                    assert forall|g: int| 0 <= g < deep_seq(out@).len() implies exists|m: int|
                        0 <= m < i2 + 1 && (forall|k: int| 0 <= k < m ==> s0[k].ip != s0[m].ip)
                            && #[trigger] deep_seq(out@)[g] == s0[m] by {
                        lemma_insert_index(prevout, p, e, g);
                        if g == p {
                            assert(deep_seq(out@)[g] == s0[i2 as int]);
                        } else {
                            let go = if g < p {
                                g
                            } else {
                                g - 1
                            };
                            assert(deep_seq(out@)[g] == prevout[go]);
                        }
                    }
                }
            }
            i2 = i2 + 1;
        }
        let ghost outv = out@;
        self.recent_ips = out;
        proof {
            assert forall|g: int| 0 <= g < deep_seq(outv).len() implies s0.contains(
                #[trigger] deep_seq(outv)[g],
            ) by {
                let m = choose|m: int|
                    0 <= m < n && (forall|k: int| 0 <= k < m ==> s0[k].ip != s0[m].ip)
                        && #[trigger] deep_seq(outv)[g] == s0[m];
                assert(s0[m] == deep_seq(outv)[g]);
            }
        }
    }
}

fn ips_unique(v: &Vec<IpHistoryItem>) -> (r: bool)
    ensures
        r == unique_ips(deep_seq(v@)),
{
    let ghost s = deep_seq(v@);
    let mut i: usize = 0;
    while i < v.len()
        invariant
            s == deep_seq(v@),
            0 <= i <= v@.len(),
            forall|a: int, b: int| 0 <= a < b < i ==> s[a].ip != s[b].ip,
        decreases v@.len() - i,
    {
        let mut j: usize = 0;
        while j < i
            invariant
                s == deep_seq(v@),
                0 <= j <= i < v@.len(),
                forall|a: int| 0 <= a < j ==> s[a].ip != s[i as int].ip,
            decreases i - j,
        {
            proof {
                assert(s[j as int] == v@[j as int].deep_view());
                assert(s[i as int] == v@[i as int].deep_view());
            }
            if bytes_eq(&v[j].ip, &v[i].ip) {
                return false;
            }
            j = j + 1;
        }
        i = i + 1;
    }
    true
}

fn ips_sorted(v: &Vec<IpHistoryItem>) -> (r: bool)
    ensures
        r == sorted_by_timestamp_desc(deep_seq(v@)),
{
    let ghost s = deep_seq(v@);
    let mut i: usize = 0;
    while i < v.len()
        invariant
            s == deep_seq(v@),
            0 <= i <= v@.len(),
            forall|a: int, b: int| 0 <= a < b < i ==> s[a].timestamp >= s[b].timestamp,
        decreases v@.len() - i,
    {
        let mut j: usize = 0;
        while j < i
            invariant
                s == deep_seq(v@),
                0 <= j <= i < v@.len(),
                forall|a: int| 0 <= a < j ==> s[a].timestamp >= s[i as int].timestamp,
            decreases i - j,
        {
            proof {
                assert(s[j as int] == v@[j as int].deep_view());
                assert(s[i as int] == v@[i as int].deep_view());
            }
            if v[j].timestamp < v[i].timestamp {
                return false;
            }
            j = j + 1;
        }
        i = i + 1;
    }
    true
}

impl AppData {
    /// Record an address handed in from the command boundary: the form is
    /// validated first, and a malformed address is refused.
    pub fn add_ip_to_recent(&mut self, ip: Vec<u8>, now: u64) -> (r: Result<(), StoreError>)
        requires
            old(self).settings.ip_limit >= 1,
        ensures
            if crate::scan::spec_is_valid_ip(ip@) {
                r == Ok::<(), StoreError>(()) && final(self).deep_view().recent_ips
                    == spec_insert_address(
                    old(self).deep_view().recent_ips,
                    old(self).settings.ip_limit as int,
                    ip@,
                    now,
                ) && same_but_recent_ips(final(self).deep_view(), old(self).deep_view())
            } else {
                r == Err::<(), StoreError>(StoreError::InvalidInput) && final(self).deep_view()
                    == old(self).deep_view()
            },
    {
        if !crate::scan::is_valid_ip(&ip) {
            return Err(StoreError::InvalidInput);
        }
        self.add_ip_to_history(ip, now);
        Ok(())
    }
}

/// Address records whose ip contains the query, byte-exact.
pub open spec fn ip_search_pred(q: Seq<u8>) -> spec_fn(IpHistoryItemModel) -> bool {
    |e: IpHistoryItemModel| spec_contains_bytes(e.ip, q)
}

/// What an address search returns: everything for a blank query,
/// otherwise the records whose ip contains the query; the stored order
/// is kept.
pub open spec fn spec_search_ips(
    s: Seq<IpHistoryItemModel>,
    q: Seq<u8>,
) -> Seq<IpHistoryItemModel> {
    if spec_is_blank(q) {
        s
    } else {
        s.filter(ip_search_pred(q))
    }
}

fn clone_history(v: &Vec<ClipboardItem>) -> (r: Vec<ClipboardItem>)
    ensures
        r.deep_view() == v.deep_view(),
{
    let ghost d = deep_seq(v@);
    let mut r: Vec<ClipboardItem> = Vec::new();
    let mut i: usize = 0;
    while i < v.len()
        invariant
            d == deep_seq(v@),
            0 <= i <= v@.len(),
            deep_seq(r@) == d.subrange(0, i as int),
        decreases v@.len() - i,
    {
        let ghost prev = r@;
        r.push(v[i].clone());
        proof {
            assert(d[i as int] == v@[i as int].deep_view());
            assert(deep_seq(r@) =~= d.subrange(0, i + 1 as int));
        }
        i = i + 1;
    }
    proof {
        assert(d.subrange(0, d.len() as int) =~= d);
    }
    r
}

fn clone_bookmarks(v: &Vec<BookmarkItem>) -> (r: Vec<BookmarkItem>)
    ensures
        r.deep_view() == v.deep_view(),
{
    let ghost d = deep_seq(v@);
    let mut r: Vec<BookmarkItem> = Vec::new();
    let mut i: usize = 0;
    while i < v.len()
        invariant
            d == deep_seq(v@),
            0 <= i <= v@.len(),
            deep_seq(r@) == d.subrange(0, i as int),
        decreases v@.len() - i,
    {
        r.push(v[i].clone());
        proof {
            assert(d[i as int] == v@[i as int].deep_view());
            assert(deep_seq(r@) =~= d.subrange(0, i + 1 as int));
        }
        i = i + 1;
    }
    proof {
        assert(d.subrange(0, d.len() as int) =~= d);
    }
    r
}

fn clone_ips(v: &Vec<IpHistoryItem>) -> (r: Vec<IpHistoryItem>)
    ensures
        r.deep_view() == v.deep_view(),
{
    let ghost d = deep_seq(v@);
    let mut r: Vec<IpHistoryItem> = Vec::new();
    let mut i: usize = 0;
    while i < v.len()
        invariant
            d == deep_seq(v@),
            0 <= i <= v@.len(),
            deep_seq(r@) == d.subrange(0, i as int),
        decreases v@.len() - i,
    {
        r.push(v[i].clone());
        proof {
            assert(d[i as int] == v@[i as int].deep_view());
            assert(deep_seq(r@) =~= d.subrange(0, i + 1 as int));
        }
        i = i + 1;
    }
    proof {
        assert(d.subrange(0, d.len() as int) =~= d);
    }
    r
}

impl AppData {
    /// A copy of the history, oldest first.
    pub fn get_clipboard_history(&self) -> (r: Vec<ClipboardItem>)
        ensures
            r.deep_view() == self.deep_view().history,
    {
        clone_history(&self.history)
    }

    /// A copy of the bookmarks, in insertion order.
    pub fn get_bookmarks(&self) -> (r: Vec<BookmarkItem>)
        ensures
            r.deep_view() == self.deep_view().bookmarks,
    {
        clone_bookmarks(&self.bookmarks)
    }

    /// A copy of the address log, newest sighting first.
    pub fn get_recent_ips(&self) -> (r: Vec<IpHistoryItem>)
        ensures
            r.deep_view() == self.deep_view().recent_ips,
    {
        clone_ips(&self.recent_ips)
    }

    /// A copy of the whole aggregate.
    pub fn get_app_data(&self) -> (r: AppData)
        ensures
            r.deep_view() == self.deep_view(),
    {
        AppData {
            version: clone_bytes(&self.version),
            history: clone_history(&self.history),
            bookmarks: clone_bookmarks(&self.bookmarks),
            recent_ips: clone_ips(&self.recent_ips),
            settings: self.settings.clone(),
        }
    }

    /// Search the address log: every record for a blank query, otherwise
    /// those whose ip contains the query byte-exactly, in stored order.
    pub fn search_ip_history(&self, query: &Vec<u8>) -> (r: Vec<IpHistoryItem>)
        ensures
            r.deep_view() == spec_search_ips(self.deep_view().recent_ips, query@),
    {
        let ghost s0 = deep_seq(self.recent_ips@);
        if is_blank(query) {
            return clone_ips(&self.recent_ips);
        }
        let mut out: Vec<IpHistoryItem> = Vec::new();
        let mut i: usize = 0;
        proof {
            assert(s0.subrange(0, 0) =~= Seq::<IpHistoryItemModel>::empty());
            lemma_filter_empty(s0.subrange(0, 0), ip_search_pred(query@));
            assert(deep_seq(out@) =~= Seq::<IpHistoryItemModel>::empty());
        }
        while i < self.recent_ips.len()
            invariant
                s0 == deep_seq(self.recent_ips@),
                0 <= i <= self.recent_ips@.len(),
                deep_seq(out@) == s0.subrange(0, i as int).filter(ip_search_pred(query@)),
            decreases self.recent_ips@.len() - i,
        {
            let ghost e = s0[i as int];
            proof {
                assert(s0[i as int] == self.recent_ips@[i as int].deep_view());
                assert(s0.subrange(0, i + 1 as int) =~= s0.subrange(0, i as int).push(e));
                lemma_filter_push(s0.subrange(0, i as int), ip_search_pred(query@), e);
            }
            if crate::bytes::contains_bytes(&self.recent_ips[i].ip, query) {
                let ghost prevo = out@;
                out.push(self.recent_ips[i].clone());
                proof {
                    assert(deep_seq(out@) =~= deep_seq(prevo).push(e));
                }
            }
            i = i + 1;
        }
        proof {
            assert(s0.subrange(0, s0.len() as int) =~= s0);
        }
        out
    }
}

/// The capture instant below which entries count as old, given a cutoff
/// age in days: the current instant minus the age, clamped at the epoch.
pub fn cutoff_from_days(now: u64, days: u64) -> (r: u64)
    ensures
        r == if days * 86400000 <= now {
            now - days * 86400000
        } else {
            0
        },
{
    match days.checked_mul(86400000) {
        Some(ms) => now.saturating_sub(ms),
        None => {
            proof {
                assert(days * 86400000 > u64::MAX);
            }
            0
        },
    }
}

/// A bookmark as `add_bookmark` creates it.
pub open spec fn fresh_bookmark(
    idv: Seq<u8>,
    name: Seq<u8>,
    content: Seq<u8>,
    content_type: Seq<u8>,
    tags: Seq<Seq<u8>>,
    ts: u64,
) -> BookmarkItemModel {
    BookmarkItemModel {
        id: idv,
        name: name,
        content: content,
        content_type: content_type,
        timestamp: ts,
        tags: tags,
        access_count: 0,
        last_accessed: None,
    }
}

} // verus!
