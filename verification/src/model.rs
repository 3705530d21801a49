//! The data model: captured entries, bookmarks, address records, settings
//! and the aggregate state, together with their mathematical views and the
//! well-formedness predicate that every store operation preserves.
//!
//! Text is carried as UTF-8 bytes (`Vec<u8>`), timestamps as milliseconds
//! since the Unix epoch.

use vstd::prelude::*;
use crate::bytes::clone_bytes;
use crate::bytes::clone_byte_list;

verus! {

/// The deep view of a vector has one entry per element.
pub broadcast proof fn lemma_deep_view_len<T: DeepView>(v: Vec<T>)
    ensures
        #[trigger] v.deep_view().len() == v@.len(),
{
}

/// Indexing the deep view of a vector lands on the element's deep view.
pub broadcast proof fn lemma_deep_view_index<T: DeepView>(v: Vec<T>, k: int)
    requires
        0 <= k < v@.len(),
    ensures
        #[trigger] v.deep_view()[k] == v@[k].deep_view(),
{
}

/// The element-wise deep view of a sequence.
pub open spec fn deep_seq<T: DeepView>(s: Seq<T>) -> Seq<T::V> {
    s.map_values(|t: T| t.deep_view())
}

/// The deep view of a vector is the deep view of its element sequence.
pub broadcast proof fn lemma_deep_seq_vec<T: DeepView>(v: Vec<T>)
    ensures
        #[trigger] v.deep_view() == deep_seq(v@),
{
    assert(v.deep_view() =~= deep_seq(v@));
}

/// Deep views commute with `push`.
pub broadcast proof fn lemma_deep_seq_push<T: DeepView>(s: Seq<T>, e: T)
    ensures
        #[trigger] deep_seq(s.push(e)) == deep_seq(s).push(e.deep_view()),
{
    assert(deep_seq(s.push(e)) =~= deep_seq(s).push(e.deep_view()));
}

/// Deep views commute with `remove`.
pub broadcast proof fn lemma_deep_seq_remove<T: DeepView>(s: Seq<T>, i: int)
    requires
        0 <= i < s.len(),
    ensures
        #[trigger] deep_seq(s.remove(i)) == deep_seq(s).remove(i),
{
    assert(deep_seq(s.remove(i)) =~= deep_seq(s).remove(i));
}

/// Deep views commute with `insert`.
pub broadcast proof fn lemma_deep_seq_insert<T: DeepView>(s: Seq<T>, i: int, e: T)
    requires
        0 <= i <= s.len(),
    ensures
        #[trigger] deep_seq(s.insert(i, e)) == deep_seq(s).insert(i, e.deep_view()),
{
    assert(deep_seq(s.insert(i, e)) =~= deep_seq(s).insert(i, e.deep_view()));
}

/// Deep views commute with `update`.
pub broadcast proof fn lemma_deep_seq_update<T: DeepView>(s: Seq<T>, i: int, e: T)
    requires
        0 <= i < s.len(),
    ensures
        #[trigger] deep_seq(s.update(i, e)) == deep_seq(s).update(i, e.deep_view()),
{
    assert(deep_seq(s.update(i, e)) =~= deep_seq(s).update(i, e.deep_view()));
}

/// Deep views commute with `subrange`.
pub broadcast proof fn lemma_deep_seq_subrange<T: DeepView>(s: Seq<T>, a: int, b: int)
    requires
        0 <= a <= b <= s.len(),
    ensures
        #[trigger] deep_seq(s.subrange(a, b)) == deep_seq(s).subrange(a, b),
{
    assert(deep_seq(s.subrange(a, b)) =~= deep_seq(s).subrange(a, b));
}

/// A group with every deep-view commutation lemma.
pub broadcast group group_deep_seq {
    lemma_deep_view_len,
    lemma_deep_view_index,
    lemma_deep_seq_vec,
    lemma_deep_seq_push,
    lemma_deep_seq_remove,
    lemma_deep_seq_insert,
    lemma_deep_seq_update,
    lemma_deep_seq_subrange,
}

/// Mathematical view of a [`ClipboardItem`].
pub struct ClipboardItemModel {
    pub id: Seq<u8>,
    pub content: Seq<u8>,
    pub content_type: Seq<u8>,
    pub timestamp: u64,
    pub size: u64,
    pub access_count: u32,
    pub last_accessed: Option<u64>,
}

/// One captured clipboard entry. Identity is `id`; equality for
/// deduplication purposes is exact byte equality of `content`.
pub struct ClipboardItem {
    pub id: Vec<u8>,
    pub content: Vec<u8>,
    pub content_type: Vec<u8>,
    pub timestamp: u64,
    pub size: u64,
    pub access_count: u32,
    pub last_accessed: Option<u64>,
}

impl DeepView for ClipboardItem {
    type V = ClipboardItemModel;

    open spec fn deep_view(&self) -> ClipboardItemModel {
        ClipboardItemModel {
            id: self.id@,
            content: self.content@,
            content_type: self.content_type@,
            timestamp: self.timestamp,
            size: self.size,
            access_count: self.access_count,
            last_accessed: self.last_accessed,
        }
    }
}

impl Clone for ClipboardItem {
    fn clone(&self) -> (r: Self)
        ensures
            r.deep_view() == self.deep_view(),
    {
        ClipboardItem {
            id: clone_bytes(&self.id),
            content: clone_bytes(&self.content),
            content_type: clone_bytes(&self.content_type),
            timestamp: self.timestamp,
            size: self.size,
            access_count: self.access_count,
            last_accessed: self.last_accessed,
        }
    }
}

impl ClipboardItem {
    /// A fresh entry: zero accesses, size equal to the content length.
    pub fn new(id: Vec<u8>, content: Vec<u8>, content_type: Vec<u8>, now: u64) -> (r: Self)
        ensures
            r.deep_view() == (ClipboardItemModel {
                id: id@,
                content: content@,
                content_type: content_type@,
                timestamp: now,
                size: content@.len() as u64,
                access_count: 0,
                last_accessed: None,
            }),
    {
        let size = content.len() as u64;
        ClipboardItem {
            id,
            content,
            content_type,
            timestamp: now,
            size,
            access_count: 0,
            last_accessed: None,
        }
    }
}

/// Mathematical view of a [`BookmarkItem`].
pub struct BookmarkItemModel {
    pub id: Seq<u8>,
    pub name: Seq<u8>,
    pub content: Seq<u8>,
    pub content_type: Seq<u8>,
    pub timestamp: u64,
    pub tags: Seq<Seq<u8>>,
    pub access_count: u32,
    pub last_accessed: Option<u64>,
}

/// A user-pinned entry; never evicted by capture pressure.
pub struct BookmarkItem {
    pub id: Vec<u8>,
    pub name: Vec<u8>,
    pub content: Vec<u8>,
    pub content_type: Vec<u8>,
    pub timestamp: u64,
    pub tags: Vec<Vec<u8>>,
    pub access_count: u32,
    pub last_accessed: Option<u64>,
}

impl DeepView for BookmarkItem {
    type V = BookmarkItemModel;

    open spec fn deep_view(&self) -> BookmarkItemModel {
        BookmarkItemModel {
            id: self.id@,
            name: self.name@,
            content: self.content@,
            content_type: self.content_type@,
            timestamp: self.timestamp,
            tags: self.tags.deep_view(),
            access_count: self.access_count,
            last_accessed: self.last_accessed,
        }
    }
}

impl Clone for BookmarkItem {
    fn clone(&self) -> (r: Self)
        ensures
            r.deep_view() == self.deep_view(),
    {
        BookmarkItem {
            id: clone_bytes(&self.id),
            name: clone_bytes(&self.name),
            content: clone_bytes(&self.content),
            content_type: clone_bytes(&self.content_type),
            timestamp: self.timestamp,
            tags: clone_byte_list(&self.tags),
            access_count: self.access_count,
            last_accessed: self.last_accessed,
        }
    }
}

impl BookmarkItem {
    /// A fresh bookmark: zero accesses.
    pub fn new(id: Vec<u8>, name: Vec<u8>, content: Vec<u8>, content_type: Vec<u8>, tags: Vec<
        Vec<u8>,
    >, now: u64) -> (r: Self)
        ensures
            r.deep_view() == (BookmarkItemModel {
                id: id@,
                name: name@,
                content: content@,
                content_type: content_type@,
                timestamp: now,
                tags: tags.deep_view(),
                access_count: 0,
                last_accessed: None,
            }),
    {
        BookmarkItem {
            id,
            name,
            content,
            content_type,
            timestamp: now,
            tags,
            access_count: 0,
            last_accessed: None,
        }
    }
}

/// Mathematical view of an [`IpHistoryItem`].
pub struct IpHistoryItemModel {
    pub ip: Seq<u8>,
    pub timestamp: u64,
    pub count: u32,
}

/// One detected address: unique by `ip`, `timestamp` is the last sighting.
pub struct IpHistoryItem {
    pub ip: Vec<u8>,
    pub timestamp: u64,
    pub count: u32,
}

impl DeepView for IpHistoryItem {
    type V = IpHistoryItemModel;

    open spec fn deep_view(&self) -> IpHistoryItemModel {
        IpHistoryItemModel { ip: self.ip@, timestamp: self.timestamp, count: self.count }
    }
}

impl Clone for IpHistoryItem {
    fn clone(&self) -> (r: Self)
        ensures
            r.deep_view() == self.deep_view(),
    {
        IpHistoryItem { ip: clone_bytes(&self.ip), timestamp: self.timestamp, count: self.count }
    }
}

/// Mathematical view of [`AppSettings`].
pub struct AppSettingsModel {
    pub hotkey: Seq<u8>,
    pub history_limit: usize,
    pub ip_limit: usize,
    pub auto_start: bool,
    pub show_notifications: bool,
}

/// Tunable settings; the two limits bound the history and the address log.
pub struct AppSettings {
    pub hotkey: Vec<u8>,
    pub history_limit: usize,
    pub ip_limit: usize,
    pub auto_start: bool,
    pub show_notifications: bool,
}

impl DeepView for AppSettings {
    type V = AppSettingsModel;

    open spec fn deep_view(&self) -> AppSettingsModel {
        AppSettingsModel {
            hotkey: self.hotkey@,
            history_limit: self.history_limit,
            ip_limit: self.ip_limit,
            auto_start: self.auto_start,
            show_notifications: self.show_notifications,
        }
    }
}

impl Clone for AppSettings {
    fn clone(&self) -> (r: Self)
        ensures
            r.deep_view() == self.deep_view(),
    {
        AppSettings {
            hotkey: clone_bytes(&self.hotkey),
            history_limit: self.history_limit,
            ip_limit: self.ip_limit,
            auto_start: self.auto_start,
            show_notifications: self.show_notifications,
        }
    }
}

/// Mathematical view of [`AppData`].
pub struct AppDataModel {
    pub version: Seq<u8>,
    pub history: Seq<ClipboardItemModel>,
    pub bookmarks: Seq<BookmarkItemModel>,
    pub recent_ips: Seq<IpHistoryItemModel>,
    pub settings: AppSettingsModel,
}

/// The aggregate root: exactly one instance exists per process, owned by
/// the engine and handed to collaborators only through synchronized access.
pub struct AppData {
    pub version: Vec<u8>,
    pub history: Vec<ClipboardItem>,
    pub bookmarks: Vec<BookmarkItem>,
    pub recent_ips: Vec<IpHistoryItem>,
    pub settings: AppSettings,
}

impl DeepView for AppData {
    type V = AppDataModel;

    open spec fn deep_view(&self) -> AppDataModel {
        AppDataModel {
            version: self.version@,
            history: self.history.deep_view(),
            bookmarks: self.bookmarks.deep_view(),
            recent_ips: self.recent_ips.deep_view(),
            settings: self.settings.deep_view(),
        }
    }
}

/// No two history entries share identical content.
pub open spec fn unique_contents(h: Seq<ClipboardItemModel>) -> bool {
    forall|i: int, j: int| 0 <= i < j < h.len() ==> h[i].content != h[j].content
}

/// No two address records share an ip.
pub open spec fn unique_ips(s: Seq<IpHistoryItemModel>) -> bool {
    forall|i: int, j: int| 0 <= i < j < s.len() ==> s[i].ip != s[j].ip
}

/// Address records are ordered by last sighting, newest first.
pub open spec fn sorted_by_timestamp_desc(s: Seq<IpHistoryItemModel>) -> bool {
    forall|i: int, j: int| 0 <= i < j < s.len() ==> s[i].timestamp >= s[j].timestamp
}

/// Both capacity bounds are positive, as the settings schema demands.
pub open spec fn wf_settings(s: AppSettingsModel) -> bool {
    s.history_limit >= 1 && s.ip_limit >= 1
}

/// The aggregate invariant: positive capacities, history deduplicated,
/// address log unique and sorted. The capacity bounds themselves are
/// stated on the inserting operations, which re-establish them even after
/// a settings change shrank a limit below the current length.
pub open spec fn wf_app_data(d: AppDataModel) -> bool {
    &&& wf_settings(d.settings)
    &&& unique_contents(d.history)
    &&& unique_ips(d.recent_ips)
    &&& sorted_by_timestamp_desc(d.recent_ips)
}

/// The default hotkey specification, as bytes.
pub open spec fn spec_default_hotkey() -> Seq<u8> {
    // "cmd+shift+v"
    seq![99u8, 109u8, 100u8, 43u8, 115u8, 104u8, 105u8, 102u8, 116u8, 43u8, 118u8]
}

/// The version tag written into fresh aggregates.
pub open spec fn spec_default_version() -> Seq<u8> {
    // "1.0.0"
    seq![49u8, 46u8, 48u8, 46u8, 48u8]
}

/// Default settings: a history of 50, an address log of 10.
pub open spec fn spec_default_settings() -> AppSettingsModel {
    AppSettingsModel {
        hotkey: spec_default_hotkey(),
        history_limit: 50,
        ip_limit: 10,
        auto_start: true,
        show_notifications: false,
    }
}

/// Default aggregate: empty collections under default settings.
pub open spec fn spec_default_app_data() -> AppDataModel {
    AppDataModel {
        version: spec_default_version(),
        history: Seq::empty(),
        bookmarks: Seq::empty(),
        recent_ips: Seq::empty(),
        settings: spec_default_settings(),
    }
}

fn default_hotkey() -> (r: Vec<u8>)
    ensures
        r@ == spec_default_hotkey(),
{
    let mut v: Vec<u8> = Vec::new();
    v.push(99);
    v.push(109);
    v.push(100);
    v.push(43);
    v.push(115);
    v.push(104);
    v.push(105);
    v.push(102);
    v.push(116);
    v.push(43);
    v.push(118);
    proof {
        assert(v@ =~= spec_default_hotkey());
    }
    v
}

fn default_version() -> (r: Vec<u8>)
    ensures
        r@ == spec_default_version(),
{
    let mut v: Vec<u8> = Vec::new();
    v.push(49);
    v.push(46);
    v.push(48);
    v.push(46);
    v.push(48);
    proof {
        assert(v@ =~= spec_default_version());
    }
    v
}

impl Default for AppSettings {
    fn default() -> (s: Self)
        ensures
            s.deep_view() == spec_default_settings(),
    {
        AppSettings {
            hotkey: default_hotkey(),
            history_limit: 50,
            ip_limit: 10,
            auto_start: true,
            show_notifications: false,
        }
    }
}

impl Default for AppData {
    fn default() -> (d: Self)
        ensures
            d.deep_view() == spec_default_app_data(),
            wf_app_data(d.deep_view()),
    {
        let d = AppData {
            version: default_version(),
            history: Vec::new(),
            bookmarks: Vec::new(),
            recent_ips: Vec::new(),
            settings: AppSettings::default(),
        };
        proof {
            assert(d.deep_view().history =~= spec_default_app_data().history);
            assert(d.deep_view().bookmarks =~= spec_default_app_data().bookmarks);
            assert(d.deep_view().recent_ips =~= spec_default_app_data().recent_ips);
        }
        d
    }
}

} // verus!
