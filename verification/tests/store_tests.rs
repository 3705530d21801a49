use clipvault::model::AppData;
use clipvault::model::AppSettings;
use clipvault::model::ClipboardItem;
use clipvault::store::StoreError;

fn b(s: &str) -> Vec<u8> {
    s.as_bytes().to_vec()
}

fn item(id: &str, content: &str, ts: u64) -> ClipboardItem {
    ClipboardItem::new(b(id), b(content), b("text"), ts)
}

fn small_store(limit: usize) -> AppData {
    let mut d = AppData::default();
    let mut s = d.get_settings();
    s.history_limit = limit;
    d.update_settings(s).unwrap();
    d
}

#[test]
fn history_stays_within_limit_under_many_inserts() {
    let mut d = small_store(3);
    for k in 0..10u64 {
        d.insert_history(item(&format!("id{}", k), &format!("content {}", k), k));
        assert!(d.history.len() <= 3);
    }
    // the three newest survive, oldest first
    assert_eq!(d.history.len(), 3);
    assert_eq!(d.history[0].content, b("content 7"));
    assert_eq!(d.history[1].content, b("content 8"));
    assert_eq!(d.history[2].content, b("content 9"));
}

#[test]
fn duplicate_content_is_purged_before_append() {
    let mut d = small_store(10);
    d.insert_history(item("a", "same", 1));
    d.insert_history(item("b", "other", 2));
    d.insert_history(item("c", "same", 3));
    assert_eq!(d.history.len(), 2);
    assert_eq!(d.history[0].content, b("other"));
    assert_eq!(d.history[1].content, b("same"));
    assert_eq!(d.history[1].id, b("c"));
}

#[test]
fn shrinking_the_limit_evicts_on_the_next_insert() {
    let mut d = small_store(10);
    for k in 0..8u64 {
        d.insert_history(item(&format!("id{}", k), &format!("c{}", k), k));
    }
    assert_eq!(d.history.len(), 8);
    let mut s = d.get_settings();
    s.history_limit = 3;
    d.update_settings(s).unwrap();
    d.insert_history(item("new", "fresh", 100));
    assert_eq!(d.history.len(), 3);
    // evicted oldest first: the survivors are the two newest old entries
    assert_eq!(d.history[0].content, b("c6"));
    assert_eq!(d.history[1].content, b("c7"));
    assert_eq!(d.history[2].content, b("fresh"));
}

#[test]
fn delete_removes_exactly_the_named_entry() {
    let mut d = small_store(10);
    d.insert_history(item("a", "one", 1));
    d.insert_history(item("b", "two", 2));
    assert_eq!(d.delete_clipboard_item(&b("a")), Ok(()));
    assert_eq!(d.history.len(), 1);
    assert_eq!(d.history[0].id, b("b"));
    assert_eq!(d.delete_clipboard_item(&b("a")), Err(StoreError::NotFound));
}

#[test]
fn clear_reports_the_count() {
    let mut d = small_store(10);
    d.insert_history(item("a", "one", 1));
    d.insert_history(item("b", "two", 2));
    assert_eq!(d.clear_clipboard_history(), 2);
    assert!(d.history.is_empty());
}

#[test]
fn search_is_case_insensitive_and_newest_first() {
    let mut d = small_store(10);
    d.insert_history(item("a", "Hello World", 5));
    d.insert_history(item("b", "nothing here", 7));
    d.insert_history(item("c", "say HELLO again", 9));
    let found = d.search_clipboard_history(&b("hello"));
    assert_eq!(found.len(), 2);
    assert_eq!(found[0].id, b("c"));
    assert_eq!(found[1].id, b("a"));
}

#[test]
fn blank_search_returns_everything_in_stored_order() {
    let mut d = small_store(10);
    d.insert_history(item("a", "one", 1));
    d.insert_history(item("b", "two", 2));
    let found = d.search_clipboard_history(&b("  \t"));
    assert_eq!(found.len(), 2);
    assert_eq!(found[0].id, b("a"));
    assert_eq!(found[1].id, b("b"));
}

#[test]
fn cleanup_memory_drops_large_entries() {
    let mut d = small_store(10);
    d.insert_history(item("a", "tiny", 1));
    d.insert_history(item("b", "a much much longer content body", 2));
    let removed = d.cleanup_memory(10);
    assert_eq!(removed, 1);
    assert_eq!(d.history.len(), 1);
    assert_eq!(d.history[0].id, b("a"));
}

#[test]
fn cleanup_old_items_drops_entries_at_or_before_the_cutoff() {
    let mut d = small_store(10);
    d.insert_history(item("a", "old", 100));
    d.insert_history(item("b", "edge", 200));
    d.insert_history(item("c", "new", 300));
    let removed = d.cleanup_old_items(200);
    assert_eq!(removed, 2);
    assert_eq!(d.history.len(), 1);
    assert_eq!(d.history[0].id, b("c"));
}

#[test]
fn cutoff_from_days_saturates_at_the_epoch() {
    assert_eq!(clipvault::store::cutoff_from_days(1_000_000_000, 1), 913_600_000);
    assert_eq!(clipvault::store::cutoff_from_days(1000, 1), 0);
    assert_eq!(clipvault::store::cutoff_from_days(1000, u64::MAX), 0);
}

#[test]
fn stats_report_counts_sizes_and_recency() {
    let mut d = small_store(10);
    let st = d.get_clipboard_stats();
    assert_eq!(st.total_items, 0);
    assert_eq!(st.total_size, 0);
    assert_eq!(st.average_size, 0);
    assert_eq!(st.most_recent, None);
    d.insert_history(item("a", "abcd", 11));
    d.insert_history(item("b", "xy", 22));
    let st = d.get_clipboard_stats();
    assert_eq!(st.total_items, 2);
    assert_eq!(st.total_size, 6);
    assert_eq!(st.average_size, 3);
    assert_eq!(st.most_recent, Some(22));
}

#[test]
fn duplicate_groups_report_counts_and_ids() {
    let mut d = small_store(10);
    // build duplicates directly, as a stale file might hold them
    d.history.push(item("a", "dup", 1));
    d.history.push(item("b", "solo", 2));
    d.history.push(item("c", "dup", 3));
    d.history.push(item("e", "dup", 4));
    let groups = d.find_duplicate_clipboard_items();
    assert_eq!(groups.len(), 1);
    assert_eq!(groups[0].content, b("dup"));
    assert_eq!(groups[0].count, 3);
    assert_eq!(groups[0].ids, vec![b("a"), b("c"), b("e")]);
}

#[test]
fn collapse_keeps_the_latest_of_each_content() {
    let mut d = small_store(10);
    d.history.push(item("a", "dup", 5));
    d.history.push(item("b", "solo", 2));
    d.history.push(item("c", "dup", 9));
    let removed = d.collapse_duplicate_history();
    assert_eq!(removed, 1);
    assert_eq!(d.history.len(), 2);
    assert_eq!(d.history[0].id, b("b"));
    assert_eq!(d.history[1].id, b("c"));
}

#[test]
fn collapse_on_tied_timestamps_keeps_the_earliest_position() {
    let mut d = small_store(10);
    d.history.push(item("a", "dup", 7));
    d.history.push(item("b", "dup", 7));
    let removed = d.collapse_duplicate_history();
    assert_eq!(removed, 1);
    assert_eq!(d.history.len(), 1);
    assert_eq!(d.history[0].id, b("a"));
}

#[test]
fn access_update_bumps_count_and_instant() {
    let mut d = small_store(10);
    d.insert_history(item("a", "one", 1));
    assert_eq!(d.update_item_access(&b("a"), false, 77), Ok(()));
    assert_eq!(d.history[0].access_count, 1);
    assert_eq!(d.history[0].last_accessed, Some(77));
    assert_eq!(d.update_item_access(&b("zz"), false, 78), Err(StoreError::NotFound));
}

#[test]
fn settings_with_a_zero_limit_are_refused() {
    let mut d = AppData::default();
    let mut s = d.get_settings();
    s.history_limit = 0;
    assert_eq!(d.update_settings(s), Err(StoreError::InvalidInput));
    assert_eq!(d.settings.history_limit, 50);
    let mut s2 = d.get_settings();
    s2.ip_limit = 0;
    assert_eq!(d.update_settings(s2), Err(StoreError::InvalidInput));
}

#[test]
fn defaults_match_the_documented_values() {
    let d = AppData::default();
    assert_eq!(d.version, b("1.0.0"));
    assert_eq!(d.settings.hotkey, b("cmd+shift+v"));
    assert_eq!(d.settings.history_limit, 50);
    assert_eq!(d.settings.ip_limit, 10);
    assert!(d.settings.auto_start);
    assert!(!d.settings.show_notifications);
    assert!(d.history.is_empty());
    assert!(d.bookmarks.is_empty());
    assert!(d.recent_ips.is_empty());
    let _ = AppSettings::default();
}

#[test]
fn add_item_records_content_and_size() {
    let mut d = small_store(10);
    d.add_item(b("pasted text"), b("text"));
    assert_eq!(d.history.len(), 1);
    assert_eq!(d.history[0].content, b("pasted text"));
    assert_eq!(d.history[0].content_type, b("text"));
    assert_eq!(d.history[0].size, 11);
    assert_eq!(d.history[0].access_count, 0);
    assert_eq!(d.history[0].id.len(), 36);
}
