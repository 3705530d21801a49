use clipvault::model::AppData;
use clipvault::model::BookmarkItem;
use clipvault::store::StoreError;

fn b(s: &str) -> Vec<u8> {
    s.as_bytes().to_vec()
}

fn bm(id: &str, name: &str, content: &str, ts: u64, tags: &[&str]) -> BookmarkItem {
    BookmarkItem::new(
        b(id),
        b(name),
        b(content),
        b("text"),
        tags.iter().map(|t| b(t)).collect(),
        ts,
    )
}

#[test]
fn bookmarks_append_in_order() {
    let mut d = AppData::default();
    d.insert_bookmark(bm("a", "first", "alpha", 1, &[]));
    d.insert_bookmark(bm("c", "second", "beta", 2, &["work"]));
    assert_eq!(d.bookmarks.len(), 2);
    assert_eq!(d.bookmarks[0].name, b("first"));
    assert_eq!(d.bookmarks[1].tags, vec![b("work")]);
}

#[test]
fn add_bookmark_assigns_a_fresh_identifier() {
    let mut d = AppData::default();
    d.add_bookmark(b("note"), b("body"), b("text"), vec![b("tag1")]);
    assert_eq!(d.bookmarks.len(), 1);
    assert_eq!(d.bookmarks[0].id.len(), 36);
    assert_eq!(d.bookmarks[0].access_count, 0);
    assert_eq!(d.bookmarks[0].last_accessed, None);
}

#[test]
fn delete_bookmark_reports_missing_ids() {
    let mut d = AppData::default();
    d.insert_bookmark(bm("a", "first", "alpha", 1, &[]));
    assert_eq!(d.delete_bookmark(&b("zz")), Err(StoreError::NotFound));
    assert_eq!(d.delete_bookmark(&b("a")), Ok(()));
    assert!(d.bookmarks.is_empty());
}

#[test]
fn update_bookmark_replaces_only_the_given_fields() {
    let mut d = AppData::default();
    d.insert_bookmark(bm("a", "old name", "old content", 1, &["t1"]));
    assert_eq!(
        d.update_bookmark(&b("a"), Some(b("new name")), None, Some(vec![b("t2"), b("t3")]), 55),
        Ok(()),
    );
    assert_eq!(d.bookmarks[0].name, b("new name"));
    assert_eq!(d.bookmarks[0].content, b("old content"));
    assert_eq!(d.bookmarks[0].tags, vec![b("t2"), b("t3")]);
    assert_eq!(d.bookmarks[0].last_accessed, Some(55));
    assert_eq!(
        d.update_bookmark(&b("nope"), None, None, None, 56),
        Err(StoreError::NotFound),
    );
}

#[test]
fn search_bookmarks_covers_name_content_and_tags() {
    let mut d = AppData::default();
    d.insert_bookmark(bm("a", "Recipe", "flour and water", 1, &["food"]));
    d.insert_bookmark(bm("c", "work notes", "standup agenda", 2, &["Office"]));
    d.insert_bookmark(bm("e", "misc", "nothing", 3, &[]));
    assert_eq!(d.search_bookmarks(&b("recipe")).len(), 1);
    assert_eq!(d.search_bookmarks(&b("AGENDA")).len(), 1);
    assert_eq!(d.search_bookmarks(&b("office")).len(), 1);
    assert_eq!(d.search_bookmarks(&b("")).len(), 3);
    let newest_first = d.search_bookmarks(&b("o"));
    assert!(newest_first.len() >= 2);
    for w in newest_first.windows(2) {
        assert!(w[0].timestamp >= w[1].timestamp);
    }
}

#[test]
fn duplicate_bookmark_copies_under_a_new_identity() {
    let mut d = AppData::default();
    d.insert_bookmark(bm("a", "label", "body", 1, &["t"]));
    assert_eq!(d.duplicate_bookmark(&b("a")), Ok(()));
    assert_eq!(d.bookmarks.len(), 2);
    let mut expected_name = b("label");
    expected_name.extend_from_slice(&[32, 40, 227, 130, 179, 227, 131, 148, 227, 131, 188, 41]);
    assert_eq!(d.bookmarks[1].name, expected_name);
    assert_eq!(d.bookmarks[1].content, b("body"));
    assert_eq!(d.bookmarks[1].access_count, 0);
    assert_ne!(d.bookmarks[1].id, d.bookmarks[0].id);
    assert_eq!(d.duplicate_bookmark(&b("missing")), Err(StoreError::NotFound));
}

#[test]
fn clear_all_bookmarks_reports_the_count() {
    let mut d = AppData::default();
    d.insert_bookmark(bm("a", "x", "y", 1, &[]));
    d.insert_bookmark(bm("c", "z", "w", 2, &[]));
    assert_eq!(d.clear_all_bookmarks(), 2);
    assert!(d.bookmarks.is_empty());
}

#[test]
fn bookmark_access_update_bumps_the_counters() {
    let mut d = AppData::default();
    d.insert_bookmark(bm("a", "x", "y", 1, &[]));
    assert_eq!(d.update_item_access(&b("a"), true, 99), Ok(()));
    assert_eq!(d.bookmarks[0].access_count, 1);
    assert_eq!(d.bookmarks[0].last_accessed, Some(99));
    assert_eq!(d.update_item_access(&b("q"), true, 99), Err(StoreError::NotFound));
}

#[test]
fn duplicate_bookmark_groups_use_label_and_content() {
    let mut d = AppData::default();
    d.insert_bookmark(bm("a", "same", "body", 1, &[]));
    d.insert_bookmark(bm("c", "same", "body", 2, &[]));
    d.insert_bookmark(bm("e", "same", "other body", 3, &[]));
    let groups = d.find_duplicate_bookmarks();
    assert_eq!(groups.len(), 1);
    assert_eq!(groups[0].name, b("same"));
    assert_eq!(groups[0].content, b("body"));
    assert_eq!(groups[0].count, 2);
    assert_eq!(groups[0].ids, vec![b("a"), b("c")]);
}

#[test]
fn collapse_bookmarks_keeps_the_most_recently_added() {
    let mut d = AppData::default();
    d.insert_bookmark(bm("a", "same", "body", 1, &[]));
    d.insert_bookmark(bm("c", "other", "body", 2, &[]));
    d.insert_bookmark(bm("e", "same", "body", 3, &[]));
    let removed = d.collapse_duplicate_bookmarks();
    assert_eq!(removed, 1);
    assert_eq!(d.bookmarks.len(), 2);
    assert_eq!(d.bookmarks[0].id, b("c"));
    assert_eq!(d.bookmarks[1].id, b("e"));
}
