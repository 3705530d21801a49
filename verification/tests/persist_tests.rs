use clipvault::model::AppData;
use clipvault::model::ClipboardItem;
use clipvault::model::BookmarkItem;
use clipvault::model::IpHistoryItem;
use clipvault::codec::encode_app_data;
use clipvault::codec::decode_app_data;
use clipvault::persist::FileManager;
use clipvault::persist::LoadOutcome;

fn b(s: &str) -> Vec<u8> {
    s.as_bytes().to_vec()
}

fn populated() -> AppData {
    let mut d = AppData::default();
    d.insert_history(ClipboardItem::new(b("id-1"), b("plain content"), b("text"), 1111));
    d.insert_history(
        ClipboardItem::new(b("id-2"), b("tricky \"quoted\" \\ back\nnewline\ttab"), b("text"), 2222),
    );
    d.insert_bookmark(
        BookmarkItem::new(b("bm-1"), b("label"), b("body"), b("text"), vec![b("t1"), b("t2")], 33),
    );
    d.add_ip_to_history(b("10.0.0.1"), 400);
    d.add_ip_to_history(b("8.8.8.8"), 500);
    d.update_item_access(&b("id-1"), false, 4000).unwrap();
    d
}

fn assert_same(a: &AppData, c: &AppData) {
    assert_eq!(a.version, c.version);
    assert_eq!(a.history.len(), c.history.len());
    for (x, y) in a.history.iter().zip(c.history.iter()) {
        assert_eq!(x.id, y.id);
        assert_eq!(x.content, y.content);
        assert_eq!(x.content_type, y.content_type);
        assert_eq!(x.timestamp, y.timestamp);
        assert_eq!(x.size, y.size);
        assert_eq!(x.access_count, y.access_count);
        assert_eq!(x.last_accessed, y.last_accessed);
    }
    assert_eq!(a.bookmarks.len(), c.bookmarks.len());
    for (x, y) in a.bookmarks.iter().zip(c.bookmarks.iter()) {
        assert_eq!(x.id, y.id);
        assert_eq!(x.name, y.name);
        assert_eq!(x.content, y.content);
        assert_eq!(x.tags, y.tags);
        assert_eq!(x.timestamp, y.timestamp);
    }
    assert_eq!(a.recent_ips.len(), c.recent_ips.len());
    for (x, y) in a.recent_ips.iter().zip(c.recent_ips.iter()) {
        assert_eq!(x.ip, y.ip);
        assert_eq!(x.timestamp, y.timestamp);
        assert_eq!(x.count, y.count);
    }
    assert_eq!(a.settings.hotkey, c.settings.hotkey);
    assert_eq!(a.settings.history_limit, c.settings.history_limit);
    assert_eq!(a.settings.ip_limit, c.settings.ip_limit);
    assert_eq!(a.settings.auto_start, c.settings.auto_start);
    assert_eq!(a.settings.show_notifications, c.settings.show_notifications);
}

#[test]
fn encode_then_decode_round_trips() {
    let d = populated();
    let bytes = encode_app_data(&d);
    let back = decode_app_data(&bytes).expect("canonical bytes must parse");
    assert_same(&d, &back);
}

#[test]
fn default_state_renders_the_documented_document() {
    let d = AppData::default();
    let bytes = encode_app_data(&d);
    let mut expected = String::new();
    expected.push_str("{\"version\":\"1.0.0\",\"history\":[],\"bookmarks\":[],\"recent_ips\":[],");
    expected.push_str("\"settings\":{\"hotkey\":\"cmd+shift+v\",\"history_limit\":50,\"ip_limit\":10,");
    expected.push_str("\"auto_start\":true,\"show_notifications\":false}}");
    assert_eq!(bytes, b(&expected));
}

#[test]
fn control_bytes_escape_and_come_back() {
    let mut d = AppData::default();
    d.insert_history(ClipboardItem::new(b("id"), vec![0u8, 1, 31, 32, 34, 92, 200], b("text"), 1));
    let bytes = encode_app_data(&d);
    let back = decode_app_data(&bytes).unwrap();
    assert_eq!(back.history[0].content, vec![0u8, 1, 31, 32, 34, 92, 200]);
}

#[test]
fn malformed_documents_are_refused() {
    assert!(decode_app_data(&b("not json at all")).is_none());
    assert!(decode_app_data(&b("{\"version\":\"1.0.0\"")).is_none());
    assert!(decode_app_data(&b("{}")).is_none());
    let d = AppData::default();
    let mut bytes = encode_app_data(&d);
    bytes.push(32);
    assert!(decode_app_data(&bytes).is_none(), "trailing bytes are refused");
}

#[test]
fn zero_limits_are_schema_violations() {
    let good = encode_app_data(&AppData::default());
    let text = String::from_utf8(good).unwrap();
    let zero = text.replace("\"history_limit\":50", "\"history_limit\":0");
    assert!(decode_app_data(&b(&zero)).is_none());
    let zero_ip = text.replace("\"ip_limit\":10", "\"ip_limit\":0");
    assert!(decode_app_data(&b(&zero_ip)).is_none());
}

#[test]
fn load_without_a_file_returns_defaults() {
    match FileManager::load_from_file(None) {
        LoadOutcome::Fresh(d) => assert_same(&d, &AppData::default()),
        _ => panic!("expected fresh defaults"),
    }
}

#[test]
fn load_of_an_empty_file_returns_defaults() {
    match FileManager::load_from_file(Some(&b("  \n\t "))) {
        LoadOutcome::EmptyFile(d) => assert_same(&d, &AppData::default()),
        _ => panic!("expected defaults for an empty file"),
    }
}

#[test]
fn load_of_malformed_bytes_asks_for_a_backup_and_returns_defaults() {
    match FileManager::load_from_file(Some(&b("{\"version\": oops"))) {
        LoadOutcome::Corrupt(d) => assert_same(&d, &AppData::default()),
        _ => panic!("malformed bytes must report corruption"),
    }
}

#[test]
fn save_then_load_round_trips_the_whole_state() {
    let d = populated();
    let plan = FileManager::save_to_file(&d);
    assert!(!plan.over_limit_warning);
    match FileManager::load_from_file(Some(&plan.payload)) {
        LoadOutcome::Loaded(back) => assert_same(&d, &back),
        _ => panic!("a saved state must load back"),
    }
}

#[test]
fn load_reconciles_a_stale_file_with_duplicates() {
    let mut d = AppData::default();
    d.history.push(ClipboardItem::new(b("a"), b("dup"), b("text"), 5));
    d.history.push(ClipboardItem::new(b("c"), b("dup"), b("text"), 9));
    d.recent_ips.push(IpHistoryItem { ip: b("1.1.1.1"), timestamp: 100, count: 1 });
    d.recent_ips.push(IpHistoryItem { ip: b("2.2.2.2"), timestamp: 300, count: 1 });
    let plan = FileManager::save_to_file(&d);
    match FileManager::load_from_file(Some(&plan.payload)) {
        LoadOutcome::Loaded(back) => {
            assert_eq!(back.history.len(), 1);
            assert_eq!(back.history[0].id, b("c"));
            assert_eq!(back.recent_ips.len(), 2);
            assert_eq!(back.recent_ips[0].ip, b("2.2.2.2"));
        },
        _ => panic!("a parseable stale file must still load"),
    }
}

#[test]
fn over_limit_warning_flags_a_bypassed_limit() {
    let mut d = AppData::default();
    let mut s = d.get_settings();
    s.history_limit = 1;
    d.update_settings(s).unwrap();
    d.history.push(ClipboardItem::new(b("a"), b("x"), b("text"), 1));
    d.history.push(ClipboardItem::new(b("c"), b("y"), b("text"), 2));
    d.history.push(ClipboardItem::new(b("e"), b("z"), b("text"), 3));
    let plan = FileManager::save_to_file(&d);
    assert!(plan.over_limit_warning);
}

#[test]
fn log_rotation_threshold_is_five_megabytes() {
    assert!(!FileManager::should_rotate_log(5242880));
    assert!(FileManager::should_rotate_log(5242881));
}

#[test]
fn disk_usage_classification_threshold() {
    assert!(!FileManager::disk_usage_high(5242880, 5242880));
    assert!(FileManager::disk_usage_high(5242881, 5242880));
}

#[test]
fn get_log_content_keeps_the_last_lines() {
    let lines = vec![b("one"), b("two"), b("three"), b("four")];
    let tail = FileManager::get_log_content(&lines, 2);
    assert_eq!(tail, vec![b("three"), b("four")]);
    let all = FileManager::get_log_content(&lines, 10);
    assert_eq!(all, lines);
}
