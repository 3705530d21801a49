use clipvault::model::AppData;
use clipvault::store::StoreError;
use clipvault::model::IpHistoryItem;

fn b(s: &str) -> Vec<u8> {
    s.as_bytes().to_vec()
}

fn ip_store(limit: usize) -> AppData {
    let mut d = AppData::default();
    let mut s = d.get_settings();
    s.ip_limit = limit;
    d.update_settings(s).unwrap();
    d
}

fn sorted_desc(d: &AppData) -> bool {
    d.recent_ips.windows(2).all(|w| w[0].timestamp >= w[1].timestamp)
}

#[test]
fn address_log_stays_bounded_unique_and_sorted() {
    let mut d = ip_store(3);
    for k in 0..20u64 {
        let ip = format!("10.0.0.{}", k % 5);
        d.add_ip_to_history(b(&ip), 1000 + k);
        assert!(d.recent_ips.len() <= 3);
        assert!(sorted_desc(&d));
        for a in 0..d.recent_ips.len() {
            for c in (a + 1)..d.recent_ips.len() {
                assert_ne!(d.recent_ips[a].ip, d.recent_ips[c].ip);
            }
        }
    }
}

#[test]
fn repeated_sighting_merges_by_count() {
    let mut d = ip_store(10);
    d.add_ip_to_history(b("1.1.1.1"), 100);
    d.add_ip_to_history(b("2.2.2.2"), 200);
    d.add_ip_to_history(b("1.1.1.1"), 300);
    assert_eq!(d.recent_ips.len(), 2);
    assert_eq!(d.recent_ips[0].ip, b("1.1.1.1"));
    assert_eq!(d.recent_ips[0].count, 2);
    assert_eq!(d.recent_ips[0].timestamp, 300);
    assert_eq!(d.recent_ips[1].ip, b("2.2.2.2"));
    assert_eq!(d.recent_ips[1].count, 1);
}

#[test]
fn at_capacity_the_oldest_sighting_is_evicted() {
    let mut d = ip_store(2);
    d.add_ip_to_history(b("1.1.1.1"), 100);
    d.add_ip_to_history(b("2.2.2.2"), 200);
    d.add_ip_to_history(b("3.3.3.3"), 300);
    assert_eq!(d.recent_ips.len(), 2);
    assert_eq!(d.recent_ips[0].ip, b("3.3.3.3"));
    assert_eq!(d.recent_ips[1].ip, b("2.2.2.2"));
}

#[test]
fn eviction_tie_breaks_to_the_earliest_position() {
    let mut d = ip_store(2);
    d.add_ip_to_history(b("1.1.1.1"), 100);
    d.add_ip_to_history(b("2.2.2.2"), 100);
    d.add_ip_to_history(b("3.3.3.3"), 300);
    assert_eq!(d.recent_ips.len(), 2);
    assert_eq!(d.recent_ips[0].ip, b("3.3.3.3"));
    // among the two tied sightings, the one earlier in the list went
    assert_eq!(d.recent_ips[1].ip, b("2.2.2.2"));
}

#[test]
fn command_level_add_validates_the_address() {
    let mut d = ip_store(10);
    assert_eq!(d.add_ip_to_recent(b("300.1.1.1"), 100), Err(StoreError::InvalidInput));
    assert!(d.recent_ips.is_empty());
    assert_eq!(d.add_ip_to_recent(b("8.8.8.8"), 100), Ok(()));
    assert_eq!(d.recent_ips.len(), 1);
}

#[test]
fn remove_and_reset_report_missing_addresses() {
    let mut d = ip_store(10);
    d.add_ip_to_history(b("1.1.1.1"), 100);
    d.add_ip_to_history(b("1.1.1.1"), 150);
    assert_eq!(d.reset_ip_count(&b("1.1.1.1")), Ok(()));
    assert_eq!(d.recent_ips[0].count, 1);
    assert_eq!(d.reset_ip_count(&b("9.9.9.9")), Err(StoreError::NotFound));
    assert_eq!(d.remove_ip_from_recent(&b("1.1.1.1")), Ok(()));
    assert!(d.recent_ips.is_empty());
    assert_eq!(d.remove_ip_from_recent(&b("1.1.1.1")), Err(StoreError::NotFound));
}

#[test]
fn clear_ip_history_reports_the_count() {
    let mut d = ip_store(10);
    d.add_ip_to_history(b("1.1.1.1"), 100);
    d.add_ip_to_history(b("2.2.2.2"), 200);
    assert_eq!(d.clear_ip_history(), 2);
    assert!(d.recent_ips.is_empty());
}

#[test]
fn ip_search_is_byte_exact_substring() {
    let mut d = ip_store(10);
    d.add_ip_to_history(b("10.0.0.1"), 100);
    d.add_ip_to_history(b("192.168.0.1"), 200);
    let found = d.search_ip_history(&b("168"));
    assert_eq!(found.len(), 1);
    assert_eq!(found[0].ip, b("192.168.0.1"));
    let all = d.search_ip_history(&b(" "));
    assert_eq!(all.len(), 2);
}

#[test]
fn repair_restores_order_and_uniqueness() {
    let mut d = ip_store(10);
    d.recent_ips.push(IpHistoryItem { ip: b("1.1.1.1"), timestamp: 100, count: 1 });
    d.recent_ips.push(IpHistoryItem { ip: b("2.2.2.2"), timestamp: 300, count: 1 });
    d.recent_ips.push(IpHistoryItem { ip: b("1.1.1.1"), timestamp: 200, count: 4 });
    d.repair_address_log();
    assert_eq!(d.recent_ips.len(), 2);
    assert!(sorted_desc(&d));
    assert_eq!(d.recent_ips[0].ip, b("2.2.2.2"));
    assert_eq!(d.recent_ips[1].ip, b("1.1.1.1"));
    assert_eq!(d.recent_ips[1].count, 1);
}
