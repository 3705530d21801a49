use clipvault::model::AppData;
use clipvault::monitor::ClipboardMonitor;
use clipvault::monitor::TickEvent;

fn b(s: &str) -> Vec<u8> {
    s.as_bytes().to_vec()
}

fn running() -> (ClipboardMonitor, AppData) {
    let mut m = ClipboardMonitor::new();
    assert!(m.start_monitoring());
    (m, AppData::default())
}

#[test]
fn start_is_idempotent_and_stop_clears_the_flag() {
    let mut m = ClipboardMonitor::new();
    assert!(!m.running);
    assert!(m.start_monitoring());
    assert!(!m.start_monitoring());
    assert!(m.running);
    m.stop_monitoring();
    assert!(!m.running);
}

#[test]
fn blank_sample_never_produces_an_entry() {
    let (mut m, mut d) = running();
    let out = m.tick(&mut d, TickEvent::ReadOk(b("   \t\r\n ")), b("id1"), 100);
    assert!(!out.content_changed);
    assert!(d.history.is_empty());
    let out = m.tick(&mut d, TickEvent::ReadOk(b("")), b("id2"), 101);
    assert!(!out.content_changed);
    assert!(d.history.is_empty());
}

#[test]
fn same_sample_on_consecutive_ticks_stores_once() {
    let (mut m, mut d) = running();
    let out1 = m.tick(&mut d, TickEvent::ReadOk(b("copied once")), b("id1"), 100);
    assert!(out1.content_changed);
    let out2 = m.tick(&mut d, TickEvent::ReadOk(b("copied once")), b("id2"), 200);
    assert!(!out2.content_changed);
    let matching = d.history.iter().filter(|e| e.content == b("copied once")).count();
    assert_eq!(matching, 1);
    assert_eq!(d.history.len(), 1);
}

#[test]
fn a_change_is_stored_and_addresses_are_detected() {
    let (mut m, mut d) = running();
    let out = m.tick(&mut d, TickEvent::ReadOk(b("ping 10.0.0.7 and 999.0.0.1")), b("id1"), 100);
    assert!(out.content_changed);
    assert_eq!(out.detected_ips, vec![b("10.0.0.7")]);
    assert_eq!(d.history.len(), 1);
    assert_eq!(d.recent_ips.len(), 1);
    assert_eq!(d.recent_ips[0].ip, b("10.0.0.7"));
    assert_eq!(d.recent_ips[0].timestamp, 100);
}

#[test]
fn ticks_while_stopped_do_nothing() {
    let mut m = ClipboardMonitor::new();
    let mut d = AppData::default();
    let out = m.tick(&mut d, TickEvent::ReadOk(b("something")), b("id1"), 100);
    assert!(!out.content_changed);
    assert!(!out.self_stopped);
    assert!(d.history.is_empty());
}

#[test]
fn ten_acquire_failures_stop_the_monitor() {
    let (mut m, mut d) = running();
    for k in 0..9 {
        let out = m.tick(&mut d, TickEvent::AcquireFailed, b("id"), k);
        assert!(!out.self_stopped);
        assert!(m.running);
    }
    let out = m.tick(&mut d, TickEvent::AcquireFailed, b("id"), 9);
    assert!(out.self_stopped);
    assert!(!m.running);
}

#[test]
fn five_read_failures_widen_the_interval_until_a_read_succeeds() {
    let (mut m, mut d) = running();
    assert_eq!(m.poll_interval_ms(), 250);
    for k in 0..4 {
        m.tick(&mut d, TickEvent::ReadFailed, b("id"), k);
        assert_eq!(m.poll_interval_ms(), 250);
    }
    m.tick(&mut d, TickEvent::ReadFailed, b("id"), 4);
    assert_eq!(m.poll_interval_ms(), 1000);
    m.tick(&mut d, TickEvent::ReadOk(b("back")), b("id9"), 10);
    assert_eq!(m.poll_interval_ms(), 250);
    assert_eq!(m.read_failures, 0);
}

#[test]
fn a_successful_read_resets_the_acquire_counter() {
    let (mut m, mut d) = running();
    for k in 0..8 {
        m.tick(&mut d, TickEvent::AcquireFailed, b("id"), k);
    }
    m.tick(&mut d, TickEvent::ReadOk(b("fine again")), b("idx"), 50);
    assert_eq!(m.acquire_failures, 0);
    for k in 0..9 {
        let out = m.tick(&mut d, TickEvent::AcquireFailed, b("id"), k);
        assert!(!out.self_stopped);
    }
}

#[test]
fn changed_content_purges_the_older_copy() {
    let (mut m, mut d) = running();
    m.tick(&mut d, TickEvent::ReadOk(b("first")), b("id1"), 1);
    m.tick(&mut d, TickEvent::ReadOk(b("second")), b("id2"), 2);
    m.tick(&mut d, TickEvent::ReadOk(b("first")), b("id3"), 3);
    assert_eq!(d.history.len(), 2);
    assert_eq!(d.history[0].content, b("second"));
    assert_eq!(d.history[1].content, b("first"));
    assert_eq!(d.history[1].id, b("id3"));
}
